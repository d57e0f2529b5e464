//! Text: the decimal form of a number, the number that a text stands for,
//! and the comparison of texts.

use vstd::prelude::*;
use vstd::string::*;

verus! {

/// The digit that stands for `d`, which is below ten.
pub open spec fn digit_char(d: int) -> char {
    if d == 0 {
        '0'
    } else if d == 1 {
        '1'
    } else if d == 2 {
        '2'
    } else if d == 3 {
        '3'
    } else if d == 4 {
        '4'
    } else if d == 5 {
        '5'
    } else if d == 6 {
        '6'
    } else if d == 7 {
        '7'
    } else if d == 8 {
        '8'
    } else {
        '9'
    }
}

/// The decimal form of a number: no leading zero, and `0` for zero.
pub open spec fn decimal(n: nat) -> Seq<char>
    decreases n,
{
    if n < 10 {
        seq![digit_char(n as int)]
    } else {
        decimal(n / 10).push(digit_char((n % 10) as int))
    }
}

/// The text of one digit.
fn digit_text(d: u32) -> (text: &'static str)
    requires
        d < 10,
    ensures
        text@ == seq![digit_char(d as int)],
{
    proof {
        reveal_strlit("0");
        reveal_strlit("1");
        reveal_strlit("2");
        reveal_strlit("3");
        reveal_strlit("4");
        reveal_strlit("5");
        reveal_strlit("6");
        reveal_strlit("7");
        reveal_strlit("8");
        reveal_strlit("9");
    }
    let text: &'static str = if d == 0 {
        "0"
    } else if d == 1 {
        "1"
    } else if d == 2 {
        "2"
    } else if d == 3 {
        "3"
    } else if d == 4 {
        "4"
    } else if d == 5 {
        "5"
    } else if d == 6 {
        "6"
    } else if d == 7 {
        "7"
    } else if d == 8 {
        "8"
    } else {
        "9"
    };
    assert(text@ =~= seq![digit_char(d as int)]);
    text
}

/// The decimal form of `n`.
pub fn decimal_text(n: u32) -> (text: String)
    ensures
        text@ == decimal(n as nat),
    decreases n,
{
    if n < 10 {
        String::from_str(digit_text(n))
    } else {
        let mut text = decimal_text(n / 10);
        text.append(digit_text(n % 10));
        proof {
            assert(decimal((n / 10) as nat) + seq![digit_char((n % 10) as int)] =~= decimal(
                (n / 10) as nat,
            ).push(digit_char((n % 10) as int)));
        }
        text
    }
}

/// Whether the two texts are the same.
pub fn same_text(a: &str, b: &str) -> (same: bool)
    ensures
        same == (a@ == b@),
{
    let n: usize = a.unicode_len();
    if n != b.unicode_len() {
        return false;
    }
    let mut i: usize = 0;
    while i < n
        invariant
            i <= n,
            n == a@.len(),
            n == b@.len(),
            forall|k: int| 0 <= k < i ==> a@[k] == b@[k],
        decreases n - i,
    {
        if a.get_char(i) != b.get_char(i) {
            return false;
        }
        i = i + 1;
    }
    assert(a@ =~= b@);
    true
}

/// Whether `text` begins with `prefix`.
pub open spec fn begins_with(text: Seq<char>, prefix: Seq<char>) -> bool {
    prefix.len() <= text.len() && text.subrange(0, prefix.len() as int) == prefix
}

/// Whether `text` begins with `prefix`.
pub fn has_prefix(text: &str, prefix: &str) -> (has: bool)
    ensures
        has == begins_with(text@, prefix@),
{
    let n: usize = prefix.unicode_len();
    if n > text.unicode_len() {
        return false;
    }
    let mut i: usize = 0;
    while i < n
        invariant
            i <= n,
            n == prefix@.len(),
            n <= text@.len(),
            forall|k: int| 0 <= k < i ==> text@[k] == prefix@[k],
        decreases n - i,
    {
        if text.get_char(i) != prefix.get_char(i) {
            assert(text@.subrange(0, n as int)[i as int] != prefix@[i as int]);
            return false;
        }
        i = i + 1;
    }
    assert(text@.subrange(0, n as int) =~= prefix@);
    true
}

/// The number below ten that a digit stands for, or -1 for any other
/// character.
pub open spec fn digit_value(c: char) -> int {
    if c == '0' {
        0
    } else if c == '1' {
        1
    } else if c == '2' {
        2
    } else if c == '3' {
        3
    } else if c == '4' {
        4
    } else if c == '5' {
        5
    } else if c == '6' {
        6
    } else if c == '7' {
        7
    } else if c == '8' {
        8
    } else if c == '9' {
        9
    } else {
        -1
    }
}

/// Whether every character of the text is a digit.
pub open spec fn all_digits(text: Seq<char>) -> bool {
    forall|i: int| 0 <= i < text.len() ==> digit_value(#[trigger] text[i]) >= 0
}

/// The number that a run of digits stands for.
pub open spec fn digits_value(text: Seq<char>) -> int
    decreases text.len(),
{
    if text.len() == 0 {
        0
    } else {
        10 * digits_value(text.drop_last()) + digit_value(text.last())
    }
}

/// The 32-bit signed number that a text stands for: a run of at least one
/// digit, with `+` or `-` in front of it or without a sign, whose value
/// fits. Any other text stands for none.
pub open spec fn signed_value(text: Seq<char>) -> Option<i32> {
    let negative = text.len() > 0 && text[0] == '-';
    let signed = text.len() > 0 && (text[0] == '-' || text[0] == '+');
    let digits = if signed {
        text.subrange(1, text.len() as int)
    } else {
        text
    };
    let value = if negative {
        -digits_value(digits)
    } else {
        digits_value(digits)
    };
    if digits.len() == 0 || !all_digits(digits) || value < i32::MIN || value > i32::MAX {
        None
    } else {
        Some(value as i32)
    }
}

/// The number below ten that the character stands for, if it is a digit.
fn digit_of(c: char) -> (d: Option<i64>)
    ensures
        d matches Some(v) ==> v == digit_value(c) && 0 <= v <= 9,
        d is None ==> digit_value(c) == -1,
{
    if c == '0' {
        Some(0)
    } else if c == '1' {
        Some(1)
    } else if c == '2' {
        Some(2)
    } else if c == '3' {
        Some(3)
    } else if c == '4' {
        Some(4)
    } else if c == '5' {
        Some(5)
    } else if c == '6' {
        Some(6)
    } else if c == '7' {
        Some(7)
    } else if c == '8' {
        Some(8)
    } else if c == '9' {
        Some(9)
    } else {
        None
    }
}

/// The value of a run of digits is not below that of its beginning.
proof fn lemma_digits_grow(text: Seq<char>, k: int)
    requires
        all_digits(text),
        0 <= k <= text.len(),
    ensures
        0 <= digits_value(text.subrange(0, k)) <= digits_value(text),
    decreases text.len() - k,
{
    if k == text.len() {
        assert(text.subrange(0, k) =~= text);
        lemma_digits_nonneg(text);
    } else {
        lemma_digits_grow(text, k + 1);
        let longer = text.subrange(0, k + 1);
        assert(longer.drop_last() =~= text.subrange(0, k));
        assert(longer.last() == text[k]);
        lemma_digits_nonneg(text.subrange(0, k));
    }
}

/// A run of digits stands for a number that is not negative.
proof fn lemma_digits_nonneg(text: Seq<char>)
    requires
        all_digits(text),
    ensures
        digits_value(text) >= 0,
    decreases text.len(),
{
    if text.len() > 0 {
        assert forall|i: int| 0 <= i < text.drop_last().len() implies digit_value(
            #[trigger] text.drop_last()[i],
        ) >= 0 by {
            assert(text.drop_last()[i] == text[i]);
        }
        lemma_digits_nonneg(text.drop_last());
        assert(text.last() == text[text.len() - 1]);
    }
}

/// The 32-bit signed number that a text stands for.
pub fn parse_i32(text: &str) -> (number: Option<i32>)
    ensures
        number == signed_value(text@),
{
    let n: usize = text.unicode_len();
    if n == 0 {
        return None;
    }
    let first: char = text.get_char(0);
    let negative: bool = first == '-';
    let start: usize = if first == '-' || first == '+' {
        1
    } else {
        0
    };
    if start == n {
        proof {
            assert(text@.subrange(1, n as int).len() == 0);
        }
        return None;
    }
    let ghost digits = if start == 1 {
        text@.subrange(1, n as int)
    } else {
        text@
    };
    let mut value: i64 = 0;
    let mut i: usize = start;
    while i < n
        invariant
            start <= i <= n,
            n == text@.len(),
            start <= 1,
            digits == (if start == 1 {
                text@.subrange(1, n as int)
            } else {
                text@
            }),
            all_digits(digits.subrange(0, i - start)),
            value == digits_value(digits.subrange(0, i - start)),
            0 <= value <= 2147483648,
            n > 0,
            negative == (text@[0] == '-'),
            start == (if text@[0] == '-' || text@[0] == '+' {
                1int
            } else {
                0int
            }),
        decreases n - i,
    {
        let c: char = text.get_char(i);
        let ghost shorter = digits.subrange(0, i - start);
        let ghost longer = digits.subrange(0, i + 1 - start);
        proof {
            assert(longer.drop_last() =~= shorter);
            assert(longer.last() == c);
        }
        match digit_of(c) {
            None => {
                proof {
                    assert(digits[i - start] == c);
                    assert(digit_value(digits[i - start]) < 0);
                }
                return None;
            },
            Some(d) => {
                proof {
                    assert forall|k: int| 0 <= k < longer.len() implies digit_value(
                        #[trigger] longer[k],
                    ) >= 0 by {
                        if k < shorter.len() {
                            assert(longer[k] == shorter[k]);
                        }
                    }
                }
                value = value * 10 + d;
                if value > 2147483648 {
                    // whatever follows, the number does not fit
                    let mut j: usize = i + 1;
                    while j < n
                        invariant
                            i + 1 <= j <= n,
                            n == text@.len(),
                            start <= 1,
                            start <= i,
                            digits == (if start == 1 {
                                text@.subrange(1, n as int)
                            } else {
                                text@
                            }),
                            all_digits(digits.subrange(0, j - start)),
                            n > 0,
                            negative == (text@[0] == '-'),
                            start == (if text@[0] == '-' || text@[0] == '+' {
                                1int
                            } else {
                                0int
                            }),
                            value > 2147483648,
                            value == digits_value(digits.subrange(0, i + 1 - start)),
                        decreases n - j,
                    {
                        let cj: char = text.get_char(j);
                        let ghost short_j = digits.subrange(0, j - start);
                        let ghost long_j = digits.subrange(0, j + 1 - start);
                        match digit_of(cj) {
                            None => {
                                proof {
                                    assert(digits[j - start] == cj);
                                    assert(digit_value(digits[j - start]) < 0);
                                }
                                return None;
                            },
                            Some(_) => {
                                proof {
                                    assert forall|k: int| 0 <= k < long_j.len() implies digit_value(
                                        #[trigger] long_j[k],
                                    ) >= 0 by {
                                        if k < short_j.len() {
                                            assert(long_j[k] == short_j[k]);
                                        }
                                    }
                                }
                            },
                        }
                        j = j + 1;
                    }
                    proof {
                        assert(digits.subrange(0, n - start) =~= digits);
                        lemma_digits_grow(digits, i + 1 - start);
                    }
                    return None;
                }
            },
        }
        i = i + 1;
    }
    proof {
        assert(digits.subrange(0, n - start) =~= digits);
    }
    if negative {
        Some((0 - value) as i32)
    } else if value > 2147483647 {
        None
    } else {
        Some(value as i32)
    }
}

} // verus!
