use btree_store::row::{serialize_row, Row};
use btree_store::text::{decimal_text, has_prefix, parse_i32, same_text};

fn make_row(id: u32, username: &[u8], email: &[u8]) -> Row {
    let mut u = [0u8; 32];
    let mut e = [0u8; 255];
    u[..username.len()].copy_from_slice(username);
    e[..email.len()].copy_from_slice(email);
    Row { id, username: u, email: e }
}

#[test]
fn a_row_is_stored_in_291_bytes() {
    let row = make_row(0x0A0B_0C0D, b"alice", b"alice@example.com");
    let mut bytes = vec![0xEEu8; 300];
    row.serialize_row(&mut bytes);
    assert_eq!(&bytes[..4], &[0x0D, 0x0C, 0x0B, 0x0A]);
    assert_eq!(&bytes[4..9], b"alice");
    assert!(bytes[9..36].iter().all(|b| *b == 0));
    assert_eq!(&bytes[36..53], b"alice@example.com");
    assert!(bytes[53..291].iter().all(|b| *b == 0));
    // what lies behind the row is left alone
    assert!(bytes[291..].iter().all(|b| *b == 0xEE));
    let mut again = vec![0u8; 291];
    serialize_row(&row, &mut again);
    assert_eq!(&again[..], &bytes[..291]);
}

#[test]
fn a_row_that_is_written_is_read_back() {
    let row = make_row(4_000_000_000, &[b'x'; 32], &[b'y'; 255]);
    let mut bytes = vec![0u8; 291];
    row.serialize_row(&mut bytes);
    let back = Row::deserialize(&bytes);
    assert_eq!(back.id, 4_000_000_000);
    assert_eq!(back.username, row.username);
    assert_eq!(back.email, row.email);
    // a field that is full has no zero byte: all of it is text
    assert_eq!(back.get_username(), "x".repeat(32));
    assert_eq!(back.get_email(), "y".repeat(255));
    let mut long = vec![1u8; 400];
    long[0] = 9;
    long[1] = 0;
    long[2] = 0;
    long[3] = 0;
    let from_long = Row::deserialize(&long);
    assert_eq!(from_long.id, 9);
    assert_eq!(from_long.username, [1u8; 32]);
    assert_eq!(from_long.email, [1u8; 255]);
}

#[test]
fn text_ends_at_the_first_zero_byte() {
    let row = make_row(1, b"bob\0hidden", b"");
    assert_eq!(row.get_username(), "bob");
    assert_eq!(row.get_email(), "");
    let row = make_row(1, b"\0", b"a\0b\0c");
    assert_eq!(row.get_username(), "");
    assert_eq!(row.get_email(), "a");
}

#[test]
fn bytes_that_are_no_text_are_replaced() {
    let row = make_row(1, &[b'a', 0xFF, b'b'], "grüße".as_bytes());
    assert_eq!(row.get_username(), "a\u{FFFD}b");
    assert_eq!(row.get_email(), "grüße");
}

#[test]
fn numbers_in_decimal() {
    assert_eq!(decimal_text(0), "0");
    assert_eq!(decimal_text(7), "7");
    assert_eq!(decimal_text(10), "10");
    assert_eq!(decimal_text(291), "291");
    assert_eq!(decimal_text(1_000_000), "1000000");
    assert_eq!(decimal_text(u32::MAX), "4294967295");
    for n in [9u32, 99, 100, 101, 12345, 2_147_483_647, 2_147_483_648] {
        assert_eq!(decimal_text(n), format!("{}", n));
    }
}

#[test]
fn texts_are_compared() {
    assert!(same_text("select", "select"));
    assert!(!same_text("select", "selec"));
    assert!(!same_text("select", "selects"));
    assert!(!same_text("select", "Select"));
    assert!(same_text("", ""));
    assert!(same_text("grüße", "grüße"));
    assert!(has_prefix("insert 1 a b", "insert"));
    assert!(has_prefix("insert", "insert"));
    assert!(has_prefix("anything", ""));
    assert!(!has_prefix("inser", "insert"));
    assert!(!has_prefix(" insert", "insert"));
    assert!(!has_prefix("", "insert"));
}

#[test]
fn numbers_are_read() {
    assert_eq!(parse_i32("0"), Some(0));
    assert_eq!(parse_i32("42"), Some(42));
    assert_eq!(parse_i32("+42"), Some(42));
    assert_eq!(parse_i32("-42"), Some(-42));
    assert_eq!(parse_i32("007"), Some(7));
    assert_eq!(parse_i32("-0"), Some(0));
    assert_eq!(parse_i32("2147483647"), Some(i32::MAX));
    assert_eq!(parse_i32("-2147483648"), Some(i32::MIN));
    assert_eq!(parse_i32("00000000000000000000012"), Some(12));
    for text in ["", "+", "-", "--1", "+-1", "1 ", " 1", "1a", "a1", "1.0", "2147483648", "-2147483649",
        "99999999999999999999", "99999999999999999999x", "١٢", "1_000"] {
        assert_eq!(parse_i32(text), None, "{:?}", text);
        assert_eq!(parse_i32(text), text.parse::<i32>().ok(), "{:?}", text);
    }
    for text in ["5", "+5", "-5", "0012", "2147483647", "-2147483648", "2147483646"] {
        assert_eq!(parse_i32(text), text.parse::<i32>().ok(), "{:?}", text);
    }
}
