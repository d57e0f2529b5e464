//! The row of the table: an id, a user name and an e-mail address, stored
//! in 291 bytes.

use vstd::prelude::*;
use crate::layout::{
    copy_into, get_u32_at, le_u32, lemma_constants, lemma_le_u32_depends, lemma_put_u32, put_bytes,
    put_u32, set_u32_at, COLUMN_EMAIL_SIZE, COLUMN_USERNAME_SIZE, EMAIL_OFFSET, EMAIL_SIZE,
    ID_OFFSET, ROW_SIZE, USERNAME_OFFSET, USERNAME_SIZE,
};

verus! {

/// A row of the table.
#[derive(Debug)]
pub struct Row {
    pub id: u32,
    /// The user name, filled up with zero bytes.
    pub username: [u8; COLUMN_USERNAME_SIZE],
    /// The e-mail address, filled up with zero bytes.
    pub email: [u8; COLUMN_EMAIL_SIZE],
}

/// The text that `String::from_utf8_lossy` makes of the bytes.
pub uninterp spec fn utf8_lossy(bytes: Seq<u8>) -> Seq<char>;

/// The bytes of a field up to its first zero byte: all of them where none
/// is zero.
pub open spec fn until_nul(bytes: Seq<u8>) -> Seq<u8>
    decreases bytes.len(),
{
    if bytes.len() == 0 || bytes[0] == 0 {
        Seq::empty()
    } else {
        seq![bytes[0]] + until_nul(bytes.subrange(1, bytes.len() as int))
    }
}

/// The bytes of the field up to the first zero byte, decoded as UTF-8 by
/// `String::from_utf8_lossy` of std, which replaces what is not valid UTF-8
/// by U+FFFD.
#[verifier::external_body]
fn lossy_text(bytes: &[u8]) -> (text: String)
    ensures
        text@ == utf8_lossy(bytes@),
{
    String::from_utf8_lossy(bytes).into_owned()
}

/// The index of the first zero byte, or the length where there is none.
fn nul_position(bytes: &[u8]) -> (end: usize)
    ensures
        end <= bytes@.len(),
        bytes@.subrange(0, end as int) == until_nul(bytes@),
{
    let mut end: usize = 0;
    let n: usize = bytes.len();
    proof {
        assert(bytes@.subrange(0, n as int) =~= bytes@);
        assert(bytes@.subrange(0, 0) + until_nul(bytes@) =~= until_nul(bytes@));
    }
    while end < n && bytes[end] != 0
        invariant
            n == bytes@.len(),
            end <= n,
            until_nul(bytes@) == bytes@.subrange(0, end as int) + until_nul(
                bytes@.subrange(end as int, n as int),
            ),
        decreases n - end,
    {
        proof {
            let rest = bytes@.subrange(end as int, n as int);
            assert(rest.subrange(1, rest.len() as int) =~= bytes@.subrange(end + 1, n as int));
            assert(bytes@.subrange(0, end as int) + seq![rest[0]] =~= bytes@.subrange(
                0,
                end + 1,
            ));
        }
        end = end + 1;
    }
    proof {
        assert(bytes@.subrange(0, 0) =~= Seq::<u8>::empty());
        assert(bytes@.subrange(0, n as int) =~= bytes@);
        assert(bytes@.subrange(0, end as int) + Seq::<u8>::empty() =~= bytes@.subrange(
            0,
            end as int,
        ));
    }
    end
}

impl Row {
    /// The 291 bytes that store the row: the id little-endian, then the
    /// user name, then the e-mail address.
    pub open spec fn bytes(&self) -> Seq<u8> {
        put_u32(
            Seq::new(
                ROW_SIZE as nat,
                |k: int|
                    if k < USERNAME_OFFSET {
                        0u8
                    } else if k < EMAIL_OFFSET {
                        self.username@[k - USERNAME_OFFSET]
                    } else {
                        self.email@[k - EMAIL_OFFSET]
                    },
            ),
            ID_OFFSET as int,
            self.id,
        )
    }

    /// Whether the row is the one that the first 291 bytes of `source`
    /// store.
    pub open spec fn stored_in(&self, source: Seq<u8>) -> bool {
        &&& self.id == le_u32(source, ID_OFFSET as int)
        &&& self.username@ == source.subrange(USERNAME_OFFSET as int, EMAIL_OFFSET as int)
        &&& self.email@ == source.subrange(EMAIL_OFFSET as int, ROW_SIZE as int)
    }

    /// Writes the row into the first 291 bytes of `destination`.
    pub fn serialize_row(&self, destination: &mut [u8])
        requires
            old(destination)@.len() >= ROW_SIZE,
        ensures
            final(destination)@ == put_bytes(old(destination)@, 0, self.bytes()),
            self.stored_in(final(destination)@),
    {
        proof {
            lemma_constants();
        }
        let ghost start = destination@;
        set_u32_at(destination, ID_OFFSET, self.id);
        let ghost with_id = destination@;
        proof {
            lemma_put_u32(start, 0, self.id);
        }
        copy_into(destination, USERNAME_OFFSET, &self.username);
        copy_into(destination, EMAIL_OFFSET, &self.email);
        proof {
            let t = destination@;
            let blank = Seq::new(
                ROW_SIZE as nat,
                |k: int|
                    if k < USERNAME_OFFSET {
                        0u8
                    } else if k < EMAIL_OFFSET {
                        self.username@[k - USERNAME_OFFSET]
                    } else {
                        self.email@[k - EMAIL_OFFSET]
                    },
            );
            lemma_put_u32(blank, 0, self.id);
            lemma_le_u32_depends(t, with_id, 0, 0);
            assert forall|k: int| 0 <= k < 4 implies self.bytes()[k] == t[k] by {
                crate::layout::lemma_put_u32_at(blank, 0, self.id);
                crate::layout::lemma_put_u32_at(start, 0, self.id);
            }
            assert(t =~= put_bytes(start, 0, self.bytes()));
            assert(self.username@ =~= t.subrange(USERNAME_OFFSET as int, EMAIL_OFFSET as int));
            assert(self.email@ =~= t.subrange(EMAIL_OFFSET as int, ROW_SIZE as int));
        }
    }

    /// The row that the first 291 bytes of `source` store.
    pub fn deserialize(source: &[u8]) -> (row: Row)
        requires
            source@.len() >= ROW_SIZE,
        ensures
            row.stored_in(source@),
    {
        proof {
            lemma_constants();
        }
        let id: u32 = get_u32_at(source, ID_OFFSET);
        let mut username: [u8; USERNAME_SIZE] = [0u8; USERNAME_SIZE];
        let mut k: usize = 0;
        while k < USERNAME_SIZE
            invariant
                k <= USERNAME_SIZE,
                source@.len() >= ROW_SIZE,
                forall|j: int| 0 <= j < k ==> username@[j] == source@[USERNAME_OFFSET + j],
            decreases USERNAME_SIZE - k,
        {
            username[k] = source[USERNAME_OFFSET + k];
            k = k + 1;
        }
        let mut email: [u8; EMAIL_SIZE] = [0u8; EMAIL_SIZE];
        let mut k: usize = 0;
        while k < EMAIL_SIZE
            invariant
                k <= EMAIL_SIZE,
                source@.len() >= ROW_SIZE,
                forall|j: int| 0 <= j < k ==> email@[j] == source@[EMAIL_OFFSET + j],
            decreases EMAIL_SIZE - k,
        {
            email[k] = source[EMAIL_OFFSET + k];
            k = k + 1;
        }
        proof {
            assert(username@ =~= source@.subrange(USERNAME_OFFSET as int, EMAIL_OFFSET as int));
            assert(email@ =~= source@.subrange(EMAIL_OFFSET as int, ROW_SIZE as int));
        }
        Row { id, username, email }
    }

    /// The user name as text: the bytes up to the first zero byte.
    pub fn get_username(&self) -> (name: String)
        ensures
            name@ == utf8_lossy(until_nul(self.username@)),
    {
        let end: usize = nul_position(&self.username);
        lossy_text(vstd::slice::slice_subrange(&self.username, 0, end))
    }

    /// The e-mail address as text: the bytes up to the first zero byte.
    pub fn get_email(&self) -> (email: String)
        ensures
            email@ == utf8_lossy(until_nul(self.email@)),
    {
        let end: usize = nul_position(&self.email);
        lossy_text(vstd::slice::slice_subrange(&self.email, 0, end))
    }
}

/// Writes the row into the first 291 bytes of `destination`.
pub fn serialize_row(row: &Row, destination: &mut [u8])
    requires
        old(destination)@.len() >= ROW_SIZE,
    ensures
        final(destination)@ == put_bytes(old(destination)@, 0, row.bytes()),
        row.stored_in(final(destination)@),
{
    row.serialize_row(destination);
}

/// The bytes of a row are 291, begin with the id, and hold the user name
/// and the e-mail address behind it.
pub proof fn lemma_row_bytes(row: Row)
    ensures
        row.bytes().len() == ROW_SIZE,
        row.stored_in(row.bytes()),
{
    lemma_constants();
    let blank = Seq::new(
        ROW_SIZE as nat,
        |k: int|
            if k < USERNAME_OFFSET {
                0u8
            } else if k < EMAIL_OFFSET {
                row.username@[k - USERNAME_OFFSET]
            } else {
                row.email@[k - EMAIL_OFFSET]
            },
    );
    lemma_put_u32(blank, 0, row.id);
    assert(row.username@ =~= row.bytes().subrange(USERNAME_OFFSET as int, EMAIL_OFFSET as int));
    assert(row.email@ =~= row.bytes().subrange(EMAIL_OFFSET as int, ROW_SIZE as int));
}

/// A row that is written and read again is the same row.
pub proof fn law_row_round_trip(row: Row, back: Row, buffer: Seq<u8>)
    requires
        buffer.len() >= ROW_SIZE,
        back.stored_in(put_bytes(buffer, 0, row.bytes())),
    ensures
        back.id == row.id,
        back.username@ == row.username@,
        back.email@ == row.email@,
{
    lemma_constants();
    let blank = Seq::new(
        ROW_SIZE as nat,
        |k: int|
            if k < USERNAME_OFFSET {
                0u8
            } else if k < EMAIL_OFFSET {
                row.username@[k - USERNAME_OFFSET]
            } else {
                row.email@[k - EMAIL_OFFSET]
            },
    );
    lemma_put_u32(blank, 0, row.id);
    let t = put_bytes(buffer, 0, row.bytes());
    lemma_le_u32_depends(t, row.bytes(), 0, 0);
    assert(back.username@ =~= row.username@);
    assert(back.email@ =~= row.email@);
}

} // verus!
