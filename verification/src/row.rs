//! Rows and their fixed-size serialized form.
use vstd::prelude::*;
use vstd::bytes::{spec_u32_from_le_bytes, spec_u32_to_le_bytes, u32_from_le_bytes, u32_to_le_bytes};
use vstd::slice::slice_subrange;
use crate::bytes::{splice, write_bytes};
use crate::constants::{
    EMAIL_OFFSET, EMAIL_SIZE, ID_OFFSET, ROW_SIZE, USERNAME_OFFSET, USERNAME_SIZE,
};

verus! {

/// One row of the table: an id, a username and an email, the two strings
/// stored as zero-padded bytes.
pub struct Row {
    pub id: u32,
    pub username: [u8; USERNAME_SIZE],
    pub email: [u8; EMAIL_SIZE],
}

/// The bytes a row is stored as: the id little-endian, then the username,
/// then the email.
pub open spec fn row_bytes(row: Row) -> Seq<u8> {
    spec_u32_to_le_bytes(row.id) + row.username@ + row.email@
}

/// The id stored in a serialized row.
pub open spec fn row_id_of(bytes: Seq<u8>) -> u32 {
    spec_u32_from_le_bytes(bytes.subrange(ID_OFFSET as int, USERNAME_OFFSET as int))
}

/// The username bytes stored in a serialized row.
pub open spec fn row_username_of(bytes: Seq<u8>) -> Seq<u8> {
    bytes.subrange(USERNAME_OFFSET as int, EMAIL_OFFSET as int)
}

/// The email bytes stored in a serialized row.
pub open spec fn row_email_of(bytes: Seq<u8>) -> Seq<u8> {
    bytes.subrange(EMAIL_OFFSET as int, ROW_SIZE as int)
}

/// `row` is what the serialized bytes `bytes` hold.
pub open spec fn row_matches(row: Row, bytes: Seq<u8>) -> bool {
    &&& row.id == row_id_of(bytes)
    &&& row.username@ == row_username_of(bytes)
    &&& row.email@ == row_email_of(bytes)
}

/// A serialized row takes `ROW_SIZE` bytes.
pub proof fn lemma_row_bytes_len(row: Row)
    ensures
        row_bytes(row).len() == ROW_SIZE,
{
    vstd::bytes::lemma_auto_spec_u32_to_from_le_bytes();
}

/// Reading a row back from its serialized form gives the row.
pub proof fn lemma_row_roundtrip(row: Row)
    ensures
        row_matches(row, row_bytes(row)),
{
    vstd::bytes::lemma_auto_spec_u32_to_from_le_bytes();
    let b = row_bytes(row);
    assert(b.subrange(0, 4) =~= spec_u32_to_le_bytes(row.id));
    assert(b.subrange(4, 36) =~= row.username@);
    assert(b.subrange(36, 291) =~= row.email@);
}

/// Two rows that match the same bytes are the same row.
pub proof fn lemma_row_matches_unique(a: Row, b: Row, bytes: Seq<u8>)
    requires
        row_matches(a, bytes),
        row_matches(b, bytes),
    ensures
        a == b,
{
    broadcast use vstd::array::axiom_array_ext_equal;

    assert(a.username =~= b.username);
    assert(a.email =~= b.email);
}

/// Reading back what `serialize_row` wrote into a buffer gives the row
/// that was written.
pub proof fn lemma_serialize_then_deserialize(row: Row, dest: Seq<u8>, read: Row)
    requires
        dest.len() >= ROW_SIZE,
        row_matches(read, splice(dest, 0, row_bytes(row))),
    ensures
        read == row,
{
    lemma_row_bytes_len(row);
    lemma_row_roundtrip(row);
    let b = row_bytes(row);
    let w = splice(dest, 0, b);
    assert(w.subrange(0, 4) =~= b.subrange(0, 4));
    assert(w.subrange(4, 36) =~= b.subrange(4, 36));
    assert(w.subrange(36, 291) =~= b.subrange(36, 291));
    assert(row_matches(row, w));
    lemma_row_matches_unique(read, row, w);
}

/// Write the serialized form of `source` into the front of `destination`.
pub fn serialize_row(source: &Row, destination: &mut [u8])
    requires
        old(destination)@.len() >= ROW_SIZE,
    ensures
        final(destination)@ == splice(old(destination)@, 0, row_bytes(*source)),
{
    proof {
        vstd::bytes::lemma_auto_spec_u32_to_from_le_bytes();
    }
    let ghost d0 = destination@;
    let id_bytes = u32_to_le_bytes(source.id);
    write_bytes(destination, ID_OFFSET, id_bytes.as_slice());
    let ghost d1 = destination@;
    write_bytes(destination, USERNAME_OFFSET, source.username.as_slice());
    let ghost d2 = destination@;
    write_bytes(destination, EMAIL_OFFSET, source.email.as_slice());
    proof {
        broadcast use crate::bytes::group_splice;
        assert(destination@ =~= splice(d0, 0, row_bytes(*source)));
    }
}

/// Copy `len` bytes of `source` starting at `start` into an array.
fn bytes_to_array<const N: usize>(source: &[u8], start: usize) -> (out: [u8; N])
    requires
        start + N <= source@.len(),
    ensures
        out@ == source@.subrange(start as int, start + N),
{
    let n = source.len();
    let mut out = [0u8; N];
    let mut i: usize = 0;
    while i < N
        invariant
            n == source@.len(),
            start + N <= source@.len(),
            0 <= i <= N,
            out@.len() == N,
            forall|j: int| 0 <= j < i ==> out@[j] == source@[start + j],
        decreases N - i,
    {
        out[i] = source[start + i];
        i += 1;
    }
    assert(out@ =~= source@.subrange(start as int, start + N));
    out
}

/// Read a row back from the front of `source`.
pub fn deserialize_row(source: &[u8], destination: &mut Row)
    requires
        source@.len() >= ROW_SIZE,
    ensures
        row_matches(*final(destination), source@),
{
    let id_slice = slice_subrange(source, ID_OFFSET, USERNAME_OFFSET);
    destination.id = u32_from_le_bytes(id_slice);
    destination.username = bytes_to_array(source, USERNAME_OFFSET);
    destination.email = bytes_to_array(source, EMAIL_OFFSET);
}

/// An empty row: id 0 and all-zero strings.
pub fn empty_row() -> (row: Row)
    ensures
        row.id == 0,
        forall|i: int| 0 <= i < USERNAME_SIZE ==> row.username@[i] == 0,
        forall|i: int| 0 <= i < EMAIL_SIZE ==> row.email@[i] == 0,
{
    Row { id: 0, username: [0u8; USERNAME_SIZE], email: [0u8; EMAIL_SIZE] }
}

} // verus!
