//! Byte-level reading and writing of page regions.
use vstd::prelude::*;
use vstd::bytes::{spec_u32_from_le_bytes, spec_u32_to_le_bytes, u32_from_le_bytes, u32_to_le_bytes};
use vstd::slice::slice_subrange;

verus! {

/// `s` with the bytes starting at `off` replaced by `b`.
pub open spec fn splice(s: Seq<u8>, off: int, b: Seq<u8>) -> Seq<u8> {
    s.subrange(0, off) + b + s.subrange(off + b.len(), s.len() as int)
}

/// The little-endian `u32` stored at `off`.
pub open spec fn u32_at(s: Seq<u8>, off: int) -> u32 {
    spec_u32_from_le_bytes(s.subrange(off, off + 4))
}

/// `s` with the little-endian encoding of `v` stored at `off`.
pub open spec fn with_u32(s: Seq<u8>, off: int, v: u32) -> Seq<u8> {
    splice(s, off, spec_u32_to_le_bytes(v))
}

/// Splicing inside a sequence keeps its length.
pub broadcast proof fn lemma_splice_len(s: Seq<u8>, off: int, b: Seq<u8>)
    requires
        0 <= off,
        off + b.len() <= s.len(),
    ensures
        #[trigger] splice(s, off, b).len() == s.len(),
{
}

/// The bytes of a splice: the new ones inside the spliced region, the old ones outside.
pub broadcast proof fn lemma_splice_index(s: Seq<u8>, off: int, b: Seq<u8>, i: int)
    requires
        0 <= off,
        off + b.len() <= s.len(),
        0 <= i < s.len(),
    ensures
        #[trigger] splice(s, off, b)[i] == if off <= i < off + b.len() {
            b[i - off]
        } else {
            s[i]
        },
{
}

/// A region that lies wholly inside or wholly outside the spliced one.
pub broadcast proof fn lemma_splice_subrange(s: Seq<u8>, off: int, b: Seq<u8>, a: int, c: int)
    requires
        0 <= off,
        off + b.len() <= s.len(),
        0 <= a <= c <= s.len(),
        c <= off || off + b.len() <= a || (off <= a && c <= off + b.len()),
    ensures
        #[trigger] splice(s, off, b).subrange(a, c) == if c <= off || off + b.len() <= a {
            s.subrange(a, c)
        } else {
            b.subrange(a - off, c - off)
        },
{
    let t = splice(s, off, b);
    if c <= off || off + b.len() <= a {
        assert(t.subrange(a, c) =~= s.subrange(a, c));
    } else {
        assert(t.subrange(a, c) =~= b.subrange(a - off, c - off));
    }
}

/// Storing a `u32` keeps the length.
pub broadcast proof fn lemma_with_u32_len(s: Seq<u8>, off: int, v: u32)
    requires
        0 <= off,
        off + 4 <= s.len(),
    ensures
        #[trigger] with_u32(s, off, v).len() == s.len(),
{
    vstd::bytes::lemma_auto_spec_u32_to_from_le_bytes();
}

/// A `u32` takes four bytes.
pub broadcast proof fn lemma_u32_bytes_len(x: u32)
    ensures
        #[trigger] spec_u32_to_le_bytes(x).len() == 4,
{
    vstd::bytes::lemma_auto_spec_u32_to_from_le_bytes();
}

pub broadcast group group_splice {
    lemma_u32_bytes_len,
    lemma_with_u32_len,
    lemma_splice_len,
    lemma_splice_index,
    lemma_splice_subrange,
}

/// Storing a value and reading it back gives the value; other fields keep theirs.
pub broadcast proof fn lemma_with_u32_read(s: Seq<u8>, off: int, v: u32, o: int)
    requires
        0 <= off,
        off + 4 <= s.len(),
        0 <= o,
        o + 4 <= s.len(),
        o == off || o + 4 <= off || off + 4 <= o,
    ensures
        #[trigger] u32_at(with_u32(s, off, v), o) == if o == off {
            v
        } else {
            u32_at(s, o)
        },
{
    vstd::bytes::lemma_auto_spec_u32_to_from_le_bytes();
    broadcast use group_splice;

    let b = spec_u32_to_le_bytes(v);
    if o == off {
        assert(b.subrange(0, 4) =~= b);
    }
}

/// Copy the bytes of `src` into `dst`.
pub fn copy_bytes(dst: &mut [u8], src: &[u8])
    requires
        old(dst)@.len() == src@.len(),
    ensures
        final(dst)@ == src@,
{
    let n = src.len();
    let mut i: usize = 0;
    while i < n
        invariant
            n == src@.len(),
            dst@.len() == n,
            0 <= i <= n,
            forall|j: int| 0 <= j < i ==> dst@[j] == src@[j],
        decreases n - i,
    {
        dst[i] = src[i];
        i += 1;
    }
    assert(dst@ =~= src@);
}

/// The mutable view of `s[a..b]`: what is written through it lands in `s`.
#[verifier::external_body]
pub(crate) fn subslice_mut(s: &mut [u8], a: usize, b: usize) -> (out: &mut [u8])
    requires
        a <= b <= old(s)@.len(),
    ensures
        out@ == old(s)@.subrange(a as int, b as int),
        final(out)@.len() == b - a,
        final(s)@ == old(s)@.subrange(0, a as int) + final(out)@ + old(s)@.subrange(
            b as int,
            old(s)@.len() as int,
        ),
{
    &mut s[a..b]
}

/// Copy `src` into `dst` starting at `off`.
pub fn write_bytes(dst: &mut [u8], off: usize, src: &[u8])
    requires
        off + src@.len() <= old(dst)@.len(),
    ensures
        final(dst)@ == splice(old(dst)@, off as int, src@),
{
    let n = src.len();
    let dlen = dst.len();
    let mut i: usize = 0;
    while i < n
        invariant
            n == src@.len(),
            dlen == dst@.len(),
            off + n <= dst@.len(),
            dst@.len() == old(dst)@.len(),
            0 <= i <= n,
            forall|j: int| 0 <= j < off ==> #[trigger] dst@[j] == old(dst)@[j],
            forall|j: int| off + n <= j < dst@.len() ==> #[trigger] dst@[j] == old(dst)@[j],
            forall|j: int| 0 <= j < i ==> #[trigger] dst@[off + j] == src@[j],
            forall|j: int| off + i <= j < off + n ==> #[trigger] dst@[j] == old(dst)@[j],
        decreases n - i,
    {
        dst[off + i] = src[i];
        i += 1;
    }
    proof {
        broadcast use group_splice;

        assert forall|j: int| 0 <= j < dst@.len() implies dst@[j] == splice(
            old(dst)@,
            off as int,
            src@,
        )[j] by {
            if off <= j < off + n {
                assert(dst@[off + (j - off)] == src@[j - off]);
            }
        }
    }
    assert(dst@ =~= splice(old(dst)@, off as int, src@));
}

/// Read the little-endian `u32` stored at `off`.
pub fn read_u32(s: &[u8], off: usize) -> (v: u32)
    requires
        off + 4 <= s@.len(),
    ensures
        v == u32_at(s@, off as int),
{
    let _n = s.len();
    let sub = slice_subrange(s, off, off + 4);
    u32_from_le_bytes(sub)
}

/// Store `v` little-endian at `off`.
pub fn write_u32(s: &mut [u8], off: usize, v: u32)
    requires
        off + 4 <= old(s)@.len(),
    ensures
        final(s)@ == with_u32(old(s)@, off as int, v),
{
    let b = u32_to_le_bytes(v);
    write_bytes(s, off, b.as_slice());
}

} // verus!
