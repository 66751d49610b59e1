//! Little-endian field access over byte sequences, with the splice model
//! that every in-place write of the engine is specified by.
use vstd::prelude::*;
use vstd::bytes::{
    spec_u16_from_le_bytes, spec_u16_to_le_bytes, spec_u32_from_le_bytes, spec_u32_to_le_bytes,
    spec_u64_from_le_bytes, spec_u64_to_le_bytes, spec_u128_from_le_bytes, spec_u128_to_le_bytes,
    u16_from_le_bytes, u32_from_le_bytes, u64_from_le_bytes, u128_from_le_bytes,
    u16_to_le_bytes, u32_to_le_bytes, u64_to_le_bytes, u128_to_le_bytes,
};
use vstd::slice::slice_subrange;

verus! {

/// `s` with the bytes `b` written at offset `off`; length is unchanged.
pub open spec fn splice(s: Seq<u8>, off: int, b: Seq<u8>) -> Seq<u8> {
    Seq::new(s.len(), |i: int| if off <= i < off + b.len() { b[i - off] } else { s[i] })
}

/// The little-endian `u16` stored at `off`.
pub open spec fn get16(s: Seq<u8>, off: int) -> u16 {
    spec_u16_from_le_bytes(s.subrange(off, off + 2))
}

/// The little-endian `u32` stored at `off`.
pub open spec fn get32(s: Seq<u8>, off: int) -> u32 {
    spec_u32_from_le_bytes(s.subrange(off, off + 4))
}

/// The little-endian `u64` stored at `off`.
pub open spec fn get64(s: Seq<u8>, off: int) -> u64 {
    spec_u64_from_le_bytes(s.subrange(off, off + 8))
}

/// The little-endian `u128` stored at `off`.
pub open spec fn get128(s: Seq<u8>, off: int) -> u128 {
    spec_u128_from_le_bytes(s.subrange(off, off + 16))
}

pub open spec fn le16(v: u16) -> Seq<u8> {
    spec_u16_to_le_bytes(v)
}

pub open spec fn le32(v: u32) -> Seq<u8> {
    spec_u32_to_le_bytes(v)
}

pub open spec fn le64(v: u64) -> Seq<u8> {
    spec_u64_to_le_bytes(v)
}

pub open spec fn le128(v: u128) -> Seq<u8> {
    spec_u128_to_le_bytes(v)
}

/// Encoding and decoding of little-endian integers are inverse to each other.
pub proof fn lemma_le_roundtrip()
    ensures
        forall|x: u16| le16(x).len() == 2 && spec_u16_from_le_bytes(#[trigger] le16(x)) == x,
        forall|x: u32| le32(x).len() == 4 && spec_u32_from_le_bytes(#[trigger] le32(x)) == x,
        forall|x: u64| le64(x).len() == 8 && spec_u64_from_le_bytes(#[trigger] le64(x)) == x,
        forall|x: u128| le128(x).len() == 16 && spec_u128_from_le_bytes(#[trigger] le128(x)) == x,
{
    vstd::bytes::lemma_auto_spec_u16_to_from_le_bytes();
    vstd::bytes::lemma_auto_spec_u32_to_from_le_bytes();
    vstd::bytes::lemma_auto_spec_u64_to_from_le_bytes();
    vstd::bytes::lemma_auto_spec_u128_to_from_le_bytes();
}

/// Reading back a spliced field gives the written bytes; fields that do not
/// overlap the written range are unchanged.
pub proof fn lemma_splice_subrange(s: Seq<u8>, off: int, b: Seq<u8>, lo: int, hi: int)
    requires
        0 <= off,
        off + b.len() <= s.len(),
        0 <= lo <= hi <= s.len(),
    ensures
        lo == off && hi == off + b.len() ==> splice(s, off, b).subrange(lo, hi) == b,
        hi <= off || off + b.len() <= lo ==> splice(s, off, b).subrange(lo, hi) == s.subrange(lo, hi),
        splice(s, off, b).len() == s.len(),
{
    if lo == off && hi == off + b.len() {
        assert(splice(s, off, b).subrange(lo, hi) =~= b);
    }
    if hi <= off || off + b.len() <= lo {
        assert(splice(s, off, b).subrange(lo, hi) =~= s.subrange(lo, hi));
    }
}

/// Writing bytes that are already there changes nothing.
pub proof fn lemma_splice_same(s: Seq<u8>, off: int, b: Seq<u8>)
    requires
        0 <= off,
        off + b.len() <= s.len(),
        s.subrange(off, off + b.len()) == b,
    ensures
        splice(s, off, b) == s,
{
    assert forall|i: int| 0 <= i < s.len() implies #[trigger] splice(s, off, b)[i] == s[i] by {
        if off <= i < off + b.len() {
            assert(s.subrange(off, off + b.len())[i - off] == s[i]);
        }
    }
    assert(splice(s, off, b) =~= s);
}

/// Writes `b` into `v` at offset `off`.
pub fn write_bytes(v: &mut [u8], off: usize, b: &[u8])
    requires
        off + b@.len() <= old(v)@.len(),
    ensures
        final(v)@ == splice(old(v)@, off as int, b@),
{
    let ghost start = v@;
    let _n = v.len();
    let mut i: usize = 0;
    while i < b.len()
        invariant
            i <= b@.len(),
            off + b@.len() <= start.len(),
            start.len() <= usize::MAX,
            v@ == splice(start, off as int, b@.take(i as int)),
        decreases b@.len() - i,
    {
        v[off + i] = b[i];
        i = i + 1;
        assert(v@ =~= splice(start, off as int, b@.take(i as int)));
    }
    assert(b@.take(i as int) =~= b@);
}

pub fn read16(s: &[u8], off: usize) -> (r: u16)
    requires
        off + 2 <= s@.len(),
    ensures
        r == get16(s@, off as int),
{
    let _n = s.len();
    u16_from_le_bytes(slice_subrange(s, off, off + 2))
}

pub fn read32(s: &[u8], off: usize) -> (r: u32)
    requires
        off + 4 <= s@.len(),
    ensures
        r == get32(s@, off as int),
{
    let _n = s.len();
    u32_from_le_bytes(slice_subrange(s, off, off + 4))
}

pub fn read64(s: &[u8], off: usize) -> (r: u64)
    requires
        off + 8 <= s@.len(),
    ensures
        r == get64(s@, off as int),
{
    let _n = s.len();
    u64_from_le_bytes(slice_subrange(s, off, off + 8))
}

pub fn read128(s: &[u8], off: usize) -> (r: u128)
    requires
        off + 16 <= s@.len(),
    ensures
        r == get128(s@, off as int),
{
    let _n = s.len();
    u128_from_le_bytes(slice_subrange(s, off, off + 16))
}

pub fn put16(v: &mut [u8], off: usize, x: u16)
    requires
        off + 2 <= old(v)@.len(),
    ensures
        final(v)@ == splice(old(v)@, off as int, le16(x)),
{
    let b = u16_to_le_bytes(x);
    write_bytes(v, off, b.as_slice());
}

pub fn put32(v: &mut [u8], off: usize, x: u32)
    requires
        off + 4 <= old(v)@.len(),
    ensures
        final(v)@ == splice(old(v)@, off as int, le32(x)),
{
    let b = u32_to_le_bytes(x);
    write_bytes(v, off, b.as_slice());
}

pub fn put64(v: &mut [u8], off: usize, x: u64)
    requires
        off + 8 <= old(v)@.len(),
    ensures
        final(v)@ == splice(old(v)@, off as int, le64(x)),
{
    let b = u64_to_le_bytes(x);
    write_bytes(v, off, b.as_slice());
}

pub fn put128(v: &mut [u8], off: usize, x: u128)
    requires
        off + 16 <= old(v)@.len(),
    ensures
        final(v)@ == splice(old(v)@, off as int, le128(x)),
{
    let b = u128_to_le_bytes(x);
    write_bytes(v, off, b.as_slice());
}

} // verus!
