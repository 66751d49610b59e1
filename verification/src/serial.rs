//! The `bincode` encoding of `u64` values used by the metadata files.
use vstd::prelude::*;
use crate::le::{get64, le64};

verus! {

/// Deserializes a `u64` with `bincode::deserialize` (bincode 1.x default
/// options: fixed-width little-endian integers, trailing bytes allowed).
/// Trusted: the first eight bytes are read as a little-endian integer; fewer
/// than eight bytes give an error.
#[verifier::external_body]
pub(crate) fn bincode_decode_u64(bytes: &[u8]) -> (r: Result<u64, Box<bincode::ErrorKind>>)
    ensures
        match r {
            Ok(v) => bytes@.len() >= 8 && v == get64(bytes@, 0),
            Err(_) => bytes@.len() < 8,
        },
{
    bincode::deserialize::<u64>(bytes)
}

/// Serializes a `u64` with `bincode::serialize` (fixed-width little endian,
/// no size limit).
/// Trusted: it succeeds, and the bytes are the eight little-endian bytes of `v`.
#[verifier::external_body]
pub(crate) fn bincode_encode_u64(v: u64) -> (r: Result<Vec<u8>, Box<bincode::ErrorKind>>)
    ensures
        r is Ok,
        r matches Ok(b) ==> b@ == le64(v),
{
    bincode::serialize(&v)
}

} // verus!
