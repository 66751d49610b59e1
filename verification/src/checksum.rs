//! CRC-32 checksums computed by the `crc32fast` crate.
use vstd::prelude::*;

verus! {

/// The CRC-32 (IEEE) checksum of `data`, as `crc32fast` computes it.
pub uninterp spec fn crc32_of(data: Seq<u8>) -> u32;

/// Computes the CRC-32 of `data` by calling `crc32fast::hash`.
/// Trusted: the result is the checksum named `crc32_of` of exactly the bytes
/// passed in; nothing is stated about which value that is.
#[verifier::external_body]
pub fn crc32(data: &[u8]) -> (r: u32)
    ensures
        r == crc32_of(data@),
{
    crc32fast::hash(data)
}

} // verus!
