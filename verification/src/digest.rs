//! Checksums and digests computed by outside crates.
use vstd::prelude::*;

verus! {

/// The CRC-32C (Castagnoli) of `data`, continuing from the CRC `crc`.
pub uninterp spec fn crc32c_append_value(crc: u32, data: Seq<u8>) -> u32;

/// The 32-byte BLAKE3 digest of `data`.
pub uninterp spec fn blake3_hash(data: Seq<u8>) -> [u8; 32];

/// `crc32c::crc32c_append`: the CRC-32C of `data` continuing from `crc`. The
/// contract names the result and says nothing else of it.
/// (`crc32c::crc32c(data)` is defined in that crate as this call with `crc`
/// zero.)
#[verifier::external_body]
pub(crate) fn crc32c_append(crc: u32, data: &[u8]) -> (r: u32)
    ensures
        r == crc32c_append_value(crc, data@),
{
    crc32c::crc32c_append(crc, data)
}

/// `blake3::hash`: the BLAKE3 digest of `data`, 32 bytes. The contract names
/// the result and says nothing else of it. (A `blake3::Hasher` fed the same
/// bytes across several `update` calls finalizes to the same digest.)
#[verifier::external_body]
pub(crate) fn blake3_digest(data: &[u8]) -> (r: [u8; 32])
    ensures
        r == blake3_hash(data@),
{
    *blake3::hash(data).as_bytes()
}

} // verus!
