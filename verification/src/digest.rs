//! The two checksums of the format: CRC32 over the manifest (from
//! `crc32fast`) and SHA-256 over each entry's content (from `sha2`).
use sha2::Digest;
use vstd::prelude::*;

verus! {

/// The CRC32 (IEEE) checksum of `data`, as `crc32fast::hash` computes it.
pub uninterp spec fn crc32(data: Seq<u8>) -> u32;

/// The SHA-256 digest of `data`, as `sha2::Sha256::digest` computes it.
pub uninterp spec fn sha256(data: Seq<u8>) -> [u8; 32];

/// Calls `crc32fast::hash`. Trusted: the result is the CRC32 of exactly the
/// bytes handed in, a function of those bytes alone.
#[verifier::external_body]
pub(crate) fn crc32_hash(data: &[u8]) -> (r: u32)
    ensures
        r == crc32(data@),
{
    crc32fast::hash(data)
}

/// Calls `sha2::Sha256::digest`. Trusted: the result is the 32-byte SHA-256
/// digest of exactly the bytes handed in, a function of those bytes alone.
#[verifier::external_body]
pub(crate) fn sha256_digest(data: &[u8]) -> (r: [u8; 32])
    ensures
        r == sha256(data@),
{
    sha2::Sha256::digest(data).into()
}

} // verus!
