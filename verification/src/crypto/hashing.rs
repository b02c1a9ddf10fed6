//! The hash functions that the protocol is built on.

use sha2::Digest;
use vstd::prelude::*;

verus! {

/// The SHA-256 digest of `data`.
pub uninterp spec fn sha256(data: Seq<u8>) -> Seq<u8>;

/// Wraps `sha2::Sha256::digest`. Claims that the 32 bytes it returns depend on
/// the hashed bytes alone.
#[verifier::external_body]
pub(crate) fn sha256_digest(data: &[u8]) -> (out: [u8; 32])
    ensures
        out@ == sha256(data@),
{
    sha2::Sha256::digest(data).into()
}

/// The SHA3-256 digest of `data`.
pub uninterp spec fn sha3_256(data: Seq<u8>) -> Seq<u8>;

/// Wraps `sha3::Sha3_256::digest`. Claims that the 32 bytes it returns depend
/// on the hashed bytes alone.
#[verifier::external_body]
pub(crate) fn sha3_256_digest(data: &[u8]) -> (out: [u8; 32])
    ensures
        out@ == sha3_256(data@),
{
    sha3::Sha3_256::digest(data).into()
}

/// The BLAKE3 digest of `data`.
pub uninterp spec fn blake3_256(data: Seq<u8>) -> Seq<u8>;

/// Wraps `blake3::hash`. Claims that the 32 bytes it returns depend on the
/// hashed bytes alone.
#[verifier::external_body]
pub(crate) fn blake3_digest(data: &[u8]) -> (out: [u8; 32])
    ensures
        out@ == blake3_256(data@),
{
    *blake3::hash(data).as_bytes()
}

} // verus!
