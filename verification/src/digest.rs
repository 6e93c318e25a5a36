//! SHA-256.

use sha2::Digest;
use vstd::prelude::*;

verus! {

/// The SHA-256 digest of `data`, as `sha2::Sha256::digest` computes it.
pub uninterp spec fn sha256_digest(data: Seq<u8>) -> [u8; 32];

/// Calls `sha2::Sha256::digest` (the `Digest::digest` of `sha2::Sha256`) and hands
/// its thirty-two bytes back as an array.
///
/// Claimed and not proved: the digest is a function of the bytes of `data` alone.
#[verifier::external_body]
pub(crate) fn sha256(data: &[u8]) -> (digest: [u8; 32])
    ensures
        digest == sha256_digest(data@),
{
    sha2::Sha256::digest(data).into()
}

} // verus!
