//! SHA-256 digests, computed by the `sha2` crate.

use sha2::Digest;
use vstd::prelude::*;

verus! {

/// The SHA-256 digest of a byte string (FIPS 180-4), as the `sha2` crate
/// computes it.
pub uninterp spec fn sha256_of(data: Seq<u8>) -> Seq<u8>;

/// SHA-256 of `data`, by `sha2::Sha256::digest`.
///
/// Trusted: the digest is the one `sha2` computes for exactly these bytes and
/// depends on nothing else; its 32 bytes are not described further here.
#[verifier::external_body]
pub(crate) fn sha256(data: &[u8]) -> (r: [u8; 32])
    ensures
        r@ == sha256_of(data@),
{
    sha2::Sha256::digest(data).into()
}

} // verus!
