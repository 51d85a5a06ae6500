//! SHA-256, through the `sha2` crate.
use vstd::prelude::*;
use sha2::Digest;

verus! {

/// The SHA-256 digest of a byte string (as computed by the `sha2` crate).
pub uninterp spec fn sha256_spec(data: Seq<u8>) -> Seq<u8>;

/// Compute SHA-256 over `data`.
///
/// Calls `sha2::Sha256::digest`; the contract only names the result: the
/// digest is a function of the input bytes alone.
#[verifier::external_body]
pub fn sha256(data: &[u8]) -> (r: [u8; 32])
    ensures
        r@ == sha256_spec(data@),
{
    sha2::Sha256::digest(data).into()
}

} // verus!
