//! Operating-system randomness.
use vstd::prelude::*;
use rand::RngCore;

verus! {

/// `len` bytes from the operating system CSPRNG.
///
/// Calls `rand::rngs::OsRng::fill_bytes` on a zeroed buffer of `len` bytes.
/// Only the length is stated: the content is random.
#[verifier::external_body]
pub(crate) fn random_bytes(len: usize) -> (r: Vec<u8>)
    ensures
        r@.len() == len,
{
    let mut out = vec![0u8; len];
    rand::rngs::OsRng.fill_bytes(&mut out);
    out
}

/// 32 random bytes.
pub(crate) fn random_32() -> (r: [u8; 32]) {
    let v = random_bytes(32);
    let mut out = [0u8; 32];
    let mut i: usize = 0;
    while i < 32
        invariant
            i <= 32,
            v@.len() == 32,
        decreases 32 - i,
    {
        out[i] = v[i];
        i = i + 1;
    }
    out
}

} // verus!
