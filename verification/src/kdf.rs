//! Domain-separated key derivation (HKDF-SHA256).
//!
//! Every key purpose has its own `info` string.
use vstd::prelude::*;
use vstd::string::*;
use crate::bytes::{push_all, push_u32_be, be_u32};
use crate::error::CryptoError;

verus! {

/// Default HKDF salt for Keepstone derivations.
pub const DEFAULT_SALT: &'static str = "keepstone/v1";
/// `info` label for deriving the per-drop content key.
pub const INFO_DROP_KEY: &'static str = "keepstone/v1/drop-key";
/// `info` label for deriving per-chunk keys.
pub const INFO_CHUNK_KEY: &'static str = "keepstone/v1/chunk-key";
/// `info` label for deriving sealed-box keys.
pub const INFO_SEAL_KEY: &'static str = "keepstone/v1/seal-key";
/// `info` label for deriving recipient tags.
pub const INFO_TAG: &'static str = "keepstone/v1/tag";
/// Length of all symmetric keys used by the classical suite.
pub const KEY_LEN: usize = 32;

/// The first `len` bytes of HKDF-SHA256 output keying material
/// (`hkdf` crate).
pub uninterp spec fn hkdf_spec(ikm: Seq<u8>, salt: Seq<u8>, info: Seq<u8>, len: nat) -> Seq<u8>;

/// The most output HKDF-SHA256 can expand to: 255 blocks of 32 bytes.
pub open spec fn hkdf_max_len() -> nat {
    255 * 32
}

/// Expand key material into `out` using HKDF-SHA256.
///
/// Calls `hkdf::Hkdf::<Sha256>::new(Some(salt), ikm).expand(info, out)`,
/// which (per RFC 5869 and the crate's source) refuses outputs longer than
/// 255 hash blocks and otherwise fills `out`; the output is named.
#[verifier::external_body]
pub fn expand(ikm: &[u8], salt: &[u8], info: &[u8], out: &mut [u8]) -> (r: Result<(), CryptoError>)
    ensures
        final(out)@.len() == old(out)@.len(),
        r is Ok <==> old(out)@.len() <= hkdf_max_len(),
        r is Ok ==> final(out)@ == hkdf_spec(ikm@, salt@, info@, old(out)@.len()),
        r matches Err(e) ==> e == CryptoError::InvalidKeyLength,
{
    let hkdf = hkdf::Hkdf::<sha2::Sha256>::new(Some(salt), ikm);
    hkdf.expand(info, out).map_err(|_| CryptoError::InvalidKeyLength)
}

/// Derive a 32-byte key.
pub fn derive_key32(ikm: &[u8], salt: &[u8], info: &[u8]) -> (r: Result<[u8; 32], CryptoError>)
    ensures
        r matches Ok(k) && k@ == hkdf_spec(ikm@, salt@, info@, 32),
{
    let mut out = [0u8; 32];
    let res = expand(ikm, salt, info, &mut out);
    match res {
        Ok(()) => Ok(out),
        Err(e) => Err(e),
    }
}

/// The `info` string binding a chunk index: the chunk label followed by the
/// big-endian index.
pub open spec fn chunk_info(index: u32) -> Seq<u8> {
    INFO_CHUNK_KEY.spec_bytes() + be_u32(index)
}

/// Derive the symmetric key for a specific chunk of a drop.
pub fn derive_chunk_key(content_key: &[u8; 32], index: u32) -> (r: Result<[u8; 32], CryptoError>)
    ensures
        r matches Ok(k) && k@ == hkdf_spec(content_key@, DEFAULT_SALT.spec_bytes(), chunk_info(index), 32),
{
    let mut info: Vec<u8> = Vec::new();
    push_all(&mut info, INFO_CHUNK_KEY.as_bytes());
    push_u32_be(&mut info, index);
    derive_key32(content_key.as_slice(), DEFAULT_SALT.as_bytes(), info.as_slice())
}


/// The 8-byte recipient tag of a drop: HKDF-SHA256 of the recipient's X25519
/// public key, salted with the drop nonce, under the tag label.
pub open spec fn tag_spec(recipient: Seq<u8>, drop_nonce: Seq<u8>) -> Seq<u8> {
    hkdf_spec(recipient, drop_nonce, INFO_TAG.spec_bytes(), 8)
}

/// Derive the recipient tag that locates a wrapped key in a drop.
pub fn derive_tag(recipient: &[u8; 32], drop_nonce: &[u8; 16]) -> (r: Result<[u8; 8], CryptoError>)
    ensures
        r matches Ok(t) && t@ == tag_spec(recipient@, drop_nonce@),
{
    let mut out = [0u8; 8];
    match expand(recipient.as_slice(), drop_nonce.as_slice(), INFO_TAG.as_bytes(), &mut out) {
        Ok(()) => Ok(out),
        Err(e) => Err(e),
    }
}

} // verus!
