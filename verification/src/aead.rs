//! Authenticated encryption (XChaCha20-Poly1305).
//!
//! The 192-bit nonce variant makes *random* nonces safe for long-lived keys.
use vstd::prelude::*;
use chacha20poly1305::aead::{Aead, KeyInit, Payload};
use crate::error::CryptoError;

verus! {

/// Length of an XChaCha20-Poly1305 nonce.
pub const NONCE_LEN: usize = 24;
/// Length of an XChaCha20-Poly1305 key.
pub const KEY_LEN: usize = 32;
/// Length of the authentication tag appended to every ciphertext.
pub const TAG_LEN: usize = 16;

/// The XChaCha20-Poly1305 ciphertext (with tag) of `plaintext`
/// (`chacha20poly1305`).
pub uninterp spec fn aead_seal_spec(key: Seq<u8>, nonce: Seq<u8>, aad: Seq<u8>, plaintext: Seq<u8>) -> Seq<u8>;

/// The XChaCha20-Poly1305 decryption of `ciphertext`, `None` when the tag
/// does not authenticate (`chacha20poly1305`).
pub uninterp spec fn aead_open_spec(key: Seq<u8>, nonce: Seq<u8>, aad: Seq<u8>, ciphertext: Seq<u8>) -> Option<Seq<u8>>;

/// Largest plaintext the cipher accepts: fewer than `u32::MAX` 64-byte
/// blocks.
pub open spec fn aead_max_len() -> nat {
    64 * 0xffff_ffff
}

/// Encrypt `plaintext` with `key` and `nonce`, authenticating `aad`.
///
/// Calls `XChaCha20Poly1305::encrypt`. The crate refuses a buffer of
/// `u32::MAX` or more blocks and otherwise appends a 16-byte tag; the
/// contract also claims that decrypting the result with the same key, nonce
/// and associated data gives the plaintext back (AEAD correctness).
#[verifier::external_body]
pub fn seal(key: &[u8; 32], nonce: &[u8; 24], aad: &[u8], plaintext: &[u8]) -> (r: Result<Vec<u8>, CryptoError>)
    ensures
        plaintext@.len() < aead_max_len() <==> r is Ok,
        r matches Ok(ct) ==> ct@ == aead_seal_spec(key@, nonce@, aad@, plaintext@)
            && ct@.len() == plaintext@.len() + TAG_LEN
            && aead_open_spec(key@, nonce@, aad@, ct@) == Some(plaintext@),
        r matches Err(e) ==> e == CryptoError::Encrypt,
{
    let cipher = chacha20poly1305::XChaCha20Poly1305::new(key.into());
    cipher.encrypt(chacha20poly1305::XNonce::from_slice(nonce), Payload { msg: plaintext, aad })
        .map_err(|_| CryptoError::Encrypt)
}

/// Decrypt `ciphertext`, verifying the tag and `aad`.
///
/// Calls `XChaCha20Poly1305::decrypt`; the outcome is named.
#[verifier::external_body]
pub fn open(key: &[u8; 32], nonce: &[u8; 24], aad: &[u8], ciphertext: &[u8]) -> (r: Result<Vec<u8>, CryptoError>)
    ensures
        match aead_open_spec(key@, nonce@, aad@, ciphertext@) {
            Some(p) => r matches Ok(pt) && pt@ == p,
            None => r == Err::<Vec<u8>, CryptoError>(CryptoError::Decrypt),
        },
{
    let cipher = chacha20poly1305::XChaCha20Poly1305::new(key.into());
    cipher.decrypt(chacha20poly1305::XNonce::from_slice(nonce), Payload { msg: ciphertext, aad })
        .map_err(|_| CryptoError::Decrypt)
}

} // verus!
