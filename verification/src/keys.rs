//! Identity keys: Ed25519 for signing, X25519 for key agreement.
use vstd::prelude::*;
use ed25519_dalek::{Signer, Verifier};
use crate::error::CryptoError;
use crate::rng::random_32;

verus! {

/// The Ed25519 public key of a 32-byte secret key (`ed25519_dalek`).
pub uninterp spec fn ed25519_public_spec(secret: Seq<u8>) -> Seq<u8>;

/// The Ed25519 signature of `message` by a 32-byte secret key
/// (`ed25519_dalek`; signing is deterministic, RFC 8032).
pub uninterp spec fn ed25519_sign_spec(secret: Seq<u8>, message: Seq<u8>) -> Seq<u8>;

/// Whether `signature` is a valid Ed25519 signature of `message` by the
/// public key `public` (`ed25519_dalek`).
pub uninterp spec fn ed25519_verify_spec(public: Seq<u8>, message: Seq<u8>, signature: Seq<u8>) -> bool;

/// The X25519 public key of a 32-byte secret (`x25519_dalek`).
pub uninterp spec fn x25519_public_spec(secret: Seq<u8>) -> Seq<u8>;

/// The X25519 shared secret of a secret and a peer's public key
/// (`x25519_dalek`).
pub uninterp spec fn x25519_shared_spec(secret: Seq<u8>, public: Seq<u8>) -> Seq<u8>;

/// The Ed25519 verifying key of `secret`.
///
/// Calls `ed25519_dalek::SigningKey::from_bytes(..).verifying_key().to_bytes()`;
/// the result is named, a function of the secret alone.
#[verifier::external_body]
pub(crate) fn ed25519_public(secret: &[u8; 32]) -> (r: [u8; 32])
    ensures
        r@ == ed25519_public_spec(secret@),
{
    ed25519_dalek::SigningKey::from_bytes(secret).verifying_key().to_bytes()
}

/// Sign `message` with `secret`.
///
/// Calls `ed25519_dalek::Signer::sign` on `SigningKey::from_bytes(secret)`.
/// The signature is named; the contract also claims that it verifies under
/// the key's own public key (correctness of Ed25519).
#[verifier::external_body]
pub(crate) fn ed25519_sign(secret: &[u8; 32], message: &[u8]) -> (r: [u8; 64])
    ensures
        r@ == ed25519_sign_spec(secret@, message@),
        ed25519_verify_spec(ed25519_public_spec(secret@), message@, r@),
{
    ed25519_dalek::SigningKey::from_bytes(secret).sign(message).to_bytes()
}

/// Whether `signature` verifies for `message` under `public`.
///
/// Calls `ed25519_dalek::VerifyingKey::from_bytes` and `verify`; a key that
/// does not decode counts as a failed verification. The answer is named.
#[verifier::external_body]
pub(crate) fn ed25519_verify(public: &[u8; 32], message: &[u8], signature: &[u8; 64]) -> (r: bool)
    ensures
        r == ed25519_verify_spec(public@, message@, signature@),
{
    match ed25519_dalek::VerifyingKey::from_bytes(public) {
        Ok(key) => key.verify(message, &ed25519_dalek::Signature::from_bytes(signature)).is_ok(),
        Err(_) => false,
    }
}

/// The X25519 public key of `secret`.
///
/// Calls `x25519_dalek::PublicKey::from(&StaticSecret::from(*secret))`.
#[verifier::external_body]
pub(crate) fn x25519_public(secret: &[u8; 32]) -> (r: [u8; 32])
    ensures
        r@ == x25519_public_spec(secret@),
{
    x25519_dalek::PublicKey::from(&x25519_dalek::StaticSecret::from(*secret)).to_bytes()
}

/// The X25519 shared secret of `secret` and `public`.
///
/// Calls `x25519_dalek::StaticSecret::diffie_hellman`. Besides naming the
/// result, the contract claims the Diffie-Hellman symmetry that the crate's
/// documentation demonstrates: when `public` is the public key of some
/// secret `other`, the result equals `other`'s shared secret with the
/// public key of `secret`.
#[verifier::external_body]
pub(crate) fn x25519_shared(secret: &[u8; 32], public: &[u8; 32]) -> (r: [u8; 32])
    ensures
        r@ == x25519_shared_spec(secret@, public@),
        forall|other: Seq<u8>|
            other.len() == 32 && public@ == #[trigger] x25519_public_spec(other) ==> r@
                == x25519_shared_spec(other, x25519_public_spec(secret@)),
{
    x25519_dalek::StaticSecret::from(*secret).diffie_hellman(&x25519_dalek::PublicKey::from(
        *public,
    )).to_bytes()
}

/// A device identity: a long-term signing key plus a key-agreement key.
pub struct Identity {
    signing: [u8; 32],
    ecdh: [u8; 32],
}

impl Identity {
    /// The Ed25519 secret key bytes.
    pub closed spec fn signing_secret(&self) -> Seq<u8> {
        self.signing@
    }

    /// The X25519 secret key bytes.
    pub closed spec fn ecdh_secret(&self) -> Seq<u8> {
        self.ecdh@
    }

    /// Generate a fresh identity from the operating system CSPRNG.
    pub fn generate() -> (id: Self)
        ensures
            id.signing_secret().len() == 32,
            id.ecdh_secret().len() == 32,
    {
        let signing = random_32();
        let ecdh = random_32();
        Identity { signing, ecdh }
    }

    /// Reconstruct an identity from raw secret bytes.
    pub fn from_secret_bytes(signing: &[u8; 32], ecdh: &[u8; 32]) -> (id: Self)
        ensures
            id.signing_secret() == signing@,
            id.ecdh_secret() == ecdh@,
    {
        Identity { signing: *signing, ecdh: *ecdh }
    }

    /// The Ed25519 public (verifying) key.
    pub fn signing_public(&self) -> (r: [u8; 32])
        ensures
            r@ == ed25519_public_spec(self.signing_secret()),
    {
        ed25519_public(&self.signing)
    }

    /// The X25519 public key.
    pub fn ecdh_public(&self) -> (r: [u8; 32])
        ensures
            r@ == x25519_public_spec(self.ecdh_secret()),
    {
        x25519_public(&self.ecdh)
    }

    /// Export the Ed25519 secret bytes (handle with care).
    pub fn signing_secret_bytes(&self) -> (r: [u8; 32])
        ensures
            r@ == self.signing_secret(),
    {
        self.signing
    }

    /// Export the X25519 secret bytes (handle with care).
    pub fn ecdh_secret_bytes(&self) -> (r: [u8; 32])
        ensures
            r@ == self.ecdh_secret(),
    {
        self.ecdh
    }

    /// Sign a message with the device signing key.
    pub fn sign(&self, message: &[u8]) -> (r: [u8; 64])
        ensures
            r@ == ed25519_sign_spec(self.signing_secret(), message@),
            ed25519_verify_spec(ed25519_public_spec(self.signing_secret()), message@, r@),
    {
        ed25519_sign(&self.signing, message)
    }

    /// A redacted rendering that never shows key material.
    pub fn redacted(&self) -> (r: String)
        ensures
            r@ == "Identity([REDACTED])"@,
    {
        String::from_str("Identity([REDACTED])")
    }
}

/// Verify an Ed25519 signature over `message` by `public`.
pub fn verify(public: &[u8; 32], message: &[u8], signature: &[u8; 64]) -> (r: Result<(), CryptoError>)
    ensures
        r is Ok <==> ed25519_verify_spec(public@, message@, signature@),
        r matches Err(e) ==> e == CryptoError::Verify,
{
    if ed25519_verify(public, message, signature) {
        Ok(())
    } else {
        Err(CryptoError::Verify)
    }
}

} // verus!
