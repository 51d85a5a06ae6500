//! Hybrid post-quantum signatures: Ed25519 + ML-DSA-65.
//!
//! A hybrid signature is valid only if **both** the classical Ed25519
//! signature and the ML-DSA-65 signature verify, so it remains sound as long
//! as either scheme is unbroken.
use vstd::prelude::*;
use vstd::string::*;
use ml_dsa::{KeyExport, KeyInit, Keypair, Signer, Verifier};
use crate::bytes::to_array;
use crate::error::CryptoError;
use crate::keys::{
    ed25519_public, ed25519_public_spec, ed25519_sign, ed25519_sign_spec, ed25519_verify_spec,
    verify as verify_ed25519,
};
use crate::rng::{random_32, random_bytes};

verus! {

/// Length of an ML-DSA-65 verifying key.
pub const ML_DSA_65_VK_LEN: usize = 1952;
/// Length of an ML-DSA-65 signature.
pub const ML_DSA_65_SIG_LEN: usize = 3309;

/// The ML-DSA-65 verifying key of the signing key made from a 32-byte seed
/// (`ml_dsa`).
pub uninterp spec fn mldsa_public_spec(seed: Seq<u8>) -> Seq<u8>;

/// The deterministic ML-DSA-65 signature of `message` by the signing key
/// made from `seed`, `None` when signing fails (`ml_dsa`).
pub uninterp spec fn mldsa_sign_spec(seed: Seq<u8>, message: Seq<u8>) -> Option<Seq<u8>>;

/// Whether an encoded ML-DSA-65 signature of `message` decodes and verifies
/// under an encoded verifying key (`ml_dsa`).
pub uninterp spec fn mldsa_verify_spec(public: Seq<u8>, message: Seq<u8>, signature: Seq<u8>) -> bool;

/// The verifying key of `SigningKey::<MlDsa65>::from_seed(seed)`.
///
/// Calls `from_seed`, `Keypair::verifying_key` and `KeyExport::to_bytes`;
/// the key is named and has 1952 bytes.
#[verifier::external_body]
fn mldsa_public(seed: &[u8; 32]) -> (r: Vec<u8>)
    ensures
        r@ == mldsa_public_spec(seed@),
        r@.len() == ML_DSA_65_VK_LEN,
{
    let sk = ml_dsa::SigningKey::<ml_dsa::MlDsa65>::from_seed(&(*seed).into());
    sk.verifying_key().to_bytes().as_slice().to_vec()
}

/// Sign with the ML-DSA-65 key made from `seed`.
///
/// Calls `Signer::try_sign` (the deterministic variant with an empty
/// context) and `Signature::encode`. The outcome is named; the contract also
/// claims the scheme's correctness: a produced signature has 3309 bytes and
/// verifies under the key's own (1952-byte) verifying key.
#[verifier::external_body]
fn mldsa_sign(seed: &[u8; 32], message: &[u8]) -> (r: Result<Vec<u8>, CryptoError>)
    ensures
        match mldsa_sign_spec(seed@, message@) {
            Some(s) => r matches Ok(v) && v@ == s,
            None => r is Err,
        },
        r matches Ok(v) ==> v@.len() == ML_DSA_65_SIG_LEN && mldsa_public_spec(seed@).len()
            == ML_DSA_65_VK_LEN && mldsa_verify_spec(
            mldsa_public_spec(seed@),
            message@,
            v@,
        ),
        r matches Err(e) ==> e == CryptoError::Encrypt,
{
    let sk = ml_dsa::SigningKey::<ml_dsa::MlDsa65>::from_seed(&(*seed).into());
    let sig = sk.try_sign(message).map_err(|_| CryptoError::Encrypt)?;
    Ok(sig.encode().as_slice().to_vec())
}

/// Whether an encoded ML-DSA-65 signature verifies under a 1952-byte
/// encoded verifying key.
///
/// Calls `KeyInit::new_from_slice` on the verifying key, then
/// `Signature::try_from` (a signature that does not decode counts as
/// failed) and `Verifier::verify`; the answer is named.
#[verifier::external_body]
fn mldsa_verify(public: &[u8], message: &[u8], signature: &[u8]) -> (r: bool)
    requires
        public@.len() == ML_DSA_65_VK_LEN,
    ensures
        r == mldsa_verify_spec(public@, message@, signature@),
{
    match ml_dsa::VerifyingKey::<ml_dsa::MlDsa65>::new_from_slice(public) {
        Ok(key) => match ml_dsa::Signature::<ml_dsa::MlDsa65>::try_from(signature) {
            Ok(sig) => key.verify(message, &sig).is_ok(),
            Err(_) => false,
        },
        Err(_) => false,
    }
}

/// A hybrid signing key (secret): an Ed25519 secret and an ML-DSA-65 seed.
pub struct HybridSigningKey {
    ed25519: [u8; 32],
    ml_dsa: [u8; 32],
}

/// A hybrid verifying key (public).
#[derive(Clone, Debug, PartialEq, Eq)]
pub struct HybridVerifyingKey {
    /// Ed25519 public key.
    pub ed25519: [u8; 32],
    /// ML-DSA-65 verifying key bytes.
    pub ml_dsa: Vec<u8>,
}

/// A hybrid signature.
#[derive(Clone, Debug, PartialEq, Eq)]
pub struct HybridSignature {
    /// Ed25519 signature.
    pub ed25519: [u8; 64],
    /// ML-DSA-65 signature bytes.
    pub ml_dsa: Vec<u8>,
}

/// What verifying a hybrid signature yields: both halves must verify, the
/// Ed25519 half first.
pub open spec fn hybrid_verify_outcome(
    ed_public: Seq<u8>,
    mldsa_public: Seq<u8>,
    message: Seq<u8>,
    ed_sig: Seq<u8>,
    mldsa_sig: Seq<u8>,
) -> Result<(), CryptoError> {
    if !ed25519_verify_spec(ed_public, message, ed_sig) {
        Err(CryptoError::Verify)
    } else if mldsa_public.len() != ML_DSA_65_VK_LEN {
        Err(CryptoError::InvalidPublicKey)
    } else if mldsa_verify_spec(mldsa_public, message, mldsa_sig) {
        Ok(())
    } else {
        Err(CryptoError::Verify)
    }
}

impl HybridSigningKey {
    /// The Ed25519 secret.
    pub closed spec fn ed25519_secret(&self) -> Seq<u8> {
        self.ed25519@
    }

    /// The ML-DSA seed.
    pub closed spec fn ml_dsa_seed(&self) -> Seq<u8> {
        self.ml_dsa@
    }

    /// Generate a fresh hybrid signing key from the operating system CSPRNG.
    pub fn generate() -> (r: Self)
        ensures
            r.ed25519_secret().len() == 32,
            r.ml_dsa_seed().len() == 32,
    {
        HybridSigningKey { ed25519: random_32(), ml_dsa: random_32() }
    }

    /// Rebuild a signing key from its secrets.
    pub fn from_secrets(ed25519: &[u8; 32], ml_dsa: &[u8; 32]) -> (r: Self)
        ensures
            r.ed25519_secret() == ed25519@,
            r.ml_dsa_seed() == ml_dsa@,
    {
        HybridSigningKey { ed25519: *ed25519, ml_dsa: *ml_dsa }
    }

    /// The Ed25519 secret bytes (handle with care).
    pub fn ed25519_secret_bytes(&self) -> (r: [u8; 32])
        ensures
            r@ == self.ed25519_secret(),
    {
        self.ed25519
    }

    /// The ML-DSA seed bytes (handle with care).
    pub fn ml_dsa_seed_bytes(&self) -> (r: [u8; 32])
        ensures
            r@ == self.ml_dsa_seed(),
    {
        self.ml_dsa
    }

    /// A redacted rendering that never shows key material.
    pub fn redacted(&self) -> (r: String)
        ensures
            r@ == "HybridSigningKey([REDACTED])"@,
    {
        String::from_str("HybridSigningKey([REDACTED])")
    }

    /// The public verifying key.
    pub fn verifying_key(&self) -> (r: HybridVerifyingKey)
        ensures
            r.ed25519@ == ed25519_public_spec(self.ed25519_secret()),
            r.ml_dsa@ == mldsa_public_spec(self.ml_dsa_seed()),
    {
        HybridVerifyingKey { ed25519: ed25519_public(&self.ed25519), ml_dsa: mldsa_public(&self.ml_dsa) }
    }

    /// Sign a message with both schemes; a signature produced here verifies
    /// under this key's verifying key.
    pub fn sign(&self, message: &[u8]) -> (r: Result<HybridSignature, CryptoError>)
        ensures
            match mldsa_sign_spec(self.ml_dsa_seed(), message@) {
                Some(s) => r matches Ok(sig) && sig.ml_dsa@ == s,
                None => r == Err::<HybridSignature, CryptoError>(CryptoError::Encrypt),
            },
            r matches Ok(sig) ==> sig.ed25519@ == ed25519_sign_spec(self.ed25519_secret(), message@)
                && hybrid_verify_outcome(
                ed25519_public_spec(self.ed25519_secret()),
                mldsa_public_spec(self.ml_dsa_seed()),
                message@,
                sig.ed25519@,
                sig.ml_dsa@,
            ) is Ok,
    {
        let ed25519 = ed25519_sign(&self.ed25519, message);
        let ml_dsa = match mldsa_sign(&self.ml_dsa, message) {
            Ok(v) => v,
            Err(e) => {
                return Err(e);
            },
        };
        Ok(HybridSignature { ed25519, ml_dsa })
    }
}

/// Verify a hybrid signature; both halves must verify.
pub fn verify(key: &HybridVerifyingKey, message: &[u8], signature: &HybridSignature) -> (r: Result<(), CryptoError>)
    ensures
        r == hybrid_verify_outcome(key.ed25519@, key.ml_dsa@, message@, signature.ed25519@, signature.ml_dsa@),
{
    match verify_ed25519(&key.ed25519, message, &signature.ed25519) {
        Ok(()) => {},
        Err(_) => {
            return Err(CryptoError::Verify);
        },
    }
    if key.ml_dsa.len() != ML_DSA_65_VK_LEN {
        return Err(CryptoError::InvalidPublicKey);
    }
    if mldsa_verify(key.ml_dsa.as_slice(), message, signature.ml_dsa.as_slice()) {
        Ok(())
    } else {
        Err(CryptoError::Verify)
    }
}

} // verus!
