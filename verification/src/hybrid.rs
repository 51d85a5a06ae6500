//! Hybrid post-quantum sealing: X25519 + ML-KEM-768.
//!
//! Dead drops are long-lived, so "harvest now, decrypt later" is a real
//! threat. A classical X25519 ECDH and an ML-KEM-768 encapsulation are mixed
//! through HKDF, so the wrap holds as long as **either** primitive holds.
use vstd::prelude::*;
use vstd::string::*;
use ml_kem::kem::{Decapsulate, KeyExport, TryKeyInit};
use crate::aead::{self, aead_open_spec, aead_seal_spec, NONCE_LEN};
use crate::bytes::{push_all, to_array, to_vec};
use crate::error::CryptoError;
use crate::kdf::{derive_key32, hkdf_spec, INFO_SEAL_KEY, KEY_LEN};
use crate::keys::{x25519_public, x25519_public_spec, x25519_shared, x25519_shared_spec};
use crate::rng::{random_32, random_bytes};
use crate::sealed::wipe;

verus! {

/// Domain label: the HKDF salt of the mixed key and the AEAD associated
/// data.
pub const HYBRID_CONTEXT: &'static str = "keepstone/v1/hybrid-seal";

/// Length of an ML-KEM-768 encapsulation key.
pub const KEM_PUBLIC_LEN: usize = 1184;

/// Length of an ML-KEM-768 ciphertext.
pub const KEM_CIPHERTEXT_LEN: usize = 1088;

/// The ML-KEM-768 encapsulation key of the decapsulation key made from a
/// 64-byte seed (`ml_kem`).
pub uninterp spec fn mlkem_public_spec(seed: Seq<u8>) -> Seq<u8>;

/// The ciphertext and shared key of an ML-KEM-768 encapsulation to an
/// encapsulation key with the 32 bytes of randomness `m` (`ml_kem`).
pub uninterp spec fn mlkem_encaps_spec(public: Seq<u8>, m: Seq<u8>) -> (Seq<u8>, Seq<u8>);

/// Whether `TryKeyInit::new_from_slice` accepts `public` as an ML-KEM-768
/// encapsulation key (`ml-kem`).
pub uninterp spec fn mlkem_key_accepted(public: Seq<u8>) -> bool;

/// The shared key that the decapsulation key made from a seed recovers from
/// a ciphertext (`ml_kem`; implicit rejection yields a pseudo-random key).
pub uninterp spec fn mlkem_decaps_spec(seed: Seq<u8>, ciphertext: Seq<u8>) -> Seq<u8>;

/// The encapsulation key of `DecapsulationKey::<MlKem768>::from_seed(seed)`.
///
/// Calls `from_seed`, `encapsulation_key` and `KeyExport::to_bytes`; the key
/// is named, and has 1184 bytes.
#[verifier::external_body]
fn mlkem_public(seed: &[u8; 64]) -> (r: Vec<u8>)
    ensures
        r@ == mlkem_public_spec(seed@),
        r@.len() == KEM_PUBLIC_LEN,
{
    let dk = ml_kem::DecapsulationKey::<ml_kem::MlKem768>::from_seed((*seed).into());
    dk.encapsulation_key().to_bytes().as_slice().to_vec()
}

/// Encapsulate to the encapsulation key `public` with randomness `m`.
///
/// Calls `TryKeyInit::new_from_slice`, which refuses a key that is not 1184
/// bytes or does not decode, then `encapsulate_deterministic`, which cannot
/// fail. The contract names whether the key is accepted and the result, and
/// claims that a key exported from a seed is accepted.
#[verifier::external_body]
fn mlkem_encapsulate(public: &[u8], m: &[u8; 32]) -> (r: Result<(Vec<u8>, [u8; 32]), CryptoError>)
    ensures
        r is Ok <==> mlkem_key_accepted(public@),
        public@.len() != KEM_PUBLIC_LEN ==> r is Err,
        forall|seed: Seq<u8>|
            seed.len() == 64 && public@ == #[trigger] mlkem_public_spec(seed) ==> r is Ok,
        r matches Ok((ct, ss)) ==> (ct@, ss@) == mlkem_encaps_spec(public@, m@) && ct@.len()
            == KEM_CIPHERTEXT_LEN,
        r matches Err(e) ==> e == CryptoError::InvalidPublicKey,
{
    let ek = <ml_kem::EncapsulationKey<ml_kem::MlKem768> as TryKeyInit>::new_from_slice(public)
        .map_err(|_| CryptoError::InvalidPublicKey)?;
    let (ct, ss) = ek.encapsulate_deterministic(&(*m).into());
    Ok((ct.as_slice().to_vec(), ss.into()))
}

/// Decapsulate `ciphertext` with the decapsulation key made from `seed`.
///
/// Calls `from_seed` and `Decapsulate::decapsulate_slice`, which refuses a
/// ciphertext that is not 1088 bytes; the shared key is named.
#[verifier::external_body]
fn mlkem_decapsulate(seed: &[u8; 64], ciphertext: &[u8]) -> (r: Result<[u8; 32], CryptoError>)
    ensures
        r is Ok <==> ciphertext@.len() == KEM_CIPHERTEXT_LEN,
        r matches Ok(k) ==> k@ == mlkem_decaps_spec(seed@, ciphertext@),
        r matches Err(e) ==> e == CryptoError::Decrypt,
{
    let dk = ml_kem::DecapsulationKey::<ml_kem::MlKem768>::from_seed((*seed).into());
    let ss = dk.decapsulate_slice(ciphertext).map_err(|_| CryptoError::Decrypt)?;
    Ok(ss.into())
}

/// The wrapping key mixed from both shared secrets.
pub open spec fn mix_spec(shared: Seq<u8>, kem_shared: Seq<u8>) -> Seq<u8> {
    hkdf_spec(shared + kem_shared, HYBRID_CONTEXT.spec_bytes(), INFO_SEAL_KEY.spec_bytes(), 32)
}

/// Mix the X25519 and ML-KEM shared secrets into one wrapping key.
pub fn mix(shared: &[u8], kem_shared: &[u8]) -> (r: [u8; 32])
    ensures
        r@ == mix_spec(shared@, kem_shared@),
{
    let mut ikm: Vec<u8> = Vec::new();
    push_all(&mut ikm, shared);
    push_all(&mut ikm, kem_shared);
    match derive_key32(ikm.as_slice(), HYBRID_CONTEXT.as_bytes(), INFO_SEAL_KEY.as_bytes()) {
        Ok(k) => k,
        Err(_) => [0u8; 32],
    }
}

/// The public half of a hybrid keypair.
#[derive(Clone, Debug, PartialEq, Eq)]
pub struct HybridPublic {
    /// X25519 public key.
    pub x25519: [u8; 32],
    /// ML-KEM-768 encapsulation key bytes.
    pub kem: Vec<u8>,
}

/// A content key sealed under a hybrid public key.
#[derive(Clone, Debug, PartialEq, Eq)]
pub struct HybridSealed {
    /// Ephemeral X25519 public key.
    pub ephemeral_x25519: [u8; 32],
    /// ML-KEM-768 ciphertext bytes.
    pub kem_ciphertext: Vec<u8>,
    /// AEAD nonce.
    pub nonce: [u8; 24],
    /// AEAD ciphertext of the content key.
    pub ciphertext: Vec<u8>,
}

/// The abstract content of a [`HybridSealed`].
pub ghost struct HybridSealedView {
    pub ephemeral_x25519: Seq<u8>,
    pub kem_ciphertext: Seq<u8>,
    pub nonce: Seq<u8>,
    pub ciphertext: Seq<u8>,
}

impl View for HybridSealed {
    type V = HybridSealedView;

    open spec fn view(&self) -> HybridSealedView {
        HybridSealedView {
            ephemeral_x25519: self.ephemeral_x25519@,
            kem_ciphertext: self.kem_ciphertext@,
            nonce: self.nonce@,
            ciphertext: self.ciphertext@,
        }
    }
}

/// A hybrid keypair: an X25519 secret and the seed of an ML-KEM-768
/// decapsulation key.
pub struct HybridKeypair {
    x25519: [u8; 32],
    kem_seed: [u8; 64],
    kem_public: Vec<u8>,
}

impl HybridKeypair {
    /// The X25519 secret.
    pub closed spec fn x25519_secret(&self) -> Seq<u8> {
        self.x25519@
    }

    /// The ML-KEM decapsulation key seed.
    pub closed spec fn kem_seed(&self) -> Seq<u8> {
        self.kem_seed@
    }

    /// The keypair's invariant: the stored encapsulation key is the one of
    /// the seed.
    pub closed spec fn wf(&self) -> bool {
        self.kem_public@ == mlkem_public_spec(self.kem_seed@)
    }

    /// Generate a fresh hybrid keypair from the operating system CSPRNG.
    pub fn generate() -> (r: Self)
        ensures
            r.wf(),
            r.x25519_secret().len() == 32,
            r.kem_seed().len() == 64,
    {
        let seed_bytes = random_bytes(64);
        let kem_seed: [u8; 64] = to_array(seed_bytes.as_slice());
        let kem_public = mlkem_public(&kem_seed);
        let x25519 = random_32();
        HybridKeypair { x25519, kem_seed, kem_public }
    }

    /// Rebuild a keypair from its secrets.
    pub fn from_secrets(x25519: &[u8; 32], kem_seed: &[u8; 64]) -> (r: Self)
        ensures
            r.wf(),
            r.x25519_secret() == x25519@,
            r.kem_seed() == kem_seed@,
    {
        let kem_public = mlkem_public(kem_seed);
        HybridKeypair { x25519: *x25519, kem_seed: *kem_seed, kem_public }
    }

    /// The X25519 secret bytes (handle with care).
    pub fn x25519_secret_bytes(&self) -> (r: [u8; 32])
        ensures
            r@ == self.x25519_secret(),
    {
        self.x25519
    }

    /// The ML-KEM seed bytes (handle with care).
    pub fn kem_seed_bytes(&self) -> (r: [u8; 64])
        ensures
            r@ == self.kem_seed(),
    {
        self.kem_seed
    }

    /// The public half.
    pub fn public(&self) -> (r: HybridPublic)
        requires
            self.wf(),
        ensures
            r.x25519@ == x25519_public_spec(self.x25519_secret()),
            r.kem@ == mlkem_public_spec(self.kem_seed()),
    {
        HybridPublic { x25519: x25519_public(&self.x25519), kem: to_vec(self.kem_public.as_slice()) }
    }

    /// A redacted rendering that never shows key material.
    pub fn redacted(&self) -> (r: String)
        ensures
            r@ == "HybridKeypair([REDACTED])"@,
    {
        String::from_str("HybridKeypair([REDACTED])")
    }

    /// Open a value sealed to this keypair's public half.
    pub fn open(&self, sealed: &HybridSealed) -> (r: Result<[u8; 32], CryptoError>)
        ensures
            match hybrid_open_outcome(sealed@, self.x25519_secret(), self.kem_seed()) {
                Ok(p) => r matches Ok(k) && k@ == p,
                Err(e) => r == Err::<[u8; 32], CryptoError>(e),
            },
    {
        let mut shared = x25519_shared(&self.x25519, &sealed.ephemeral_x25519);
        let kem_shared = mlkem_decapsulate(&self.kem_seed, sealed.kem_ciphertext.as_slice());
        let mut kem_shared = match kem_shared {
            Ok(k) => k,
            Err(e) => {
                wipe(&mut shared);
                return Err(e);
            },
        };
        let mut key = mix(shared.as_slice(), kem_shared.as_slice());
        wipe(&mut shared);
        wipe(&mut kem_shared);
        let ghost k = key@;
        let plaintext = aead::open(&key, &sealed.nonce, HYBRID_CONTEXT.as_bytes(), sealed.ciphertext.as_slice());
        wipe(&mut key);
        let plaintext = match plaintext {
            Ok(p) => p,
            Err(e) => {
                return Err(e);
            },
        };
        if plaintext.len() != KEY_LEN {
            return Err(CryptoError::InvalidKeyLength);
        }
        Ok(to_array(plaintext.as_slice()))
    }
}

/// What opening `sealed` with the given secrets yields.
pub open spec fn hybrid_open_outcome(sealed: HybridSealedView, x25519_secret: Seq<u8>, kem_seed: Seq<u8>) -> Result<Seq<u8>, CryptoError> {
    if sealed.kem_ciphertext.len() != KEM_CIPHERTEXT_LEN {
        Err(CryptoError::Decrypt)
    } else {
        let key = mix_spec(
            x25519_shared_spec(x25519_secret, sealed.ephemeral_x25519),
            mlkem_decaps_spec(kem_seed, sealed.kem_ciphertext),
        );
        match aead_open_spec(key, sealed.nonce, HYBRID_CONTEXT.spec_bytes(), sealed.ciphertext) {
            None => Err(CryptoError::Decrypt),
            Some(p) => if p.len() == KEY_LEN {
                Ok(p)
            } else {
                Err(CryptoError::InvalidKeyLength)
            },
        }
    }
}

/// `sealed` wraps `content_key` for the hybrid public key: its ephemeral key
/// is the public half of some X25519 secret `e`, its KEM ciphertext comes
/// from an encapsulation to the recipient with some randomness `m`, and its
/// ciphertext is the AEAD of the content key under the key mixed from both
/// shared secrets (which the AEAD opens back to the content key).
pub open spec fn hybrid_seals(sealed: HybridSealedView, content_key: Seq<u8>, x25519: Seq<u8>, kem: Seq<u8>) -> bool {
    exists|e: Seq<u8>, m: Seq<u8>|
        #![trigger x25519_public_spec(e), mlkem_encaps_spec(kem, m)]
        {
            let (ct, ss) = mlkem_encaps_spec(kem, m);
            let key = mix_spec(x25519_shared_spec(e, x25519), ss);
            &&& e.len() == 32
            &&& m.len() == 32
            &&& sealed.ephemeral_x25519 == x25519_public_spec(e)
            &&& sealed.kem_ciphertext == ct
            &&& sealed.ciphertext == aead_seal_spec(key, sealed.nonce, HYBRID_CONTEXT.spec_bytes(), content_key)
            &&& aead_open_spec(key, sealed.nonce, HYBRID_CONTEXT.spec_bytes(), sealed.ciphertext) == Some(content_key)
        }
}

/// Seal `content_key` to a hybrid public key, with fresh randomness.
///
/// Succeeds whenever the encapsulation key is one exported from a seed; a
/// key of the wrong length is refused.
pub fn seal(content_key: &[u8; 32], recipient: &HybridPublic) -> (r: Result<HybridSealed, CryptoError>)
    ensures
        recipient.kem@.len() != KEM_PUBLIC_LEN ==> r == Err::<HybridSealed, CryptoError>(
            CryptoError::InvalidPublicKey,
        ),
        (exists|seed: Seq<u8>| seed.len() == 64 && recipient.kem@ == #[trigger] mlkem_public_spec(seed))
            ==> r is Ok,
        r is Ok <==> mlkem_key_accepted(recipient.kem@),
        r matches Ok(s) ==> hybrid_seals(s@, content_key@, recipient.x25519@, recipient.kem@),
        r matches Err(e) ==> e == CryptoError::InvalidPublicKey,
{
    let mut ephemeral = random_32();
    let ephemeral_public = x25519_public(&ephemeral);
    let mut shared = x25519_shared(&ephemeral, &recipient.x25519);
    let ghost e = ephemeral@;
    let mut m = random_32();
    let ghost mg = m@;
    let encapsulated = mlkem_encapsulate(recipient.kem.as_slice(), &m);
    wipe(&mut m);
    wipe(&mut ephemeral);
    let (kem_ciphertext, mut kem_shared) = match encapsulated {
        Ok(pair) => pair,
        Err(err) => {
            wipe(&mut shared);
            return Err(err);
        },
    };
    let mut key = mix(shared.as_slice(), kem_shared.as_slice());
    wipe(&mut shared);
    wipe(&mut kem_shared);
    let nonce_bytes = random_bytes(NONCE_LEN);
    let nonce: [u8; 24] = to_array(nonce_bytes.as_slice());
    let ghost kg = key@;
    let ciphertext = aead::seal(&key, &nonce, HYBRID_CONTEXT.as_bytes(), content_key.as_slice());
    wipe(&mut key);
    let ciphertext = match ciphertext {
        Ok(c) => c,
        Err(_) => {
            return Err(CryptoError::InvalidPublicKey);
        },
    };
    let out = HybridSealed { ephemeral_x25519: ephemeral_public, kem_ciphertext, nonce, ciphertext };
    proof {
        assert(hybrid_seals(out@, content_key@, recipient.x25519@, recipient.kem@)) by {
            let (ct, ss) = mlkem_encaps_spec(recipient.kem@, mg);
            assert(x25519_public_spec(e) == out.ephemeral_x25519@);
        }
    }
    Ok(out)
}

} // verus!
