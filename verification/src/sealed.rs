//! Sealed boxes: ephemeral-static X25519 to wrap a content key for a
//! recipient.
//!
//! The sender generates an ephemeral X25519 keypair, performs ECDH with the
//! recipient's static public key, derives a wrapping key, and encrypts the
//! per-drop content key. Only the recipient's secret key can open it.
use vstd::prelude::*;
use vstd::string::*;
use zeroize::Zeroize;
use crate::aead;
use crate::aead::{aead_open_spec, aead_seal_spec, NONCE_LEN};
use crate::error::CryptoError;
use crate::kdf::{derive_key32, hkdf_spec, DEFAULT_SALT, INFO_SEAL_KEY, KEY_LEN};
use crate::keys::{x25519_public, x25519_public_spec, x25519_shared, x25519_shared_spec};
use crate::rng::{random_32, random_bytes};

verus! {

/// Associated data of the wrapping AEAD.
pub const SEAL_AAD: &'static str = "keepstone/v1/sealed";

/// Overwrite a key with zeros.
///
/// Calls `zeroize::Zeroize::zeroize`, which writes zero to every byte.
#[verifier::external_body]
pub(crate) fn wipe(key: &mut [u8; 32])
    ensures
        final(key)@ == Seq::new(32, |i: int| 0u8),
{
    key.zeroize();
}

/// A content key sealed to one recipient device.
#[derive(Clone, Debug, PartialEq, Eq)]
pub struct SealedKey {
    /// Sender's ephemeral X25519 public key.
    pub ephemeral_public: [u8; 32],
    /// Random nonce for the wrapping AEAD.
    pub nonce: [u8; 24],
    /// AEAD ciphertext of the 32-byte content key.
    pub ciphertext: Vec<u8>,
}

/// The abstract content of a [`SealedKey`].
pub ghost struct SealedKeyView {
    pub ephemeral_public: Seq<u8>,
    pub nonce: Seq<u8>,
    pub ciphertext: Seq<u8>,
}

impl View for SealedKey {
    type V = SealedKeyView;

    open spec fn view(&self) -> SealedKeyView {
        SealedKeyView {
            ephemeral_public: self.ephemeral_public@,
            nonce: self.nonce@,
            ciphertext: self.ciphertext@,
        }
    }
}

/// The wrapping key derived from an X25519 shared secret.
pub open spec fn wrap_key_spec(shared: Seq<u8>) -> Seq<u8> {
    hkdf_spec(shared, DEFAULT_SALT.spec_bytes(), INFO_SEAL_KEY.spec_bytes(), 32)
}

/// Whether every byte is zero.
pub open spec fn all_zero(s: Seq<u8>) -> bool {
    forall|i: int| 0 <= i < s.len() ==> s[i] == 0
}

/// `sealed` wraps `content_key` for `recipient`: it carries the public half
/// of some ephemeral secret, and its ciphertext is the wrapping AEAD of the
/// content key under the key derived from that secret and `recipient`
/// (which the AEAD opens back to the content key).
pub open spec fn seals(sealed: SealedKeyView, content_key: Seq<u8>, recipient: Seq<u8>) -> bool {
    exists|e: Seq<u8>|
        #![trigger x25519_public_spec(e)]
        {
            &&& e.len() == 32
            &&& sealed.ephemeral_public == x25519_public_spec(e)
            &&& sealed.ciphertext == aead_seal_spec(
                wrap_key_spec(x25519_shared_spec(e, recipient)),
                sealed.nonce,
                SEAL_AAD.spec_bytes(),
                content_key,
            )
            &&& aead_open_spec(
                wrap_key_spec(x25519_shared_spec(e, recipient)),
                sealed.nonce,
                SEAL_AAD.spec_bytes(),
                sealed.ciphertext,
            ) == Some(content_key)
            &&& forall|other: Seq<u8>|
                #![trigger x25519_public_spec(other)]
                other.len() == 32 && recipient == x25519_public_spec(other) ==> x25519_shared_spec(
                    other,
                    x25519_public_spec(e),
                ) == x25519_shared_spec(e, recipient)
        }
}

/// A key sealed to the public half of `secret` opens with `secret` to the
/// sealed content key, unless the shared secret is degenerate.
pub proof fn lemma_sealed_opens(sealed: SealedKeyView, content_key: Seq<u8>, secret: Seq<u8>)
    requires
        seals(sealed, content_key, x25519_public_spec(secret)),
        secret.len() == 32,
        content_key.len() == KEY_LEN,
        !all_zero(x25519_shared_spec(secret, sealed.ephemeral_public)),
    ensures
        open_outcome(sealed, secret) == Ok::<Seq<u8>, CryptoError>(content_key),
{
    let recipient = x25519_public_spec(secret);
    let e = choose|e: Seq<u8>|
        #![trigger x25519_public_spec(e)]
        {
            &&& e.len() == 32
            &&& sealed.ephemeral_public == x25519_public_spec(e)
            &&& sealed.ciphertext == aead_seal_spec(
                wrap_key_spec(x25519_shared_spec(e, recipient)),
                sealed.nonce,
                SEAL_AAD.spec_bytes(),
                content_key,
            )
            &&& aead_open_spec(
                wrap_key_spec(x25519_shared_spec(e, recipient)),
                sealed.nonce,
                SEAL_AAD.spec_bytes(),
                sealed.ciphertext,
            ) == Some(content_key)
            &&& forall|other: Seq<u8>|
                #![trigger x25519_public_spec(other)]
                other.len() == 32 && recipient == x25519_public_spec(other) ==> x25519_shared_spec(
                    other,
                    x25519_public_spec(e),
                ) == x25519_shared_spec(e, recipient)
        };
    assert(x25519_shared_spec(secret, x25519_public_spec(e)) == x25519_shared_spec(e, recipient));
}

/// What opening `sealed` with `secret` yields.
pub open spec fn open_outcome(sealed: SealedKeyView, secret: Seq<u8>) -> Result<Seq<u8>, CryptoError> {
    let shared = x25519_shared_spec(secret, sealed.ephemeral_public);
    if all_zero(shared) {
        Err(CryptoError::InvalidPublicKey)
    } else {
        match aead_open_spec(wrap_key_spec(shared), sealed.nonce, SEAL_AAD.spec_bytes(), sealed.ciphertext) {
            None => Err(CryptoError::Decrypt),
            Some(p) => if p.len() == KEY_LEN {
                Ok(p)
            } else {
                Err(CryptoError::InvalidKeyLength)
            },
        }
    }
}

fn is_all_zero(s: &[u8; 32]) -> (r: bool)
    ensures
        r == all_zero(s@),
{
    let mut i: usize = 0;
    while i < 32
        invariant
            i <= 32,
            s@.len() == 32,
            forall|j: int| 0 <= j < i ==> s@[j] == 0,
        decreases 32 - i,
    {
        if s[i] != 0 {
            return false;
        }
        i = i + 1;
    }
    true
}

fn array24(v: &Vec<u8>) -> (r: [u8; 24])
    requires
        v@.len() == 24,
    ensures
        r@ == v@,
{
    let mut out = [0u8; 24];
    let mut i: usize = 0;
    while i < 24
        invariant
            i <= 24,
            v@.len() == 24,
            forall|j: int| 0 <= j < i ==> out@[j] == v@[j],
        decreases 24 - i,
    {
        out[i] = v[i];
        i = i + 1;
    }
    assert(out@ =~= v@);
    out
}

pub(crate) fn array32(v: &[u8]) -> (r: [u8; 32])
    requires
        v@.len() == 32,
    ensures
        r@ == v@,
{
    let mut out = [0u8; 32];
    let mut i: usize = 0;
    while i < 32
        invariant
            i <= 32,
            v@.len() == 32,
            forall|j: int| 0 <= j < i ==> out@[j] == v@[j],
        decreases 32 - i,
    {
        out[i] = v[i];
        i = i + 1;
    }
    assert(out@ =~= v@);
    out
}

impl SealedKey {
    /// Encoded length of a sealed key: 32 + 24 + 48.
    pub const ENCODED_LEN: usize = 104;

    /// Seal `content_key` to `recipient` (an X25519 public key).
    pub fn seal(content_key: &[u8; 32], recipient: &[u8; 32]) -> (r: Result<Self, CryptoError>)
        ensures
            r matches Ok(s) && seals(s@, content_key@, recipient@) && s@.ciphertext.len() == 48,
    {
        let ephemeral = random_32();
        let ephemeral_public = x25519_public(&ephemeral);
        let shared = x25519_shared(&ephemeral, recipient);
        let mut wrap_key = derive_key32(shared.as_slice(), DEFAULT_SALT.as_bytes(), INFO_SEAL_KEY.as_bytes())?;
        let nonce = array24(&random_bytes(NONCE_LEN));
        let ciphertext = aead::seal(&wrap_key, &nonce, SEAL_AAD.as_bytes(), content_key.as_slice())?;
        wipe(&mut wrap_key);
        let out = SealedKey { ephemeral_public, nonce, ciphertext };
        assert(seals(out@, content_key@, recipient@)) by {
            assert(out@.ephemeral_public == x25519_public_spec(ephemeral@));
            assert forall|other: Seq<u8>|
                other.len() == 32 && recipient@ == #[trigger] x25519_public_spec(other) implies x25519_shared_spec(
                    other,
                    x25519_public_spec(ephemeral@),
                ) == x25519_shared_spec(ephemeral@, recipient@) by {}
        }
        Ok(out)
    }

    /// Open the sealed key using the recipient's X25519 secret. A key sealed
    /// to the public half of `recipient_secret` opens to the sealed content
    /// key, unless the shared secret is degenerate (all zero).
    pub fn open(&self, recipient_secret: &[u8; 32]) -> (r: Result<[u8; 32], CryptoError>)
        ensures
            match open_outcome(self@, recipient_secret@) {
                Ok(k) => r matches Ok(out) && out@ == k,
                Err(e) => r == Err::<[u8; 32], CryptoError>(e),
            },
            forall|content_key: Seq<u8>|
                #![trigger seals(self@, content_key, x25519_public_spec(recipient_secret@))]
                seals(self@, content_key, x25519_public_spec(recipient_secret@)) && content_key.len()
                    == KEY_LEN && !all_zero(x25519_shared_spec(recipient_secret@, self@.ephemeral_public))
                    ==> (r matches Ok(out) && out@ == content_key),
    {
        let shared = x25519_shared(recipient_secret, &self.ephemeral_public);
        if is_all_zero(&shared) {
            return Err(CryptoError::InvalidPublicKey);
        }
        let mut wrap_key = derive_key32(shared.as_slice(), DEFAULT_SALT.as_bytes(), INFO_SEAL_KEY.as_bytes())?;
        let plaintext = aead::open(&wrap_key, &self.nonce, SEAL_AAD.as_bytes(), self.ciphertext.as_slice());
        wipe(&mut wrap_key);
        let plaintext = plaintext?;
        if plaintext.len() != KEY_LEN {
            return Err(CryptoError::InvalidKeyLength);
        }
        let out = array32(plaintext.as_slice());
        proof {
            assert forall|content_key: Seq<u8>|
                #![trigger seals(self@, content_key, x25519_public_spec(recipient_secret@))]
                seals(self@, content_key, x25519_public_spec(recipient_secret@)) && content_key.len()
                    == KEY_LEN implies out@ == content_key by {
                let e = choose|e: Seq<u8>|
                    #![trigger x25519_public_spec(e)]
                    {
                        &&& e.len() == 32
                        &&& self@.ephemeral_public == x25519_public_spec(e)
                        &&& self@.ciphertext == aead_seal_spec(
                            wrap_key_spec(x25519_shared_spec(e, x25519_public_spec(recipient_secret@))),
                            self@.nonce,
                            SEAL_AAD.spec_bytes(),
                            content_key,
                        )
                        &&& aead_open_spec(
                            wrap_key_spec(x25519_shared_spec(e, x25519_public_spec(recipient_secret@))),
                            self@.nonce,
                            SEAL_AAD.spec_bytes(),
                            self@.ciphertext,
                        ) == Some(content_key)
                    };
                assert(shared@ == x25519_shared_spec(e, x25519_public_spec(recipient_secret@)));
            }
        }
        Ok(out)
    }
}

} // verus!
