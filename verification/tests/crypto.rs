use keepstone::aead::{self, KEY_LEN, NONCE_LEN};
use keepstone::error::CryptoError;
use keepstone::hybrid::{self, mix, HybridKeypair, HybridPublic};
use keepstone::hybrid_sig::{self, HybridSigningKey, ML_DSA_65_SIG_LEN, ML_DSA_65_VK_LEN};
use keepstone::kdf::{
    derive_chunk_key, derive_key32, derive_tag, expand, DEFAULT_SALT, INFO_DROP_KEY, INFO_TAG,
};
use keepstone::keys::{self, Identity};
use keepstone::sealed::SealedKey;
use keepstone::secret::SecretBytes;
use keepstone::shamir::{combine, eval_poly, gf_inv, gf_mul, gf_pow, split, Share};
use keepstone::stream::{decrypt, decrypt_chunk, encrypt, DEFAULT_CHUNK_SIZE};
use keepstone::suite::CryptoSuite;

// ---- aead ----

#[test]
fn round_trips() {
    let key = [3u8; KEY_LEN];
    let nonce = [4u8; NONCE_LEN];
    let ct = aead::seal(&key, &nonce, b"aad", b"hello world").unwrap();
    let pt = aead::open(&key, &nonce, b"aad", &ct).unwrap();
    assert_eq!(pt, b"hello world");
}

#[test]
fn wrong_aad_fails() {
    let key = [3u8; KEY_LEN];
    let nonce = [4u8; NONCE_LEN];
    let ct = aead::seal(&key, &nonce, b"aad", b"secret").unwrap();
    assert_eq!(
        aead::open(&key, &nonce, b"different", &ct),
        Err(CryptoError::Decrypt)
    );
}

#[test]
fn tampered_ciphertext_fails() {
    let key = [3u8; KEY_LEN];
    let nonce = [4u8; NONCE_LEN];
    let mut ct = aead::seal(&key, &nonce, b"", b"secret").unwrap();
    ct[0] ^= 0x01;
    assert_eq!(aead::open(&key, &nonce, b"", &ct), Err(CryptoError::Decrypt));
}

#[test]
fn aead_ciphertext_carries_a_tag() {
    let key = [3u8; KEY_LEN];
    let nonce = [4u8; NONCE_LEN];
    let ct = aead::seal(&key, &nonce, b"", b"secret").unwrap();
    assert_eq!(ct.len(), 6 + aead::TAG_LEN);
    assert_ne!(&ct[..6], b"secret");
}

// ---- kdf ----

#[test]
fn derivation_is_deterministic_and_domain_separated() {
    let ikm = b"input key material";
    let a = derive_key32(ikm, DEFAULT_SALT.as_bytes(), INFO_DROP_KEY.as_bytes()).unwrap();
    let b = derive_key32(ikm, DEFAULT_SALT.as_bytes(), INFO_DROP_KEY.as_bytes()).unwrap();
    let c = derive_key32(ikm, DEFAULT_SALT.as_bytes(), INFO_TAG.as_bytes()).unwrap();
    assert_eq!(a, b);
    assert_ne!(a, c);
}

#[test]
fn chunk_keys_differ_per_index() {
    let content = [7u8; KEY_LEN];
    let k0 = derive_chunk_key(&content, 0).unwrap();
    let k1 = derive_chunk_key(&content, 1).unwrap();
    assert_ne!(k0, k1);
}

#[test]
fn hkdf_matches_the_rfc_5869_vector() {
    // RFC 5869, test case 1.
    let ikm = [0x0bu8; 22];
    let salt: Vec<u8> = (0x00u8..=0x0c).collect();
    let info: Vec<u8> = (0xf0u8..=0xf9).collect();
    let mut okm = [0u8; 42];
    expand(&ikm, &salt, &info, &mut okm).unwrap();
    let expected = "3cb25f25faacd57a90434f64d0362f2a2d2d0a90cf1a5a4c5db02d56ecc4c5bf34007208d5b887185865";
    assert_eq!(hex::encode(okm), expected);
}

#[test]
fn hkdf_refuses_oversized_output() {
    let mut out = vec![0u8; 255 * 32 + 1];
    assert_eq!(
        expand(b"k", b"s", b"i", &mut out),
        Err(CryptoError::InvalidKeyLength)
    );
    let mut out = vec![0u8; 255 * 32];
    assert!(expand(b"k", b"s", b"i", &mut out).is_ok());
}

#[test]
fn tags_depend_on_recipient_and_nonce() {
    let a = derive_tag(&[1u8; 32], &[2u8; 16]).unwrap();
    let b = derive_tag(&[1u8; 32], &[2u8; 16]).unwrap();
    let c = derive_tag(&[3u8; 32], &[2u8; 16]).unwrap();
    let d = derive_tag(&[1u8; 32], &[4u8; 16]).unwrap();
    assert_eq!(a, b);
    assert_ne!(a, c);
    assert_ne!(a, d);
}

// ---- keys ----

#[test]
fn sign_and_verify_round_trip() {
    let id = Identity::generate();
    let sig = id.sign(b"drop body");
    assert!(keys::verify(&id.signing_public(), b"drop body", &sig).is_ok());
    assert_eq!(
        keys::verify(&id.signing_public(), b"tampered", &sig),
        Err(CryptoError::Verify)
    );
}

#[test]
fn secret_round_trip_reproduces_public_keys() {
    let id = Identity::generate();
    let restored = Identity::from_secret_bytes(&id.signing_secret_bytes(), &id.ecdh_secret_bytes());
    assert_eq!(restored.signing_public(), id.signing_public());
    assert_eq!(restored.ecdh_public(), id.ecdh_public());
}

#[test]
fn keys_debug_is_redacted() {
    let id = Identity::generate();
    assert_eq!(id.redacted(), "Identity([REDACTED])");
}

#[test]
fn identity_from_known_secret_has_known_public_keys() {
    // RFC 8032 test 1 and RFC 7748 section 6.1 (Alice).
    let signing: [u8; 32] = hex::decode(
        "9d61b19deffd5a60ba844af492ec2cc44449c5697b326919703bac031cae7f60",
    )
    .unwrap()
    .try_into()
    .unwrap();
    let ecdh: [u8; 32] = hex::decode(
        "77076d0a7318a57d3c16c17251b26645df4c2f87ebc0992ab177fba51db92c2a",
    )
    .unwrap()
    .try_into()
    .unwrap();
    let id = Identity::from_secret_bytes(&signing, &ecdh);
    assert_eq!(
        hex::encode(id.signing_public()),
        "d75a980182b10ab7d54bfed3c964073a0ee172f3daa62325af021a68f707511a"
    );
    assert_eq!(
        hex::encode(id.ecdh_public()),
        "8520f0098930a754748b7ddcb43ef75a0dbf3a0d26381af4eba4a98eaa9b4e6a"
    );
    let sig = id.sign(b"");
    assert_eq!(
        hex::encode(sig),
        "e5564300c360ac729086e2cc806e828a84877f1eb8e5d974d873e065224901555fb8821590a33bacc61e39701cf9b46bd25bf5f0595bbe24655141438e7a100b"
    );
    assert_eq!(id.signing_secret_bytes(), signing);
    assert_eq!(id.ecdh_secret_bytes(), ecdh);
}

// ---- sealed ----

#[test]
fn only_the_recipient_can_open() {
    let recipient = Identity::generate();
    let other = Identity::generate();
    let content_key = [42u8; KEY_LEN];

    let sealed = SealedKey::seal(&content_key, &recipient.ecdh_public()).unwrap();
    assert_eq!(sealed.open(&recipient.ecdh_secret_bytes()).unwrap(), content_key);
    assert_eq!(sealed.open(&other.ecdh_secret_bytes()), Err(CryptoError::Decrypt));
}

#[test]
fn encoded_length_is_stable() {
    let recipient = Identity::generate();
    let sealed = SealedKey::seal(&[0u8; KEY_LEN], &recipient.ecdh_public()).unwrap();
    assert_eq!(sealed.ciphertext.len(), KEY_LEN + 16);
    assert_eq!(SealedKey::ENCODED_LEN, 104);
}

#[test]
fn sealing_twice_uses_fresh_ephemeral_keys() {
    let recipient = Identity::generate();
    let a = SealedKey::seal(&[5u8; KEY_LEN], &recipient.ecdh_public()).unwrap();
    let b = SealedKey::seal(&[5u8; KEY_LEN], &recipient.ecdh_public()).unwrap();
    assert_ne!(a.ephemeral_public, b.ephemeral_public);
    assert_eq!(a.open(&recipient.ecdh_secret_bytes()).unwrap(), [5u8; KEY_LEN]);
    assert_eq!(b.open(&recipient.ecdh_secret_bytes()).unwrap(), [5u8; KEY_LEN]);
}

// ---- secret ----

#[test]
fn secret_debug_is_redacted() {
    let secret = SecretBytes::new(vec![0xAB; 42]);
    let rendered = secret.redacted();
    assert!(rendered.contains("REDACTED"));
    assert!(!rendered.contains("AB"));
    assert!(!rendered.contains("171"));
}

#[test]
fn exposes_bytes_to_callers() {
    let mut secret = SecretBytes::new(vec![1, 2, 3]);
    assert_eq!(secret.as_bytes(), &[1, 2, 3]);
    secret.as_mut_bytes()[0] = 9;
    assert_eq!(secret.as_bytes()[0], 9);
    assert_eq!(secret.len(), 3);
}

#[test]
fn secret_wipe_zeroes_and_redaction_states_length() {
    let mut secret = SecretBytes::new(vec![0xAB; 42]);
    assert_eq!(secret.redacted(), "SecretBytes([REDACTED; 42 bytes])");
    assert!(!secret.is_empty());
    secret.wipe();
    assert!(secret.as_bytes().is_empty());
    assert!(secret.is_empty());
    assert!(SecretBytes::new(vec![]).is_empty());
}

// ---- shamir ----

#[test]
fn fields_are_consistent() {
    assert_eq!(gf_mul(0, 123), 0);
    assert_eq!(gf_mul(1, 123), 123);
    assert_eq!(gf_mul(2, 3), 6);
    for a in 1u8..=255 {
        assert_eq!(gf_mul(a, gf_inv(a)), 1, "inverse of {a}");
    }
}

#[test]
fn field_arithmetic_has_known_values() {
    // AES field: 0x57 * 0x83 = 0xC1 (FIPS-197, section 4.2).
    assert_eq!(gf_mul(0x57, 0x83), 0xC1);
    assert_eq!(gf_mul(0x57, 0x13), 0xFE);
    assert_eq!(gf_pow(2, 8), 0x1B);
    assert_eq!(gf_pow(7, 0), 1);
    assert_eq!(gf_inv(0), 0);
    assert_eq!(eval_poly(&[], 5), 0);
    // 3 + 1*x + 2*x^2 at x = 2: 3 ^ 2 ^ (2*4)=8 -> 3 ^ 2 ^ 8 = 9.
    assert_eq!(eval_poly(&[3, 1, 2], 2), 9);
}

#[test]
fn any_threshold_subset_reconstructs() {
    let secret = [42u8; 32];
    let shares = split(&secret, 3, 5).unwrap();
    assert_eq!(shares.len(), 5);

    for a in 0..5 {
        for b in (a + 1)..5 {
            for c in (b + 1)..5 {
                let subset = vec![shares[a].clone(), shares[b].clone(), shares[c].clone()];
                assert_eq!(combine(&subset).unwrap(), secret, "{a},{b},{c}");
            }
        }
    }
}

#[test]
fn too_few_shares_do_not_reconstruct() {
    let secret = [7u8; 32];
    let shares = split(&secret, 3, 5).unwrap();
    let subset = vec![shares[0].clone(), shares[1].clone()];
    assert_ne!(combine(&subset).unwrap(), secret);
}

#[test]
fn rejects_invalid_parameters() {
    assert!(split(&[], 2, 3).is_err());
    assert!(split(&[1, 2], 1, 3).is_err());
    assert!(split(&[1, 2], 4, 3).is_err());
    assert!(combine(&[]).is_err());
}

#[test]
fn combine_rejects_mismatched_shares() {
    let a = Share { x: 1, y: vec![1, 2] };
    let b = Share { x: 2, y: vec![3] };
    assert_eq!(combine(&[a.clone(), b]), Err(CryptoError::InvalidKeyLength));
    let zero = Share { x: 0, y: vec![1, 2] };
    assert!(combine(&[a.clone(), zero]).is_err());
    let empty = Share { x: 3, y: vec![] };
    assert!(combine(&[empty.clone(), empty]).is_err());
    // A single share is below any threshold.
    assert!(combine(&[a]).is_err());
}

#[test]
fn two_shares_of_a_line_reconstruct() {
    // f(x) = 5 + 3x over GF(256): f(1) = 5 ^ 3 = 6, f(2) = 5 ^ 6 = 3.
    let one = Share { x: 1, y: vec![6] };
    let two = Share { x: 2, y: vec![3] };
    assert_eq!(combine(&[one, two]).unwrap(), vec![5]);
}

#[test]
fn field_laws_hold_on_samples() {
    let samples = [0u8, 1, 2, 3, 0x53, 0x80, 0xCA, 0xFF];
    for &a in &samples {
        assert_eq!(gf_mul(a, 1), a);
        assert_eq!(gf_mul(a, 0), 0);
        for &b in &samples {
            assert_eq!(gf_mul(a, b), gf_mul(b, a));
            for &c in &samples {
                assert_eq!(gf_mul(gf_mul(a, b), c), gf_mul(a, gf_mul(b, c)));
                assert_eq!(gf_mul(a, b ^ c), gf_mul(a, b) ^ gf_mul(a, c));
            }
        }
    }
    // 0x53 and 0xCA are inverses in the AES field.
    assert_eq!(gf_inv(0x53), 0xCA);
}

#[test]
fn more_than_threshold_shares_reconstruct() {
    let secret = [1u8, 2, 3, 250];
    let shares = split(&secret, 3, 6).unwrap();
    assert_eq!(combine(&shares).unwrap(), secret.to_vec());
    let four = vec![shares[5].clone(), shares[0].clone(), shares[3].clone(), shares[2].clone()];
    assert_eq!(combine(&four).unwrap(), secret.to_vec());
}

#[test]
fn split_shares_have_distinct_nonzero_points() {
    let shares = split(&[9, 8, 7], 2, 4).unwrap();
    let xs: Vec<u8> = shares.iter().map(|s| s.x).collect();
    assert_eq!(xs, vec![1, 2, 3, 4]);
    assert!(shares.iter().all(|s| s.y.len() == 3));
}

// ---- stream ----

#[test]
fn small_message_is_one_chunk() {
    let key = [1u8; KEY_LEN];
    let (framing, chunks) = encrypt(&key, b"hello").unwrap();
    assert_eq!(framing.total, 1);
    assert_eq!(chunks.len(), 1);
    assert_eq!(decrypt(&key, &framing, &chunks).unwrap(), b"hello");
}

#[test]
fn large_message_round_trips() {
    let key = [1u8; KEY_LEN];
    let plaintext = vec![0x5Au8; DEFAULT_CHUNK_SIZE * 3 + 17];
    let (framing, chunks) = encrypt(&key, &plaintext).unwrap();
    assert_eq!(framing.total, 4);
    assert_eq!(decrypt(&key, &framing, &chunks).unwrap(), plaintext);
    let lens: Vec<usize> = chunks.iter().map(|c| c.len()).collect();
    assert_eq!(lens, vec![DEFAULT_CHUNK_SIZE + 16, DEFAULT_CHUNK_SIZE + 16, DEFAULT_CHUNK_SIZE + 16, 17 + 16]);
}

#[test]
fn empty_message_round_trips() {
    let key = [1u8; KEY_LEN];
    let (framing, chunks) = encrypt(&key, b"").unwrap();
    assert_eq!(framing.total, 1);
    assert!(decrypt(&key, &framing, &chunks).unwrap().is_empty());
}

#[test]
fn tampered_chunk_fails() {
    let key = [1u8; KEY_LEN];
    let (framing, mut chunks) = encrypt(&key, b"hello world").unwrap();
    chunks[0][0] ^= 0x01;
    assert_eq!(decrypt(&key, &framing, &chunks), Err(CryptoError::Decrypt));
}

#[test]
fn truncated_chunk_list_fails() {
    let key = [1u8; KEY_LEN];
    let plaintext = vec![7u8; DEFAULT_CHUNK_SIZE * 2];
    let (framing, mut chunks) = encrypt(&key, &plaintext).unwrap();
    chunks.pop();
    assert_eq!(decrypt(&key, &framing, &chunks), Err(CryptoError::Decrypt));
}

#[test]
fn chunks_open_individually_and_not_out_of_place() {
    let key = [1u8; KEY_LEN];
    let plaintext = vec![3u8; DEFAULT_CHUNK_SIZE + 5];
    let (framing, chunks) = encrypt(&key, &plaintext).unwrap();
    assert_eq!(framing.total, 2);
    assert_eq!(
        decrypt_chunk(&key, &framing, 1, &chunks[1]).unwrap(),
        vec![3u8; 5]
    );
    assert_eq!(
        decrypt_chunk(&key, &framing, 0, &chunks[1]),
        Err(CryptoError::Decrypt)
    );
    let swapped = vec![chunks[1].clone(), chunks[0].clone()];
    assert_eq!(decrypt(&key, &framing, &swapped), Err(CryptoError::Decrypt));
    assert_eq!(decrypt(&[2u8; KEY_LEN], &framing, &chunks), Err(CryptoError::Decrypt));
}

// ---- suite ----

#[test]
fn round_trips_known_id() {
    for suite in [CryptoSuite::Classical25519, CryptoSuite::Hybrid25519MlKem768] {
        assert_eq!(CryptoSuite::from_id(suite.id()), Ok(suite));
    }
}

#[test]
fn rejects_unknown_id() {
    assert_eq!(CryptoSuite::from_id(0), Err(CryptoError::UnsupportedSuite));
    assert_eq!(CryptoSuite::from_id(255), Err(CryptoError::UnsupportedSuite));
}

#[test]
fn suite_ids_are_fixed() {
    assert_eq!(CryptoSuite::Classical25519.id(), 1);
    assert_eq!(CryptoSuite::Hybrid25519MlKem768.id(), 2);
    assert_eq!(CryptoSuite::default_suite(), CryptoSuite::Classical25519);
}

// ---- hybrid ----

#[test]
fn hybrid_seal_opens_with_the_right_keypair() {
    let recipient = HybridKeypair::generate();
    let content_key = [42u8; KEY_LEN];
    let sealed = hybrid::seal(&content_key, &recipient.public()).unwrap();
    assert_eq!(recipient.open(&sealed).unwrap(), content_key);
}

#[test]
fn hybrid_seal_rejects_the_wrong_keypair() {
    let recipient = HybridKeypair::generate();
    let other = HybridKeypair::generate();
    let sealed = hybrid::seal(&[1u8; KEY_LEN], &recipient.public()).unwrap();
    assert!(other.open(&sealed).is_err());
}

#[test]
fn public_bytes_have_expected_sizes() {
    let recipient = HybridKeypair::generate();
    let public = recipient.public();
    assert_eq!(public.kem.len(), 1184);
    let sealed = hybrid::seal(&[0u8; KEY_LEN], &public).unwrap();
    assert_eq!(sealed.kem_ciphertext.len(), 1088);
}

#[test]
fn hybrid_keypair_restores_from_its_secrets() {
    let keypair = HybridKeypair::generate();
    let restored =
        HybridKeypair::from_secrets(&keypair.x25519_secret_bytes(), &keypair.kem_seed_bytes());
    assert_eq!(restored.public(), keypair.public());
    let sealed = hybrid::seal(&[8u8; KEY_LEN], &keypair.public()).unwrap();
    assert_eq!(restored.open(&sealed).unwrap(), [8u8; KEY_LEN]);
    assert_eq!(keypair.redacted(), "HybridKeypair([REDACTED])");
}

#[test]
fn hybrid_seal_rejects_a_malformed_public_key() {
    let public = HybridPublic { x25519: [1u8; 32], kem: vec![0u8; 10] };
    assert_eq!(
        hybrid::seal(&[0u8; KEY_LEN], &public),
        Err(CryptoError::InvalidPublicKey)
    );
}

#[test]
fn mixing_depends_on_both_secrets() {
    let a = mix(&[1u8; 32], &[2u8; 32]);
    assert_eq!(a, mix(&[1u8; 32], &[2u8; 32]));
    assert_ne!(a, mix(&[1u8; 32], &[3u8; 32]));
    assert_ne!(a, mix(&[4u8; 32], &[2u8; 32]));
}

// ---- hybrid signatures ----

#[test]
fn hybrid_signatures_round_trip() {
    let key = HybridSigningKey::generate();
    let signature = key.sign(b"the eagle lands at midnight").unwrap();
    hybrid_sig::verify(&key.verifying_key(), b"the eagle lands at midnight", &signature).unwrap();
}

#[test]
fn tampering_or_wrong_key_fails() {
    let key = HybridSigningKey::generate();
    let other = HybridSigningKey::generate();
    let signature = key.sign(b"message").unwrap();

    assert!(hybrid_sig::verify(&key.verifying_key(), b"tampered", &signature).is_err());
    assert!(hybrid_sig::verify(&other.verifying_key(), b"message", &signature).is_err());

    let mut broken = signature;
    broken.ed25519[0] ^= 0x01;
    assert!(hybrid_sig::verify(&key.verifying_key(), b"message", &broken).is_err());
}

#[test]
fn sizes_are_as_expected() {
    let key = HybridSigningKey::generate();
    let public = key.verifying_key();
    assert_eq!(public.ml_dsa.len(), ML_DSA_65_VK_LEN);
    let signature = key.sign(b"x").unwrap();
    assert_eq!(signature.ml_dsa.len(), ML_DSA_65_SIG_LEN);
}

#[test]
fn hybrid_signing_key_restores_and_rejects_broken_ml_dsa_part() {
    let key = HybridSigningKey::generate();
    let restored = HybridSigningKey::from_secrets(&key.ed25519_secret_bytes(), &key.ml_dsa_seed_bytes());
    assert_eq!(restored.verifying_key(), key.verifying_key());
    let mut signature = restored.sign(b"m").unwrap();
    hybrid_sig::verify(&key.verifying_key(), b"m", &signature).unwrap();
    signature.ml_dsa[10] ^= 0x01;
    assert_eq!(
        hybrid_sig::verify(&key.verifying_key(), b"m", &signature),
        Err(CryptoError::Verify)
    );
    assert_eq!(key.redacted(), "HybridSigningKey([REDACTED])");
}
