use keepstone::address::CellId;
use keepstone::keys::Identity;
use keepstone::place::{open, seal};
use keepstone::pow::{self, digest, is_valid, leading_zero_bits, mine, mine_within, POW_DIFFICULTY_BITS};
use keepstone::presence::{PresenceAttestation, PresenceCert, PresenceRequest};
use keepstone::sealed::SealedKey;
use keepstone::suite::CryptoSuite;
use keepstone::types::{
    content_root, DropBody, DropId, Mode, SealedContentKey, SignedDrop, WrappedKey,
    PROTOCOL_VERSION,
};
use keepstone::error::CoreError;

fn cell_at(lat: f64, lng: f64) -> CellId {
    let index = h3o::LatLng::new(lat, lng).unwrap().to_cell(h3o::Resolution::Nine);
    CellId::from_index(u64::from(index)).unwrap()
}

// ---- address ----

#[test]
fn cell_round_trips_through_hex() {
    let cell = cell_at(51.5007, -0.1246);
    let parsed = CellId::parse_hex(&cell.to_hex()).unwrap();
    assert_eq!(cell, parsed);
    assert_eq!(cell.resolution(), 9);
}

#[test]
fn ring_contains_center_and_neighbors() {
    let cell = cell_at(48.8584, 2.2945);
    let ring = cell.ring(1);
    assert_eq!(ring.len(), 7);
    assert!(ring.contains(&cell));
    assert!(cell.is_in(&ring));
}

#[test]
fn invalid_cells_are_rejected() {
    assert!(matches!(CellId::from_index(0), Err(CoreError::Cell(_))));
    assert!(matches!(CellId::parse_hex("not a cell"), Err(CoreError::Cell(_))));
    let cell = CellId::parse_hex("8928308280fffff").unwrap();
    assert_eq!(cell.index(), 0x8928308280fffff);
    assert_eq!(cell.to_hex(), "8928308280fffff");
    let far = cell_at(-33.8568, 151.2153);
    assert!(!far.is_in(&cell.ring(2)));
}

// ---- pow ----

#[test]
fn leading_zero_bits_are_counted() {
    assert_eq!(leading_zero_bits(&[0u8; 32]), 256);
    let mut a = [0u8; 32];
    a[1] = 0x0F;
    assert_eq!(leading_zero_bits(&a), 12);
    let mut b = [0u8; 32];
    b[0] = 0x80;
    assert_eq!(leading_zero_bits(&b), 0);
}

#[test]
fn mined_nonce_verifies() {
    let signer = [1u8; 32];
    let root = [2u8; 32];
    let nonce_field = [3u8; 16];
    let nonce = mine(&signer, &root, &nonce_field);
    assert!(is_valid(&signer, &root, &nonce_field, nonce));
    // A different signer's work does not transfer.
    assert!(!is_valid(&[9u8; 32], &root, &nonce_field, nonce));
}

#[test]
fn mining_finds_the_least_nonce() {
    let signer = [1u8; 32];
    let root = [2u8; 32];
    let nonce_field = [3u8; 16];
    let nonce = mine(&signer, &root, &nonce_field);
    for m in 0..nonce {
        assert!(!is_valid(&signer, &root, &nonce_field, m));
    }
    assert!(leading_zero_bits(&digest(&signer, &root, &nonce_field, nonce)) >= POW_DIFFICULTY_BITS);
    assert_eq!(mine_within(&signer, &root, &nonce_field, nonce + 1), Some(nonce));
    assert_eq!(mine_within(&signer, &root, &nonce_field, nonce), None);
}

#[test]
fn pow_digest_is_sha256_of_its_preimage() {
    let mut pre = b"keepstone/v1/pow".to_vec();
    pre.extend_from_slice(&[1u8; 32]);
    pre.extend_from_slice(&[2u8; 32]);
    pre.extend_from_slice(&[3u8; 16]);
    pre.extend_from_slice(&5u64.to_be_bytes());
    assert_eq!(
        digest(&[1u8; 32], &[2u8; 32], &[3u8; 16], 5),
        keepstone::hash::sha256(&pre)
    );
}

// ---- presence ----

fn request(cell: &str, expiry: u64) -> PresenceRequest {
    PresenceRequest {
        cell: cell.to_owned(),
        nonce: [1u8; 16],
        claimant: Identity::generate().signing_public(),
        expiry,
    }
}

fn cert(request: &PresenceRequest, witnesses: usize) -> PresenceCert {
    let attestations = (0..witnesses)
        .map(|i| {
            let witness = Identity::generate();
            PresenceAttestation::sign(&witness, request, u8::try_from(i).unwrap(), 1_700_000_000)
        })
        .collect();
    PresenceCert { request: request.clone(), attestations }
}

#[test]
fn threshold_certificate_verifies() {
    let request = request("8928308280fffff", 0);
    let cert = cert(&request, 3);
    cert.verify(3).unwrap();
    assert_eq!(cert.witness_count(), 3);
}

#[test]
fn too_few_witnesses_fail() {
    let request = request("8928308280fffff", 0);
    let cert = cert(&request, 2);
    assert!(cert.verify(3).is_err());
}

#[test]
fn duplicate_witness_is_rejected() {
    let request = request("8928308280fffff", 0);
    let witness = Identity::generate();
    let one = PresenceAttestation::sign(&witness, &request, 0, 10);
    let duplicate = PresenceAttestation::sign(&witness, &request, 1, 11);
    let cert = PresenceCert { request, attestations: vec![one, duplicate] };
    assert!(cert.verify(2).is_err());
}

#[test]
fn attestations_round_trip_and_detect_tampering() {
    let request = request("8928308280fffff", 0);
    let witness = Identity::generate();
    let attestation = PresenceAttestation::sign(&witness, &request, 2, 99);
    let bytes = attestation.to_canonical();
    assert_eq!(PresenceAttestation::from_canonical(&bytes).unwrap(), attestation);

    let mut tampered = attestation;
    tampered.rtt_bucket = 9;
    assert!(tampered.verify().is_err());
}

#[test]
fn expired_certificate_fails_at_time_check() {
    let request = request("8928308280fffff", 100);
    let cert = cert(&request, 3);
    assert!(cert.verify_at(3, 50).is_ok());
    assert!(cert.verify_at(3, 200).is_err());
}

#[test]
fn mismatched_cell_is_rejected() {
    let request = request("8928308280fffff", 0);
    let witness = Identity::generate();
    let mut attestation = PresenceAttestation::sign(&witness, &request, 0, 1);
    attestation.cell = "different".to_owned();
    let cert = PresenceCert { request, attestations: vec![attestation] };
    assert!(cert.verify(1).is_err());
}

#[test]
fn requests_round_trip_canonically() {
    let request = request("8928308280fffff", 77);
    let bytes = request.to_canonical();
    assert_eq!(PresenceRequest::from_canonical(&bytes).unwrap(), request);
    let mut trailing = bytes.clone();
    trailing.push(0);
    assert!(matches!(PresenceRequest::from_canonical(&trailing), Err(CoreError::Cbor(_))));
    assert!(PresenceAttestation::from_canonical(&bytes).is_err());
}

#[test]
fn certificate_faults_are_reported_in_order() {
    let request = request("8928308280fffff", 0);
    let good = cert(&request, 2);
    assert!(matches!(good.verify(0), Err(CoreError::Invalid(_))));
    let mut bad_sig = good.clone();
    bad_sig.attestations[1].signature[0] ^= 1;
    assert!(matches!(bad_sig.verify(2), Err(CoreError::Verify)));
    let mut wrong_nonce = good.clone();
    wrong_nonce.attestations[0].nonce = [9u8; 16];
    assert!(matches!(wrong_nonce.verify(2), Err(CoreError::Invalid(_))));
    // An expiry of zero never expires.
    assert!(good.verify_at(2, u64::MAX).is_ok());
}

// ---- types ----

fn sample_body() -> DropBody {
    DropBody {
        version: PROTOCOL_VERSION,
        suite: CryptoSuite::Classical25519.id(),
        cell: "8928308280fffff".to_owned(),
        ring: 2,
        created_at: 1_700_000_000,
        expiry: 0,
        mode: Mode::Capability.id(),
        chunk_size: 65536,
        chunk_count: 1,
        content_root: [9u8; 32],
        prefix: [7u8; 20],
        drop_nonce: [5u8; 16],
        pow_nonce: 0,
        wrapped_keys: vec![],
    }
}

#[test]
fn body_round_trips_canonically() {
    let body = sample_body();
    let bytes = body.to_canonical();
    assert_eq!(DropBody::from_canonical(&bytes).unwrap(), body);
}

#[test]
fn body_with_wrapped_keys_round_trips() {
    let recipient = Identity::generate();
    let sealed = SealedKey::seal(&[1u8; 32], &recipient.ecdh_public()).unwrap();
    let mut body = sample_body();
    body.wrapped_keys = vec![
        WrappedKey { tag: [1u8; 8], sealed: SealedContentKey::Classical(sealed.clone()) },
        WrappedKey { tag: [2u8; 8], sealed: SealedContentKey::Classical(sealed) },
    ];
    let bytes = body.to_canonical();
    assert_eq!(DropBody::from_canonical(&bytes).unwrap(), body);
    let mut extended = bytes.clone();
    extended.push(0x00);
    assert!(DropBody::from_canonical(&extended).is_err());
    assert!(DropBody::from_canonical(&bytes[..bytes.len() - 1]).is_err());
}

#[test]
fn signed_drop_verifies_and_hashes_exact_bytes() {
    let identity = Identity::generate();
    let drop = SignedDrop::sign(&identity, &sample_body());
    drop.verify().unwrap();
    assert_eq!(drop.id(), DropId::of(&drop.raw));

    let decoded = SignedDrop::decode(&drop.raw).unwrap();
    assert_eq!(decoded, drop);
    decoded.verify().unwrap();
    assert_eq!(decoded.id(), drop.id());
    assert_eq!(decoded.body().unwrap(), sample_body());
}

#[test]
fn tampered_payload_fails_verification() {
    let identity = Identity::generate();
    let mut drop = SignedDrop::sign(&identity, &sample_body());
    drop.payload.push(0x00);
    assert!(drop.verify().is_err());
}

#[test]
fn content_root_is_order_sensitive() {
    let a = vec![vec![1u8, 2, 3], vec![4u8, 5]];
    let b = vec![vec![4u8, 5], vec![1u8, 2, 3]];
    assert_ne!(content_root(&a), content_root(&b));
}

#[test]
fn pow_binds_to_signer() {
    let signer = [3u8; 32];
    let body = sample_body();
    let nonce = pow::mine(&signer, &body.content_root, &body.drop_nonce);
    let mut mined = body;
    mined.pow_nonce = nonce;
    assert!(mined.pow_ok(&signer));
    assert!(!mined.pow_ok(&[4u8; 32]));
}

#[test]
fn drop_ids_and_modes_round_trip_through_text() {
    let id = DropId::of(b"drop");
    assert_eq!(DropId::from_hex(&id.to_hex()).unwrap(), id);
    assert_eq!(id.to_hex(), hex::encode(id.as_bytes()));
    assert!(DropId::from_hex("abcd").is_err());
    assert!(DropId::from_hex("zz").is_err());
    assert_eq!(Mode::from_id(Mode::PlaceLocked.id()).unwrap(), Mode::PlaceLocked);
    assert_eq!(Mode::Capability.id(), 0);
    assert!(Mode::from_id(9).is_err());
}

#[test]
fn decode_rejects_garbage_envelopes() {
    assert!(SignedDrop::decode(&[0xFF]).is_err());
    let identity = Identity::generate();
    let drop = SignedDrop::sign(&identity, &sample_body());
    let mut raw = drop.raw.clone();
    raw.push(0);
    assert!(SignedDrop::decode(&raw).is_err());
}

// ---- place ----

#[test]
fn threshold_of_custodians_reconstructs() {
    let content_key = [42u8; 32];
    let custodians: Vec<Identity> = (0..5).map(|_| Identity::generate()).collect();
    let pubs: Vec<[u8; 32]> = custodians.iter().map(Identity::ecdh_public).collect();

    let shares = seal(&content_key, &pubs, 3).unwrap();
    assert_eq!(shares.len(), 5);

    let available: Vec<([u8; 32], u8, SealedKey)> = [0usize, 2, 4]
        .iter()
        .map(|&i| (custodians[i].ecdh_secret_bytes(), shares[i].x, shares[i].sealed_y.clone()))
        .collect();
    assert_eq!(open(&available, 3).unwrap(), content_key);
}

#[test]
fn too_few_shares_are_refused_or_wrong() {
    let content_key = [7u8; 32];
    let custodians: Vec<Identity> = (0..5).map(|_| Identity::generate()).collect();
    let pubs: Vec<[u8; 32]> = custodians.iter().map(Identity::ecdh_public).collect();
    let shares = seal(&content_key, &pubs, 3).unwrap();

    let two: Vec<([u8; 32], u8, SealedKey)> = [0usize, 1]
        .iter()
        .map(|&i| (custodians[i].ecdh_secret_bytes(), shares[i].x, shares[i].sealed_y.clone()))
        .collect();
    assert!(open(&two, 3).is_err());
    assert_ne!(open(&two, 2).unwrap(), content_key);
}

#[test]
fn a_wrong_custodian_cannot_open_a_share() {
    let content_key = [1u8; 32];
    let custodian = Identity::generate();
    let other = Identity::generate();
    let shares = seal(&content_key, &[custodian.ecdh_public()], 2);
    assert!(shares.is_err());

    let shares = seal(&content_key, &[custodian.ecdh_public(), other.ecdh_public()], 2).unwrap();
    let opened = shares[0].sealed_y.open(&other.ecdh_secret_bytes());
    assert!(opened.is_err());
}

#[test]
fn place_sealing_rejects_empty_custodians_and_bad_thresholds() {
    assert!(matches!(seal(&[1u8; 32], &[], 2), Err(CoreError::Invalid(_))));
    let pubs = [[1u8; 32], [2u8; 32]];
    assert!(seal(&[1u8; 32], &pubs, 1).is_err());
    assert!(seal(&[1u8; 32], &pubs, 3).is_err());
    let shares = seal(&[1u8; 32], &pubs, 2).unwrap();
    assert_eq!(shares[0].custodian, pubs[0]);
    assert_eq!(shares[1].x, 2);
}

#[test]
fn witness_count_counts_distinct_witnesses() {
    let request = request("8928308280fffff", 0);
    let witness = Identity::generate();
    let one = PresenceAttestation::sign(&witness, &request, 0, 10);
    let again = PresenceAttestation::sign(&witness, &request, 1, 11);
    let other = PresenceAttestation::sign(&Identity::generate(), &request, 2, 12);
    let cert = PresenceCert { request, attestations: vec![one, again, other] };
    assert_eq!(cert.witness_count(), 2);
}

#[test]
fn certificate_errors_carry_their_messages() {
    let request = request("8928308280fffff", 100);
    let cert = cert(&request, 3);
    assert!(matches!(cert.verify(4), Err(CoreError::Invalid("insufficient attestations"))));
    assert!(matches!(cert.verify(0), Err(CoreError::Invalid("insufficient attestations"))));
    assert!(matches!(cert.verify_at(3, 200), Err(CoreError::Invalid("presence request expired"))));
    assert!(cert.verify_at(3, 100).is_ok());
    assert!(matches!(Mode::from_id(2), Err(CoreError::Invalid("unknown mode"))));
}
