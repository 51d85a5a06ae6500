use keepstone::keys::Identity;
use keepstone::place::{open, seal};
use keepstone::presence::{PresenceAttestation, PresenceCert, PresenceRequest};
use keepstone::sealed::SealedKey;
use keepstone::stream;

#[test]
fn place_locked_drop_requires_a_presence_certificate() {
    let _author = Identity::generate();
    let claimant = Identity::generate();

    let content_key = [9u8; 32];
    let plaintext = b"the drop is under the third bench";
    let (framing, chunks) = stream::encrypt(&content_key, plaintext).unwrap();

    let custodians: Vec<Identity> = (0..5).map(|_| Identity::generate()).collect();
    let custodian_pubs: Vec<[u8; 32]> = custodians.iter().map(Identity::ecdh_public).collect();
    let shares = seal(&content_key, &custodian_pubs, 3).unwrap();
    assert_eq!(shares.len(), 5);

    let request = PresenceRequest {
        cell: "8928308280fffff".to_owned(),
        nonce: [7u8; 16],
        claimant: claimant.signing_public(),
        expiry: 0,
    };
    let cert = PresenceCert {
        request: request.clone(),
        attestations: (0..3)
            .map(|i| {
                let witness = Identity::generate();
                PresenceAttestation::sign(&witness, &request, u8::try_from(i).unwrap(), 1_700_000_000)
            })
            .collect(),
    };
    cert.verify(3).unwrap();

    let chosen = [0usize, 2, 4];
    let available: Vec<([u8; 32], u8, SealedKey)> = chosen
        .iter()
        .map(|&i| (custodians[i].ecdh_secret_bytes(), shares[i].x, shares[i].sealed_y.clone()))
        .collect();

    let recovered = open(&available, 3).unwrap();
    assert_eq!(recovered, content_key);

    let decrypted = stream::decrypt(&recovered, &framing, &chunks).unwrap();
    assert_eq!(decrypted, plaintext);
}

#[test]
fn without_enough_shares_the_drop_stays_locked() {
    let content_key = [3u8; 32];
    let (framing, chunks) = stream::encrypt(&content_key, b"locked").unwrap();

    let custodians: Vec<Identity> = (0..5).map(|_| Identity::generate()).collect();
    let custodian_pubs: Vec<[u8; 32]> = custodians.iter().map(Identity::ecdh_public).collect();
    let shares = seal(&content_key, &custodian_pubs, 3).unwrap();

    let two: Vec<([u8; 32], u8, SealedKey)> = [0usize, 1]
        .iter()
        .map(|&i| (custodians[i].ecdh_secret_bytes(), shares[i].x, shares[i].sealed_y.clone()))
        .collect();
    assert!(open(&two, 3).is_err());

    let wrong = open(&two, 2).unwrap();
    assert!(stream::decrypt(&wrong, &framing, &chunks).is_err());
}
