use keepstone::hybrid::HybridKeypair;
use keepstone::keys::Identity;
use keepstone::store::{
    create_drop_parts, decrypt_drop, encode_log_entry, eq_ignore_ascii_case, find_content_key,
    hybrid_public_bytes, hybrid_public_from_bytes, open_envelope, pad_and_shuffle,
    drop_mode, parse_log_entries, parse_suite, read_envelope, seal_for_recipients, select_recipients,
    signed_tree_head, verify_in_log, Contact, Store, StoreError,
};
use keepstone::types::{DropId, SealedContentKey, WrappedKey, MIN_TAGS};
use keepstone::sealed::SealedKey;

fn contact(name: &str, id: &Identity, hybrid: Option<&HybridKeypair>) -> Contact {
    Contact {
        name: name.to_owned(),
        signing: id.signing_public(),
        ecdh: id.ecdh_public(),
        hybrid: hybrid.map(|h| hybrid_public_bytes(&h.public())),
    }
}

#[test]
fn log_entries_round_trip_through_the_file_format() {
    let entries = vec![b"first".to_vec(), vec![], vec![0u8; 300]];
    let mut file = Vec::new();
    for e in &entries {
        file.extend_from_slice(&encode_log_entry(e).unwrap());
    }
    assert_eq!(&file[..4], &[0, 0, 0, 5]);
    assert_eq!(parse_log_entries(&file), entries);
    // A torn final record is ignored.
    file.extend_from_slice(&[0, 0, 0, 9, 1, 2]);
    assert_eq!(parse_log_entries(&file), entries);
    assert!(parse_log_entries(&[0, 0]).is_empty());
}

#[test]
fn hybrid_public_bytes_round_trip() {
    let keypair = HybridKeypair::generate();
    let public = keypair.public();
    let bytes = hybrid_public_bytes(&public);
    assert_eq!(bytes.len(), 32 + 1184);
    assert_eq!(hybrid_public_from_bytes(&bytes).unwrap(), public);
    assert!(matches!(hybrid_public_from_bytes(&bytes[1..]), Err(StoreError::Invalid(_))));
}

#[test]
fn suites_parse_case_insensitively() {
    assert!(!parse_suite("classical").unwrap());
    assert!(parse_suite("HyBrid").unwrap());
    assert!(matches!(parse_suite("quantum"), Err(StoreError::Invalid(_))));
    assert!(eq_ignore_ascii_case("AbC", "aBc"));
    assert!(!eq_ignore_ascii_case("abc", "abd"));
    assert!(!eq_ignore_ascii_case("abc", "ab"));
}

#[test]
fn recipients_are_resolved_by_name() {
    let alice = Identity::generate();
    let bob = Identity::generate();
    let bob_hybrid = HybridKeypair::generate();
    let contacts = vec![contact("alice", &alice, None), contact("bob", &bob, Some(&bob_hybrid))];
    let chosen = select_recipients(&contacts, &["bob".to_owned(), "alice".to_owned()], false).unwrap();
    assert_eq!(chosen.len(), 2);
    assert_eq!(chosen[0].0, bob.ecdh_public());
    assert_eq!(chosen[1].0, alice.ecdh_public());
    assert!(matches!(
        select_recipients(&contacts, &["carol".to_owned()], false),
        Err(StoreError::Invalid(_))
    ));
    // Hybrid mode needs a hybrid key for every recipient.
    assert!(select_recipients(&contacts, &["alice".to_owned()], true).is_err());
    let hybrid = select_recipients(&contacts, &["bob".to_owned()], true).unwrap();
    assert!(hybrid[0].1.is_some());
}

#[test]
fn decoys_pad_the_tag_list() {
    let mut keys: Vec<WrappedKey> = Vec::new();
    pad_and_shuffle(&mut keys);
    assert_eq!(keys.len(), MIN_TAGS);
    let recipient = Identity::generate();
    let sealed = SealedKey::seal(&[1u8; 32], &recipient.ecdh_public()).unwrap();
    let real = WrappedKey { tag: [0xAA; 8], sealed: SealedContentKey::Classical(sealed) };
    let mut keys = vec![real.clone(); MIN_TAGS + 1];
    pad_and_shuffle(&mut keys);
    assert_eq!(keys.len(), MIN_TAGS + 1);
    assert!(keys.iter().all(|k| *k == real));
}

#[test]
fn created_drop_opens_for_its_recipient_only() {
    let author = Identity::generate();
    let reader = Identity::generate();
    let stranger = Identity::generate();
    let recipients = vec![(reader.ecdh_public(), None)];
    let parts = create_drop_parts(
        &author,
        &recipients,
        false,
        b"hello store",
        "8928308280fffff".to_owned(),
        1,
        0,
        1_700_000_000,
    )
    .unwrap();
    assert_eq!(parts.body.wrapped_keys.len(), MIN_TAGS);
    assert_eq!(parts.body.expiry, 0);
    let (signed, body) = open_envelope(&parts.signed.raw).unwrap();
    assert_eq!(signed, parts.signed);
    assert_eq!(body, parts.body);
    let key = find_content_key(&body, &reader, None).unwrap();
    assert_eq!(decrypt_drop(&body, &key, &parts.chunks).unwrap(), b"hello store");
    assert!(find_content_key(&body, &stranger, None).is_err());
    assert!(matches!(
        decrypt_drop(&body, &[0u8; 32], &parts.chunks),
        Err(StoreError::Invalid(_))
    ));
    let created = parts.created(11);
    assert_eq!(created.id, DropId::of(&parts.signed.raw));
    assert_eq!(created.chunks, 1);
    assert_eq!(created.suite, 1);
}

#[test]
fn hybrid_drop_needs_the_hybrid_keypair() {
    let author = Identity::generate();
    let reader = Identity::generate();
    let keypair = HybridKeypair::generate();
    let recipients = vec![(reader.ecdh_public(), Some(hybrid_public_bytes(&keypair.public())))];
    let parts = create_drop_parts(
        &author,
        &recipients,
        true,
        b"pq",
        "8928308280fffff".to_owned(),
        0,
        60,
        100,
    )
    .unwrap();
    assert_eq!(parts.body.suite, 2);
    assert_eq!(parts.body.expiry, 160);
    let (_, body) = read_envelope(&parts.signed.raw).unwrap();
    assert!(matches!(find_content_key(&body, &reader, None), Err(StoreError::NoHybrid)));
    let key = find_content_key(&body, &reader, Some(&keypair)).unwrap();
    assert_eq!(decrypt_drop(&body, &key, &parts.chunks).unwrap(), b"pq");
}

#[test]
fn hybrid_sealing_rejects_a_missing_hybrid_key() {
    let reader = Identity::generate();
    let recipients = vec![(reader.ecdh_public(), None)];
    assert!(seal_for_recipients(&[1u8; 32], &recipients, &[2u8; 16], true).is_err());
    let keys = seal_for_recipients(&[1u8; 32], &recipients, &[2u8; 16], false).unwrap();
    assert_eq!(keys.len(), 1);
}

#[test]
fn drops_are_found_and_proven_in_the_log() {
    let author = Identity::generate();
    let log = Identity::generate();
    let a = create_drop_parts(&author, &[], false, b"a", "8928308280fffff".to_owned(), 0, 0, 1).unwrap();
    let b = create_drop_parts(&author, &[], false, b"b", "8928308280fffff".to_owned(), 0, 0, 2).unwrap();
    let entries = vec![a.signed.raw.clone(), b.signed.raw.clone()];
    let v = verify_in_log(&entries, &b.signed.id(), true, &log, 5).unwrap();
    assert!(v.signature && v.inclusion && v.sth);
    assert_eq!(v.tree_size, 2);
    assert_eq!(v.leaf_index, 1);
    let sth = signed_tree_head(&entries, &log, 5);
    assert_eq!(sth.root, v.root);
    assert_eq!(sth.tree_size, 2);
    sth.verify().unwrap();
    assert!(matches!(
        verify_in_log(&entries, &DropId::of(b"absent"), true, &log, 5),
        Err(StoreError::NotFound(_))
    ));
}

#[test]
fn garbage_envelopes_are_refused() {
    assert!(matches!(read_envelope(&[0x00]), Err(StoreError::Core(_))));
    assert!(open_envelope(&[0x80]).is_err());
    let store = Store::at("/tmp/keepstone".to_owned());
    assert_eq!(store.root(), "/tmp/keepstone");
}

#[test]
fn drop_requests_are_checked() {
    let to = vec!["me".to_owned()];
    assert!(matches!(parse_suite("quantum"), Err(StoreError::Invalid(m)) if m == "unknown suite `quantum`"));
    assert!(matches!(drop_mode(&[], "classical"), Err(StoreError::Invalid(m)) if m == "at least one recipient is required"));
    assert!(matches!(drop_mode(&to, "quantum"), Err(StoreError::Invalid(m)) if m == "unknown suite `quantum`"));
    assert_eq!(drop_mode(&to, "Hybrid").unwrap(), true);
}

#[test]
fn created_drop_has_one_slot_per_device_or_the_minimum() {
    let me = Identity::generate();
    let few: Vec<([u8; 32], Option<Vec<u8>>)> = vec![(me.ecdh_public(), None)];
    let parts = create_drop_parts(&me, &few, false, b"hi", "8928308280fffff".to_owned(), 1, 0, 5).unwrap();
    assert_eq!(parts.body.wrapped_keys.len(), MIN_TAGS);
    let many: Vec<([u8; 32], Option<Vec<u8>>)> =
        (0..MIN_TAGS + 3).map(|_| (Identity::generate().ecdh_public(), None)).collect();
    let parts = create_drop_parts(&me, &many, false, b"hi", "8928308280fffff".to_owned(), 1, 0, 5).unwrap();
    assert_eq!(parts.body.wrapped_keys.len(), MIN_TAGS + 3);
    // A hybrid drop to a device without a hybrid key fails.
    assert!(create_drop_parts(&me, &few, true, b"hi", "8928308280fffff".to_owned(), 1, 0, 5).is_err());
}
