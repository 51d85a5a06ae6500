use keepstone::anchor::{
    genesis, link_hash, verify_link, verify_receipts, Anchor, AnchorReceipt, HashChainAnchor,
    LOCAL_HASHCHAIN,
};
use keepstone::hash::sha256;
use keepstone::keys::Identity;
use keepstone::merkle::{
    consistency_proof, inclusion_proof, leaf_hash, mth, mth_data, node_hash, verify_consistency,
    verify_inclusion,
};
use keepstone::sth::{detect_equivocation, sth_input, SignedTreeHead};
use keepstone::error::LogError;
use sha2::{Digest, Sha256};

// ---- anchor ----

#[test]
fn chain_records_and_verifies() {
    let mut anchor = HashChainAnchor::new();
    let r0 = anchor.submit(1, &[1u8; 32], 100);
    let r1 = anchor.submit(2, &[2u8; 32], 200);
    let r2 = anchor.submit(3, &[3u8; 32], 300);

    assert_eq!(anchor.len(), 3);
    assert!(anchor.verify(&r0));
    assert!(anchor.verify(&r1));
    assert!(anchor.verify(&r2));
    assert!(verify_receipts(&[r0.clone(), r1.clone(), r2.clone()]));

    // Links chain together.
    assert_eq!(r0.previous, genesis());
    assert_eq!(r1.previous, r0.link);
    assert_eq!(r2.previous, r1.link);
}

#[test]
fn tampering_is_detected() {
    let mut anchor = HashChainAnchor::new();
    let receipt = anchor.submit(1, &[1u8; 32], 100);
    let mut bad = receipt.clone();
    bad.root = [9u8; 32];
    assert!(!verify_link(&bad));
    assert!(!anchor.verify(&bad));
    // A receipt not in the chain is rejected.
    assert!(!anchor.verify(&AnchorReceipt { link: [7u8; 32], ..receipt }));
}

#[test]
fn rebuilt_chain_preserves_membership() {
    let mut anchor = HashChainAnchor::new();
    let r0 = anchor.submit(1, &[1u8; 32], 100);
    let r1 = anchor.submit(2, &[2u8; 32], 200);
    let rebuilt = HashChainAnchor::from_links(anchor.links().to_vec());
    assert!(rebuilt.verify(&r0));
    assert!(rebuilt.verify(&r1));
}

#[test]
fn broken_chain_is_rejected() {
    let mut anchor = HashChainAnchor::new();
    let r0 = anchor.submit(1, &[1u8; 32], 100);
    let r1 = anchor.submit(2, &[2u8; 32], 200);
    // Drop the first receipt: the second no longer chains from genesis.
    assert!(!verify_receipts(&[r1.clone()]));
    assert!(verify_receipts(&[r0, r1]));
}

#[test]
fn link_hash_is_sha256_of_its_fields() {
    let previous = [1u8; 32];
    let root = [2u8; 32];
    let mut data = b"keepstone/v1/anchor".to_vec();
    data.extend_from_slice(&previous);
    data.extend_from_slice(&7u64.to_be_bytes());
    data.extend_from_slice(&root);
    data.extend_from_slice(&9u64.to_be_bytes());
    assert_eq!(link_hash(&previous, 7, &root, 9), sha256(&data));
}

#[test]
fn anchor_state_and_name() {
    let mut anchor = HashChainAnchor::new();
    assert!(anchor.is_empty());
    assert_eq!(anchor.name(), LOCAL_HASHCHAIN);
    let r = anchor.submit(5, &[5u8; 32], 50);
    assert!(!anchor.is_empty());
    assert_eq!(anchor.links(), &[r.link][..]);
    assert_eq!(r.anchor, LOCAL_HASHCHAIN);
    assert_eq!(r.tree_size, 5);
    assert_eq!(r.anchored_at, 50);
    assert!(verify_receipts(&[]));
    // A receipt from another backend name is not accepted here.
    let mut other = r.clone();
    other.anchor = "elsewhere".to_owned();
    assert!(verify_link(&other));
    assert!(!anchor.verify(&other));
}

// ---- merkle ----

fn leaves(n: usize) -> Vec<[u8; 32]> {
    (0..n).map(|i| leaf_hash(format!("entry-{i}").as_bytes())).collect()
}

#[test]
fn empty_tree_hash_matches_empty_sha256() {
    let digest = Sha256::digest([]);
    let mut expected = [0u8; 32];
    expected.copy_from_slice(&digest);
    assert_eq!(mth(&[]), expected);
}

#[test]
fn single_leaf_root_is_leaf_hash() {
    let l = leaves(1);
    assert_eq!(mth(&l), l[0]);
}

#[test]
fn inclusion_verifies_for_all_sizes_and_indices() {
    for n in 1..=64usize {
        let l = leaves(n);
        let root = mth(&l);
        for index in 0..n {
            let proof = inclusion_proof(&l, index).unwrap();
            assert!(verify_inclusion(&l[index], index, n, &proof, &root), "n={n} index={index}");
            // A wrong leaf must not verify.
            let wrong = leaf_hash(b"nope");
            assert!(!verify_inclusion(&wrong, index, n, &proof, &root));
        }
    }
}

#[test]
fn consistency_verifies_for_all_prefixes() {
    for n in 1..=48usize {
        let l = leaves(n);
        let new_root = mth(&l);
        for m in 0..=n {
            let old_root = mth(&l[..m]);
            let proof = consistency_proof(&l, m).unwrap();
            assert!(verify_consistency(m, n, &old_root, &new_root, &proof), "m={m} n={n}");
            // Wrong old root must fail.
            let wrong = leaf_hash(b"wrong");
            assert!(!verify_consistency(m, n, &wrong, &new_root, &proof));
        }
    }
}

#[test]
fn tree_hashes_follow_rfc_6962_layout() {
    let l = leaves(3);
    let expected = node_hash(&node_hash(&l[0], &l[1]), &l[2]);
    assert_eq!(mth(&l), expected);
    let mut leaf = vec![0u8];
    leaf.extend_from_slice(b"x");
    assert_eq!(leaf_hash(b"x"), sha256(&leaf));
    let mut node = vec![1u8];
    node.extend_from_slice(&l[0]);
    node.extend_from_slice(&l[1]);
    assert_eq!(node_hash(&l[0], &l[1]), sha256(&node));
    let entries = vec![b"entry-0".to_vec(), b"entry-1".to_vec(), b"entry-2".to_vec()];
    assert_eq!(mth_data(&entries), mth(&l));
}

#[test]
fn proofs_reject_out_of_range_requests() {
    let l = leaves(4);
    assert_eq!(inclusion_proof(&l, 4), Err(LogError::IndexOutOfRange));
    assert_eq!(consistency_proof(&l, 5), Err(LogError::IndexOutOfRange));
    let proof = inclusion_proof(&l, 1).unwrap();
    let root = mth(&l);
    assert!(!verify_inclusion(&l[1], 4, 4, &proof, &root));
    assert!(!verify_inclusion(&l[1], 2, 4, &proof, &root));
}

// ---- signed tree heads ----

#[test]
fn sth_signs_and_verifies() {
    let log = Identity::generate();
    let root = mth(&[leaf_hash(b"a"), leaf_hash(b"b")]);
    let sth = SignedTreeHead::sign(&log, 2, root, 1_700_000_000);
    sth.verify().unwrap();
}

#[test]
fn tampered_sth_fails() {
    let log = Identity::generate();
    let sth = SignedTreeHead::sign(&log, 1, [1u8; 32], 1);
    let mut bad = sth;
    bad.tree_size = 2;
    assert!(bad.verify().is_err());
}

#[test]
fn equivocation_is_detected() {
    let log = Identity::generate();
    let a = SignedTreeHead::sign(&log, 3, [1u8; 32], 1);
    let b = SignedTreeHead::sign(&log, 3, [2u8; 32], 2);
    assert!(detect_equivocation(&a, &b));
    let c = SignedTreeHead::sign(&log, 3, [1u8; 32], 3);
    assert!(!detect_equivocation(&a, &c));
    let d = SignedTreeHead::sign(&log, 4, [1u8; 32], 4);
    assert!(!detect_equivocation(&a, &d));
}

#[test]
fn sth_input_layout_and_error() {
    let input = sth_input(2, &[3u8; 32], 4);
    let mut expected = b"keepstone/v1/sth".to_vec();
    expected.extend_from_slice(&2u64.to_be_bytes());
    expected.extend_from_slice(&[3u8; 32]);
    expected.extend_from_slice(&4u64.to_be_bytes());
    assert_eq!(input, expected);
    let log = Identity::generate();
    let mut sth = SignedTreeHead::sign(&log, 1, [1u8; 32], 1);
    assert_eq!(sth.log_public, log.signing_public());
    sth.timestamp = 9;
    assert_eq!(sth.verify(), Err(LogError::TreeHeadInvalid));
}

#[test]
fn rebuilt_anchor_continues_from_its_last_link() {
    let mut a = HashChainAnchor::new();
    let _ = a.submit(1, &[1u8; 32], 100);
    let r1 = a.submit(2, &[2u8; 32], 200);
    let mut b = HashChainAnchor::from_links(a.links().to_vec());
    let r2 = b.submit(3, &[3u8; 32], 300);
    assert_eq!(r2.previous, r1.link);
    let mut empty = HashChainAnchor::from_links(Vec::new());
    assert_eq!(empty.submit(1, &[1u8; 32], 1).previous, genesis());
}
