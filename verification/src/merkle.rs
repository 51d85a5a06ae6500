//! RFC 6962 Merkle tree hashing, inclusion proofs, and consistency proofs.
//!
//! The log gives *tamper-evidence without consensus*: an inclusion proof shows
//! a leaf is in the tree, and a consistency proof shows a newer tree is a
//! superset of an older one.
use vstd::prelude::*;
use vstd::arithmetic::power2::*;
use crate::bytes::{bytes_eq, push_all};
use crate::error::LogError;
use crate::hash::{sha256, sha256_spec};

verus! {

/// A 32-byte SHA-256 hash.
pub type Hash = [u8; 32];

/// The byte strings held by a sequence of hashes.
pub open spec fn hash_seq(s: Seq<Hash>) -> Seq<Seq<u8>> {
    s.map_values(|h: Hash| h@)
}

/// Hash of a data entry: `SHA-256(0x00 || data)`.
pub open spec fn leaf_hash_spec(data: Seq<u8>) -> Seq<u8> {
    sha256_spec(seq![0x00u8] + data)
}

/// Hash of an internal node: `SHA-256(0x01 || left || right)`.
pub open spec fn node_hash_spec(left: Seq<u8>, right: Seq<u8>) -> Seq<u8> {
    sha256_spec(seq![0x01u8] + left + right)
}

/// Doubling `k` while it stays below half of `n`.
pub open spec fn lp2_from(n: nat, k: nat) -> nat
    decreases n - k,
{
    if k >= 1 && k < n - k {
        lp2_from(n, 2 * k)
    } else {
        k
    }
}

/// The largest power of two strictly less than `n` (for `n > 1`).
pub open spec fn split(n: nat) -> nat {
    lp2_from(n, 1)
}

/// Whether `k` is a power of two.
pub open spec fn power_of_two(k: nat) -> bool {
    exists|e: nat| pow2(e) == k
}

proof fn lemma_pow2_double(k: nat)
    requires
        power_of_two(k),
    ensures
        power_of_two(2 * k),
        k >= 1,
{
    let e = choose|e: nat| pow2(e) == k;
    lemma_pow2_unfold((e + 1) as nat);
    lemma_pow2_pos(e);
    assert(pow2((e + 1) as nat) == 2 * k);
}

proof fn lemma_pow2_gap(j: nat, k: nat)
    requires
        power_of_two(j),
        power_of_two(k),
        j < k,
    ensures
        2 * j <= k,
{
    let a = choose|e: nat| pow2(e) == j;
    let b = choose|e: nat| pow2(e) == k;
    if a >= b {
        if a > b {
            lemma_pow2_strictly_increases(b, a);
        }
        assert(false);
    }
    lemma_pow2_unfold((a + 1) as nat);
    if a + 1 < b {
        lemma_pow2_strictly_increases((a + 1) as nat, b);
    }
}

proof fn lemma_lp2_from(n: nat, k: nat)
    requires
        power_of_two(k),
        k < n,
    ensures
        k <= lp2_from(n, k) < n,
        n <= 2 * lp2_from(n, k),
        power_of_two(lp2_from(n, k)),
    decreases n - k,
{
    lemma_pow2_double(k);
    if k < n - k {
        lemma_lp2_from(n, 2 * k);
    }
}

/// For `n > 1`, the split point is a power of two in `[n/2, n)`.
pub proof fn lemma_split(n: nat)
    requires
        n > 1,
    ensures
        1 <= split(n) < n,
        n <= 2 * split(n),
        power_of_two(split(n)),
{
    lemma_pow2_auto();
    assert(pow2(0) == 1);
    lemma_lp2_from(n, 1);
}

proof fn lemma_pow2_auto()
    ensures
        pow2(0) == 1,
{
    reveal(vstd::arithmetic::power::pow);
}

proof fn lemma_lp2_unique(m: nat, j: nat, k: nat)
    requires
        power_of_two(j),
        power_of_two(k),
        j <= k,
        k < m <= 2 * k,
    ensures
        lp2_from(m, j) == k,
    decreases k - j,
{
    lemma_pow2_double(j);
    if j < k {
        lemma_pow2_gap(j, k);
        lemma_pow2_double(j);
        lemma_lp2_unique(m, 2 * j, k);
    }
}

/// Any size strictly between a split point `k` and `2k` splits at `k` too.
pub proof fn lemma_split_shared(n: nat, m: nat)
    requires
        n > 1,
        split(n) < m <= n,
    ensures
        split(m) == split(n),
{
    lemma_split(n);
    lemma_pow2_auto();
    assert(power_of_two(1)) by {
        assert(pow2(0) == 1);
    }
    lemma_lp2_unique(m, 1, split(n));
}

/// The Merkle Tree Hash of a list of leaf hashes, per RFC 6962.
pub open spec fn mth_spec(leaves: Seq<Seq<u8>>) -> Seq<u8>
    decreases leaves.len(),
{
    if leaves.len() == 0 {
        sha256_spec(Seq::empty())
    } else if leaves.len() == 1 {
        leaves[0]
    } else {
        let k = split(leaves.len());
        if 1 <= k < leaves.len() {
            node_hash_spec(mth_spec(leaves.take(k as int)), mth_spec(leaves.skip(k as int)))
        } else {
            Seq::empty()
        }
    }
}

/// The audit path for leaf `index` (RFC 6962 `PATH`), deepest sibling first.
pub open spec fn path_spec(leaves: Seq<Seq<u8>>, index: nat) -> Seq<Seq<u8>>
    decreases leaves.len(),
{
    let n = leaves.len();
    if n <= 1 {
        Seq::empty()
    } else {
        let k = split(n);
        if 1 <= k < n {
            if index < k {
                path_spec(leaves.take(k as int), index).push(mth_spec(leaves.skip(k as int)))
            } else {
                path_spec(leaves.skip(k as int), (index - k) as nat).push(
                    mth_spec(leaves.take(k as int)),
                )
            }
        } else {
            Seq::empty()
        }
    }
}

/// The root recomputed from a leaf and an audit path read from position
/// `pos` of `proof`, with the position after the last hash used.
pub open spec fn root_from_path(
    leaf: Seq<u8>,
    index: nat,
    n: nat,
    proof: Seq<Seq<u8>>,
    pos: nat,
) -> Option<(Seq<u8>, nat)>
    decreases n,
{
    if n == 0 {
        None
    } else if n == 1 {
        Some((leaf, pos))
    } else {
        let k = split(n);
        if 1 <= k < n {
            if index < k {
                match root_from_path(leaf, index, k, proof, pos) {
                    Some((left, next)) => if next < proof.len() {
                        Some((node_hash_spec(left, proof[next as int]), next + 1))
                    } else {
                        None
                    },
                    None => None,
                }
            } else {
                match root_from_path(leaf, (index - k) as nat, (n - k) as nat, proof, pos) {
                    Some((right, next)) => if next < proof.len() {
                        Some((node_hash_spec(proof[next as int], right), next + 1))
                    } else {
                        None
                    },
                    None => None,
                }
            }
        } else {
            None
        }
    }
}

/// An inclusion proof is accepted when it rebuilds `root` from `leaf` at
/// `index` of a tree of `tree_size` leaves, using every hash it holds.
pub open spec fn inclusion_holds(
    leaf: Seq<u8>,
    index: nat,
    tree_size: nat,
    proof: Seq<Seq<u8>>,
    root: Seq<u8>,
) -> bool {
    &&& index < tree_size
    &&& root_from_path(leaf, index, tree_size, proof, 0) == Some((root, proof.len()))
}

/// RFC 6962 `SUBPROOF(m, leaves, old_known)`.
pub open spec fn subproof_spec(m: nat, leaves: Seq<Seq<u8>>, old_known: bool) -> Seq<Seq<u8>>
    decreases leaves.len(),
{
    let n = leaves.len();
    if m == n {
        if old_known {
            Seq::empty()
        } else {
            seq![mth_spec(leaves)]
        }
    } else if m == 0 || m > n || n <= 1 {
        Seq::empty()
    } else {
        let k = split(n);
        if 1 <= k < n {
            if m <= k {
                subproof_spec(m, leaves.take(k as int), old_known).push(
                    mth_spec(leaves.skip(k as int)),
                )
            } else {
                subproof_spec((m - k) as nat, leaves.skip(k as int), false).push(
                    mth_spec(leaves.take(k as int)),
                )
            }
        } else {
            Seq::empty()
        }
    }
}

/// The consistency proof between the first `m` leaves and all of them.
pub open spec fn consistency_spec(leaves: Seq<Seq<u8>>, m: nat) -> Seq<Seq<u8>> {
    if m == 0 || m == leaves.len() {
        Seq::empty()
    } else {
        subproof_spec(m, leaves, true)
    }
}

/// The old and new roots recomputed from a consistency proof read from
/// position `pos`, with the position after the last hash used.
pub open spec fn subproof_roots(
    m: nat,
    n: nat,
    old_root: Seq<u8>,
    proof: Seq<Seq<u8>>,
    pos: nat,
    old_known: bool,
) -> Option<(Seq<u8>, Seq<u8>, nat)>
    decreases n,
{
    if m == n {
        if old_known {
            Some((old_root, old_root, pos))
        } else if pos < proof.len() {
            Some((proof[pos as int], proof[pos as int], pos + 1))
        } else {
            None
        }
    } else if m == 0 || m > n || n <= 1 {
        None
    } else {
        let k = split(n);
        if 1 <= k < n {
            if m <= k {
                match subproof_roots(m, k, old_root, proof, pos, old_known) {
                    Some((old, new_left, next)) => if next < proof.len() {
                        Some((old, node_hash_spec(new_left, proof[next as int]), next + 1))
                    } else {
                        None
                    },
                    None => None,
                }
            } else {
                match subproof_roots((m - k) as nat, (n - k) as nat, old_root, proof, pos, false) {
                    Some((old_right, new_right, next)) => if next < proof.len() {
                        Some(
                            (
                                node_hash_spec(proof[next as int], old_right),
                                node_hash_spec(proof[next as int], new_right),
                                next + 1,
                            ),
                        )
                    } else {
                        None
                    },
                    None => None,
                }
            }
        } else {
            None
        }
    }
}

/// A consistency proof between a tree of `m` leaves with root `old_root`
/// and a tree of `n` leaves with root `new_root` is accepted.
pub open spec fn consistency_holds(
    m: nat,
    n: nat,
    old_root: Seq<u8>,
    new_root: Seq<u8>,
    proof: Seq<Seq<u8>>,
) -> bool {
    if m > n {
        false
    } else if m == 0 {
        proof.len() == 0 && old_root == sha256_spec(Seq::empty())
    } else if m == n {
        proof.len() == 0 && old_root == new_root
    } else {
        match subproof_roots(m, n, old_root, proof, 0, true) {
            Some((old, new, used)) => used == proof.len() && old == old_root && new == new_root,
            None => false,
        }
    }
}

// ---------------------------------------------------------------------------
// Laws
// ---------------------------------------------------------------------------

proof fn lemma_root_from_path_frame(
    leaves: Seq<Seq<u8>>,
    index: nat,
    pre: Seq<Seq<u8>>,
    post: Seq<Seq<u8>>,
)
    requires
        index < leaves.len(),
    ensures
        root_from_path(
            leaves[index as int],
            index,
            leaves.len(),
            pre + path_spec(leaves, index) + post,
            pre.len(),
        ) == Some((mth_spec(leaves), pre.len() + path_spec(leaves, index).len())),
    decreases leaves.len(),
{
    let n = leaves.len();
    if n == 1 {
    } else {
        lemma_split(n);
        let k = split(n);
        let left = leaves.take(k as int);
        let right = leaves.skip(k as int);
        if index < k {
            let sub = path_spec(left, index);
            let sib = mth_spec(right);
            lemma_root_from_path_frame(left, index, pre, seq![sib] + post);
            assert(pre + path_spec(leaves, index) + post =~= pre + sub + (seq![sib] + post));
            assert(left[index as int] == leaves[index as int]);
            assert((pre + sub + (seq![sib] + post))[(pre.len() + sub.len()) as int] == sib);
        } else {
            let i2 = (index - k) as nat;
            let sub = path_spec(right, i2);
            let sib = mth_spec(left);
            lemma_root_from_path_frame(right, i2, pre, seq![sib] + post);
            assert(pre + path_spec(leaves, index) + post =~= pre + sub + (seq![sib] + post));
            assert(right[i2 as int] == leaves[index as int]);
            assert((pre + sub + (seq![sib] + post))[(pre.len() + sub.len()) as int] == sib);
        }
    }
}

/// Completeness of inclusion proofs: the audit path of any leaf verifies
/// against the tree's root.
pub proof fn lemma_inclusion_complete(leaves: Seq<Seq<u8>>, index: nat)
    requires
        index < leaves.len(),
    ensures
        inclusion_holds(
            leaves[index as int],
            index,
            leaves.len(),
            path_spec(leaves, index),
            mth_spec(leaves),
        ),
{
    let p = path_spec(leaves, index);
    lemma_root_from_path_frame(leaves, index, Seq::empty(), Seq::empty());
    assert(Seq::<Seq<u8>>::empty() + p + Seq::<Seq<u8>>::empty() =~= p);
}

proof fn lemma_subproof_frame(
    m: nat,
    leaves: Seq<Seq<u8>>,
    old_known: bool,
    old_root: Seq<u8>,
    pre: Seq<Seq<u8>>,
    post: Seq<Seq<u8>>,
)
    requires
        0 < m <= leaves.len(),
        old_known ==> old_root == mth_spec(leaves.take(m as int)),
    ensures
        subproof_roots(
            m,
            leaves.len(),
            old_root,
            pre + subproof_spec(m, leaves, old_known) + post,
            pre.len(),
            old_known,
        ) == Some(
            (
                mth_spec(leaves.take(m as int)),
                mth_spec(leaves),
                pre.len() + subproof_spec(m, leaves, old_known).len(),
            ),
        ),
    decreases leaves.len(),
{
    let n = leaves.len();
    let proof = pre + subproof_spec(m, leaves, old_known) + post;
    if m == n {
        assert(leaves.take(m as int) =~= leaves);
        if !old_known {
            assert(proof[pre.len() as int] == mth_spec(leaves));
        }
    } else {
        lemma_split(n);
        let k = split(n);
        let left = leaves.take(k as int);
        let right = leaves.skip(k as int);
        if m <= k {
            let sub = subproof_spec(m, left, old_known);
            let sib = mth_spec(right);
            assert(left.take(m as int) =~= leaves.take(m as int));
            lemma_subproof_frame(m, left, old_known, old_root, pre, seq![sib] + post);
            assert(proof =~= pre + sub + (seq![sib] + post));
            assert((pre + sub + (seq![sib] + post))[(pre.len() + sub.len()) as int] == sib);
            assert(left.len() == k);
        } else {
            let m2 = (m - k) as nat;
            let sub = subproof_spec(m2, right, false);
            let sib = mth_spec(left);
            lemma_subproof_frame(m2, right, false, old_root, pre, seq![sib] + post);
            assert(proof =~= pre + sub + (seq![sib] + post));
            assert((pre + sub + (seq![sib] + post))[(pre.len() + sub.len()) as int] == sib);
            // The old tree splits at the same point as the new one.
            let old_leaves = leaves.take(m as int);
            lemma_split_shared(n, m);
            if m > 1 {
                assert(old_leaves.take(k as int) =~= left);
                assert(old_leaves.skip(k as int) =~= right.take(m2 as int));
            }
            assert(right.len() == n - k);
        }
    }
}

/// Completeness of consistency proofs: the proof for any prefix of the log
/// verifies between the prefix's root and the whole log's root.
pub proof fn lemma_consistency_complete(leaves: Seq<Seq<u8>>, m: nat)
    requires
        m <= leaves.len(),
    ensures
        consistency_holds(
            m,
            leaves.len(),
            mth_spec(leaves.take(m as int)),
            mth_spec(leaves),
            consistency_spec(leaves, m),
        ),
{
    if m == 0 {
        assert(leaves.take(0).len() == 0);
    } else if m == leaves.len() {
        assert(leaves.take(m as int) =~= leaves);
    } else {
        let p = subproof_spec(m, leaves, true);
        lemma_subproof_frame(
            m,
            leaves,
            true,
            mth_spec(leaves.take(m as int)),
            Seq::empty(),
            Seq::empty(),
        );
        assert(Seq::<Seq<u8>>::empty() + p + Seq::<Seq<u8>>::empty() =~= p);
    }
}

// ---------------------------------------------------------------------------
// Executable tree operations
// ---------------------------------------------------------------------------

/// Hash of a data entry: `SHA-256(0x00 || data)`.
pub fn leaf_hash(data: &[u8]) -> (h: Hash)
    ensures
        h@ == leaf_hash_spec(data@),
{
    let mut buf: Vec<u8> = Vec::new();
    buf.push(0x00u8);
    push_all(&mut buf, data);
    sha256(buf.as_slice())
}

/// Hash of an internal node: `SHA-256(0x01 || left || right)`.
pub fn node_hash(left: &Hash, right: &Hash) -> (h: Hash)
    ensures
        h@ == node_hash_spec(left@, right@),
{
    let mut buf: Vec<u8> = Vec::new();
    buf.push(0x01u8);
    push_all(&mut buf, left.as_slice());
    push_all(&mut buf, right.as_slice());
    sha256(buf.as_slice())
}

fn hash_equal(a: &Hash, b: &Hash) -> (r: bool)
    ensures
        r == (a@ == b@),
{
    bytes_eq(a.as_slice(), b.as_slice())
}

/// The largest power of two strictly less than `n` (for `n > 1`).
fn largest_power_of_two_less(n: usize) -> (k: usize)
    requires
        n > 1,
    ensures
        k == split(n as nat),
        1 <= k < n,
{
    proof {
        lemma_split(n as nat);
    }
    let mut k: usize = 1;
    while k < n - k
        invariant
            1 <= k < n,
            lp2_from(n as nat, k as nat) == split(n as nat),
        decreases n - k,
    {
        k = k * 2;
    }
    k
}

proof fn lemma_hash_seq_take_skip(s: Seq<Hash>, k: int)
    requires
        0 <= k <= s.len(),
    ensures
        hash_seq(s.subrange(0, k)) == hash_seq(s).take(k),
        hash_seq(s.subrange(k, s.len() as int)) == hash_seq(s).skip(k),
        hash_seq(s).len() == s.len(),
{
    assert(hash_seq(s.subrange(0, k)) =~= hash_seq(s).take(k));
    assert(hash_seq(s.subrange(k, s.len() as int)) =~= hash_seq(s).skip(k));
}

/// The Merkle Tree Hash of `leaves` (already leaf-hashed), per RFC 6962.
pub fn mth(leaves: &[Hash]) -> (h: Hash)
    ensures
        h@ == mth_spec(hash_seq(leaves@)),
    decreases leaves@.len(),
{
    let n = leaves.len();
    if n == 0 {
        let empty: Vec<u8> = Vec::new();
        sha256(empty.as_slice())
    } else if n == 1 {
        leaves[0]
    } else {
        let k = largest_power_of_two_less(n);
        proof {
            lemma_hash_seq_take_skip(leaves@, k as int);
        }
        let left = mth(&leaves[0..k]);
        let right = mth(&leaves[k..n]);
        assert(leaves@.subrange(k as int, n as int) =~= leaves@.subrange(
            k as int,
            leaves@.len() as int,
        ));
        node_hash(&left, &right)
    }
}

/// The Merkle Tree Hash over raw data entries.
pub fn mth_data(entries: &[Vec<u8>]) -> (h: Hash)
    ensures
        h@ == mth_spec(entries@.map_values(|e: Vec<u8>| leaf_hash_spec(e@))),
{
    let mut leaves: Vec<Hash> = Vec::new();
    let mut i: usize = 0;
    while i < entries.len()
        invariant
            i <= entries@.len(),
            leaves@.len() == i,
            forall|j: int| 0 <= j < i ==> (#[trigger] leaves@[j])@ == leaf_hash_spec(entries@[j]@),
        decreases entries@.len() - i,
    {
        let h = leaf_hash(entries[i].as_slice());
        leaves.push(h);
        i = i + 1;
    }
    assert(hash_seq(leaves@) =~= entries@.map_values(|e: Vec<u8>| leaf_hash_spec(e@)));
    mth(leaves.as_slice())
}

/// Generate an inclusion proof for leaf `index` in a tree of `leaves`.
pub fn inclusion_proof(leaves: &[Hash], index: usize) -> (r: Result<Vec<Hash>, LogError>)
    ensures
        match r {
            Ok(proof) => index < leaves@.len() && hash_seq(proof@) == path_spec(
                hash_seq(leaves@),
                index as nat,
            ),
            Err(e) => index >= leaves@.len() && e == LogError::IndexOutOfRange,
        },
{
    if index >= leaves.len() {
        return Err(LogError::IndexOutOfRange);
    }
    Ok(path(leaves, index))
}

fn path(leaves: &[Hash], index: usize) -> (proof: Vec<Hash>)
    ensures
        hash_seq(proof@) == path_spec(hash_seq(leaves@), index as nat),
    decreases leaves@.len(),
{
    let n = leaves.len();
    if n <= 1 {
        let proof: Vec<Hash> = Vec::new();
        assert(hash_seq(proof@) =~= Seq::<Seq<u8>>::empty());
        return proof;
    }
    let k = largest_power_of_two_less(n);
    proof {
        lemma_hash_seq_take_skip(leaves@, k as int);
    }
    assert(leaves@.subrange(k as int, n as int) =~= leaves@.subrange(
        k as int,
        leaves@.len() as int,
    ));
    let mut proof = if index < k {
        path(&leaves[0..k], index)
    } else {
        path(&leaves[k..n], index - k)
    };
    let ghost before = proof@;
    if index < k {
        proof.push(mth(&leaves[k..n]));
    } else {
        proof.push(mth(&leaves[0..k]));
    }
    assert(hash_seq(proof@) =~= hash_seq(before).push(proof@.last()@));
    proof
}

/// Verify an inclusion proof.
pub fn verify_inclusion(
    leaf: &Hash,
    index: usize,
    tree_size: usize,
    proof: &[Hash],
    root: &Hash,
) -> (r: bool)
    ensures
        r == inclusion_holds(leaf@, index as nat, tree_size as nat, hash_seq(proof@), root@),
{
    if index >= tree_size || tree_size == 0 {
        return false;
    }
    match compute_root(leaf, index, tree_size, proof, 0) {
        Some((computed, used)) => used == proof.len() && hash_equal(&computed, root),
        None => false,
    }
}

fn compute_root(leaf: &Hash, index: usize, n: usize, proof: &[Hash], pos: usize) -> (r: Option<
    (Hash, usize),
>)
    requires
        pos <= proof@.len(),
    ensures
        match root_from_path(leaf@, index as nat, n as nat, hash_seq(proof@), pos as nat) {
            Some((h, next)) => r matches Some((rh, rn)) && rh@ == h && rn == next && rn
                <= proof@.len(),
            None => r is None,
        },
    decreases n,
{
    if n == 0 {
        return None;
    }
    if n == 1 {
        return Some((*leaf, pos));
    }
    let k = largest_power_of_two_less(n);
    if index < k {
        let (left, next) = compute_root(leaf, index, k, proof, pos)?;
        if next >= proof.len() {
            return None;
        }
        let right = proof[next];
        Some((node_hash(&left, &right), next + 1))
    } else {
        let (right, next) = compute_root(leaf, index - k, n - k, proof, pos)?;
        if next >= proof.len() {
            return None;
        }
        let left = proof[next];
        Some((node_hash(&left, &right), next + 1))
    }
}

/// Generate a consistency proof that the first `m` leaves are a prefix of the
/// tree of `leaves`.
pub fn consistency_proof(leaves: &[Hash], m: usize) -> (r: Result<Vec<Hash>, LogError>)
    ensures
        match r {
            Ok(proof) => m <= leaves@.len() && hash_seq(proof@) == consistency_spec(
                hash_seq(leaves@),
                m as nat,
            ),
            Err(e) => m > leaves@.len() && e == LogError::IndexOutOfRange,
        },
{
    if m > leaves.len() {
        return Err(LogError::IndexOutOfRange);
    }
    if m == 0 || m == leaves.len() {
        let proof: Vec<Hash> = Vec::new();
        assert(hash_seq(proof@) =~= Seq::<Seq<u8>>::empty());
        return Ok(proof);
    }
    Ok(subproof(m, leaves, true))
}

fn subproof(m: usize, leaves: &[Hash], old_known: bool) -> (proof: Vec<Hash>)
    requires
        0 < m <= leaves@.len(),
    ensures
        hash_seq(proof@) == subproof_spec(m as nat, hash_seq(leaves@), old_known),
    decreases leaves@.len(),
{
    let n = leaves.len();
    if m == n {
        let mut proof: Vec<Hash> = Vec::new();
        if !old_known {
            proof.push(mth(leaves));
        }
        assert(hash_seq(proof@) =~= subproof_spec(m as nat, hash_seq(leaves@), old_known));
        return proof;
    }
    let k = largest_power_of_two_less(n);
    proof {
        lemma_hash_seq_take_skip(leaves@, k as int);
    }
    assert(leaves@.subrange(k as int, n as int) =~= leaves@.subrange(
        k as int,
        leaves@.len() as int,
    ));
    let mut proof = if m <= k {
        subproof(m, &leaves[0..k], old_known)
    } else {
        subproof(m - k, &leaves[k..n], false)
    };
    let ghost before = proof@;
    if m <= k {
        proof.push(mth(&leaves[k..n]));
    } else {
        proof.push(mth(&leaves[0..k]));
    }
    assert(hash_seq(proof@) =~= hash_seq(before).push(proof@.last()@));
    proof
}

/// Verify a consistency proof between `old_root` (size `m`) and `new_root`
/// (size `n`).
pub fn verify_consistency(
    m: usize,
    n: usize,
    old_root: &Hash,
    new_root: &Hash,
    proof: &[Hash],
) -> (r: bool)
    ensures
        r == consistency_holds(m as nat, n as nat, old_root@, new_root@, hash_seq(proof@)),
{
    if m > n {
        return false;
    }
    if m == 0 {
        let leaves: Vec<Hash> = Vec::new();
        assert(hash_seq(leaves@) =~= Seq::<Seq<u8>>::empty());
        let empty = mth(leaves.as_slice());
        return proof.len() == 0 && hash_equal(old_root, &empty);
    }
    if m == n {
        return proof.len() == 0 && hash_equal(old_root, new_root);
    }
    match verify_subproof(m, n, old_root, proof, 0, true) {
        Some((old, new, used)) => used == proof.len() && hash_equal(&old, old_root)
            && hash_equal(&new, new_root),
        None => false,
    }
}

fn verify_subproof(
    m: usize,
    n: usize,
    old_root: &Hash,
    proof: &[Hash],
    pos: usize,
    old_known: bool,
) -> (r: Option<(Hash, Hash, usize)>)
    requires
        0 < m <= n,
        pos <= proof@.len(),
    ensures
        match subproof_roots(
            m as nat,
            n as nat,
            old_root@,
            hash_seq(proof@),
            pos as nat,
            old_known,
        ) {
            Some((o, nw, next)) => r matches Some((ro, rn, rnext)) && ro@ == o && rn@ == nw
                && rnext == next && rnext <= proof@.len(),
            None => r is None,
        },
    decreases n,
{
    if m == n {
        if old_known {
            return Some((*old_root, *old_root, pos));
        }
        if pos >= proof.len() {
            return None;
        }
        let h = proof[pos];
        return Some((h, h, pos + 1));
    }
    let k = largest_power_of_two_less(n);
    if m <= k {
        let (old, new_left, next) = verify_subproof(m, k, old_root, proof, pos, old_known)?;
        if next >= proof.len() {
            return None;
        }
        let right = proof[next];
        Some((old, node_hash(&new_left, &right), next + 1))
    } else {
        let (old_right, new_right, next) = verify_subproof(
            m - k,
            n - k,
            old_root,
            proof,
            pos,
            false,
        )?;
        if next >= proof.len() {
            return None;
        }
        let left = proof[next];
        Some((node_hash(&left, &old_right), node_hash(&left, &new_right), next + 1))
    }
}

} // verus!
