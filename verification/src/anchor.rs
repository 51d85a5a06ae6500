//! External anchoring of signed tree heads.
//!
//! Anchoring commits a tree head to an **external**, append-only medium so
//! that a later equivocation is provable to third parties. The [`Anchor`]
//! trait is backend-agnostic; [`HashChainAnchor`] is a locally verifiable,
//! append-only hash chain.
use vstd::prelude::*;
use vstd::string::*;
use crate::bytes::{be_u64, bytes_eq, push_all, push_u64_be, str_eq};
use crate::hash::{sha256, sha256_spec};
use crate::merkle::hash_seq;

verus! {

/// Domain-separation context for anchor links.
pub const ANCHOR_CONTEXT: &'static str = "keepstone/v1/anchor";

/// Name of the local hash-chain backend.
pub const LOCAL_HASHCHAIN: &'static str = "local-hashchain";

/// The all-zero hash: the predecessor of the first link.
pub open spec fn genesis_spec() -> Seq<u8> {
    Seq::new(32, |i: int| 0u8)
}

/// The all-zero hash used as the predecessor of the first link.
pub fn genesis() -> (r: [u8; 32])
    ensures
        r@ == genesis_spec(),
{
    let r = [0u8; 32];
    assert(r@ =~= genesis_spec());
    r
}

/// A receipt proving a tree head was anchored.
#[derive(Clone, Debug, PartialEq, Eq)]
pub struct AnchorReceipt {
    /// Backend name (e.g. `"local-hashchain"`).
    pub anchor: String,
    /// Number of leaves at anchoring time.
    pub tree_size: u64,
    /// Merkle root that was anchored.
    pub root: [u8; 32],
    /// Unix seconds at anchoring time.
    pub anchored_at: u64,
    /// The previous link in the chain (the all-zero hash for the first).
    pub previous: [u8; 32],
    /// This link.
    pub link: [u8; 32],
}

/// The chain link binding a predecessor, a tree head and a time:
/// `SHA-256(context || previous || size || root || time)`, integers
/// big-endian.
pub open spec fn link_hash_spec(previous: Seq<u8>, tree_size: u64, root: Seq<u8>, now: u64) -> Seq<u8> {
    sha256_spec(ANCHOR_CONTEXT.spec_bytes() + previous + be_u64(tree_size) + root + be_u64(now))
}

/// Whether a receipt's link is the hash of its own fields.
pub open spec fn link_ok(receipt: AnchorReceipt) -> bool {
    receipt.link@ == link_hash_spec(receipt.previous@, receipt.tree_size, receipt.root@, receipt.anchored_at)
}

/// The link a receipt list ends on (the all-zero hash when empty).
pub open spec fn last_link(receipts: Seq<AnchorReceipt>) -> Seq<u8> {
    if receipts.len() == 0 {
        genesis_spec()
    } else {
        receipts.last().link@
    }
}

/// Whether receipts form an unbroken chain from genesis: each starts where
/// the one before it ended, and each link is well formed.
pub open spec fn chain_ok(receipts: Seq<AnchorReceipt>) -> bool {
    forall|i: int|
        0 <= i < receipts.len() ==> {
            &&& (#[trigger] receipts[i]).previous@ == last_link(receipts.take(i))
            &&& link_ok(receipts[i])
        }
}

/// A receipt chain verifies exactly when the first receipt starts from the
/// all-zero hash, every later receipt starts from the link of the one just
/// before it, and every link is the hash of its own receipt's fields; so a
/// receipt dropped, duplicated or moved breaks the chain.
pub proof fn lemma_chain_links(receipts: Seq<AnchorReceipt>)
    ensures
        chain_ok(receipts) <==> {
            &&& receipts.len() > 0 ==> receipts[0].previous@ == Seq::new(32, |k: int| 0u8)
            &&& forall|i: int| 0 < i < receipts.len() ==> #[trigger] receipts[i].previous@ == receipts[i - 1].link@
            &&& forall|i: int| 0 <= i < receipts.len() ==> #[trigger] link_ok(receipts[i])
        },
{
    if chain_ok(receipts) {
        if receipts.len() > 0 {
            assert(receipts[0].previous@ == last_link(receipts.take(0)));
            assert(genesis_spec() =~= Seq::new(32, |k: int| 0u8));
        }
        assert forall|i: int| 0 < i < receipts.len() implies #[trigger] receipts[i].previous@ == receipts[i - 1].link@ by {
            assert(receipts[i].previous@ == last_link(receipts.take(i)));
            assert(receipts.take(i).last() == receipts[i - 1]);
        }
        assert forall|i: int| 0 <= i < receipts.len() implies #[trigger] link_ok(receipts[i]) by {
            assert(receipts[i].previous@ == last_link(receipts.take(i)));
        }
    }
    if (receipts.len() > 0 ==> receipts[0].previous@ == Seq::new(32, |k: int| 0u8))
        && (forall|i: int| 0 < i < receipts.len() ==> #[trigger] receipts[i].previous@ == receipts[i - 1].link@)
        && (forall|i: int| 0 <= i < receipts.len() ==> #[trigger] link_ok(receipts[i])) {
        assert forall|i: int| 0 <= i < receipts.len() implies {
            &&& (#[trigger] receipts[i]).previous@ == last_link(receipts.take(i))
            &&& link_ok(receipts[i])
        } by {
            assert(link_ok(receipts[i]));
            if i == 0 {
                assert(genesis_spec() =~= Seq::new(32, |k: int| 0u8));
            } else {
                assert(receipts.take(i).last() == receipts[i - 1]);
                assert(receipts[i].previous@ == receipts[i - 1].link@);
            }
        }
    }
}

/// An external anchoring backend.
pub trait Anchor {
    /// The receipts this anchor's state vouches for.
    spec fn accepts(&self, receipt: AnchorReceipt) -> bool;

    /// Human-readable backend name.
    fn name(&self) -> (r: &'static str);

    /// Commit a tree head, returning a receipt that this anchor then
    /// accepts; receipts accepted before stay accepted.
    fn submit(&mut self, tree_size: u64, root: &[u8; 32], now: u64) -> (r: AnchorReceipt)
        ensures
            r.tree_size == tree_size,
            r.root == *root,
            r.anchored_at == now,
            final(self).accepts(r),
            forall|earlier: AnchorReceipt| #[trigger] old(self).accepts(earlier) ==> final(self).accepts(earlier),
    ;

    /// Verify a receipt against this anchor's state.
    fn verify(&self, receipt: &AnchorReceipt) -> (r: bool)
        ensures
            r == self.accepts(*receipt),
    ;
}

/// Compute a chain link binding the predecessor, tree head, and time.
pub fn link_hash(previous: &[u8; 32], tree_size: u64, root: &[u8; 32], now: u64) -> (r: [u8; 32])
    ensures
        r@ == link_hash_spec(previous@, tree_size, root@, now),
{
    let mut buf: Vec<u8> = Vec::new();
    push_all(&mut buf, ANCHOR_CONTEXT.as_bytes());
    push_all(&mut buf, previous.as_slice());
    push_u64_be(&mut buf, tree_size);
    push_all(&mut buf, root.as_slice());
    push_u64_be(&mut buf, now);
    sha256(buf.as_slice())
}

/// Verify a receipt's link is internally consistent (independent of chain
/// position). Chain membership is checked by [`verify_receipts`].
pub fn verify_link(receipt: &AnchorReceipt) -> (r: bool)
    ensures
        r == link_ok(*receipt),
{
    let expected = link_hash(&receipt.previous, receipt.tree_size, &receipt.root, receipt.anchored_at);
    bytes_eq(expected.as_slice(), receipt.link.as_slice())
}

/// Verify a sequence of receipts forms an unbroken chain.
pub fn verify_receipts(receipts: &[AnchorReceipt]) -> (r: bool)
    ensures
        r == chain_ok(receipts@),
{
    let mut previous: [u8; 32] = genesis();
    let mut i: usize = 0;
    while i < receipts.len()
        invariant
            i <= receipts@.len(),
            previous@ == last_link(receipts@.take(i as int)),
            chain_ok(receipts@.take(i as int)),
        decreases receipts@.len() - i,
    {
        let ok_prev = bytes_eq(receipts[i].previous.as_slice(), previous.as_slice());
        if !ok_prev || !verify_link(&receipts[i]) {
            proof {
                assert(receipts@.take(i as int) =~= receipts@.take(i as int));
                assert(!chain_ok(receipts@)) by {
                    assert(receipts@[i as int].previous@ != last_link(receipts@.take(i as int)) || !link_ok(receipts@[i as int]));
                }
            }
            return false;
        }
        proof {
            let next = receipts@.take(i + 1);
            assert forall|j: int| 0 <= j < next.len() implies {
                &&& (#[trigger] next[j]).previous@ == last_link(next.take(j))
                &&& link_ok(next[j])
            } by {
                assert(next.take(j) =~= receipts@.take(j));
                if j < i {
                    assert(receipts@.take(i as int)[j] == next[j]);
                    assert(receipts@.take(i as int).take(j) =~= receipts@.take(j));
                }
            }
        }
        previous = receipts[i].link;
        i = i + 1;
    }
    assert(receipts@.take(i as int) =~= receipts@);
    true
}

/// Extending a chain by a well-formed receipt that starts where the chain
/// ends keeps it a chain.
pub proof fn lemma_chain_extend(receipts: Seq<AnchorReceipt>, next: AnchorReceipt)
    requires
        chain_ok(receipts),
        next.previous@ == last_link(receipts),
        link_ok(next),
    ensures
        chain_ok(receipts.push(next)),
{
    let ext = receipts.push(next);
    assert forall|j: int| 0 <= j < ext.len() implies {
        &&& (#[trigger] ext[j]).previous@ == last_link(ext.take(j))
        &&& link_ok(ext[j])
    } by {
        if j < receipts.len() {
            assert(ext.take(j) =~= receipts.take(j));
            assert(ext[j] == receipts[j]);
        } else {
            assert(ext.take(j) =~= receipts);
        }
    }
}

/// A local, append-only hash-chain anchor.
#[derive(Clone, Debug)]
pub struct HashChainAnchor {
    links: Vec<[u8; 32]>,
    latest: [u8; 32],
}

impl HashChainAnchor {
    /// The committed links, in order.
    pub closed spec fn links_spec(&self) -> Seq<Seq<u8>> {
        hash_seq(self.links@)
    }

    /// The newest link (the all-zero hash when empty).
    pub closed spec fn latest_spec(&self) -> Seq<u8> {
        self.latest@
    }

    /// The newest link is the last committed one, or genesis.
    pub closed spec fn wf(&self) -> bool {
        self.latest@ == if self.links@.len() == 0 {
            genesis_spec()
        } else {
            self.links@.last()@
        }
    }

    /// Create an empty anchor.
    pub fn new() -> (r: Self)
        ensures
            r.wf(),
            r.links_spec() == Seq::<Seq<u8>>::empty(),
            r.latest_spec() == genesis_spec(),
    {
        let r = HashChainAnchor { links: Vec::new(), latest: genesis() };
        assert(r.links_spec() =~= Seq::<Seq<u8>>::empty());
        assert(r.latest@ =~= genesis_spec());
        r
    }

    /// Rebuild an anchor from previously persisted links.
    pub fn from_links(links: Vec<[u8; 32]>) -> (r: Self)
        ensures
            r.wf(),
            r.links_spec() == hash_seq(links@),
            r.latest_spec() == if links@.len() == 0 {
                genesis_spec()
            } else {
                links@.last()@
            },
    {
        let latest: [u8; 32] = if links.len() == 0 {
            genesis()
        } else {
            links[links.len() - 1]
        };
        HashChainAnchor { links, latest }
    }

    /// Number of committed links.
    pub fn len(&self) -> (r: usize)
        ensures
            r == self.links_spec().len(),
    {
        self.links.len()
    }

    /// Whether no anchors have been committed.
    pub fn is_empty(&self) -> (r: bool)
        ensures
            r == (self.links_spec().len() == 0),
    {
        self.links.len() == 0
    }

    /// All committed links.
    pub fn links(&self) -> (r: &[[u8; 32]])
        ensures
            hash_seq(r@) == self.links_spec(),
    {
        self.links.as_slice()
    }
}

fn contains_hash(links: &[[u8; 32]], h: &[u8; 32]) -> (r: bool)
    ensures
        r == hash_seq(links@).contains(h@),
{
    let mut i: usize = 0;
    while i < links.len()
        invariant
            i <= links@.len(),
            forall|j: int| 0 <= j < i ==> links@[j]@ != h@,
        decreases links@.len() - i,
    {
        if bytes_eq(links[i].as_slice(), h.as_slice()) {
            proof {
                assert(hash_seq(links@)[i as int] == h@);
            }
            return true;
        }
        i = i + 1;
    }
    proof {
        if hash_seq(links@).contains(h@) {
            let j = choose|j: int| 0 <= j < hash_seq(links@).len() && hash_seq(links@)[j] == h@;
            assert(links@[j]@ == h@);
        }
    }
    false
}

impl Anchor for HashChainAnchor {
    open spec fn accepts(&self, receipt: AnchorReceipt) -> bool {
        &&& receipt.anchor@ == LOCAL_HASHCHAIN@
        &&& link_ok(receipt)
        &&& self.links_spec().contains(receipt.link@)
    }

    fn name(&self) -> (r: &'static str)
        ensures
            r@ == LOCAL_HASHCHAIN@,
    {
        LOCAL_HASHCHAIN
    }

    fn submit(&mut self, tree_size: u64, root: &[u8; 32], now: u64) -> (r: AnchorReceipt)
        ensures
            r.anchor@ == LOCAL_HASHCHAIN@,
            r.previous@ == old(self).latest_spec(),
            link_ok(r),
            final(self).links_spec() == old(self).links_spec().push(r.link@),
            final(self).latest_spec() == r.link@,
            old(self).wf() ==> final(self).wf(),
    {
        let previous = self.latest;
        let link = link_hash(&previous, tree_size, root, now);
        let ghost before = self.links@;
        self.links.push(link);
        self.latest = link;
        proof {
            assert(hash_seq(self.links@) =~= hash_seq(before).push(link@));
            assert(hash_seq(self.links@)[before.len() as int] == link@);
            assert forall|earlier: AnchorReceipt| #[trigger] old(self).accepts(earlier) implies self.accepts(earlier) by {
                let j = choose|j: int| 0 <= j < hash_seq(before).len() && hash_seq(before)[j] == earlier.link@;
                assert(hash_seq(self.links@)[j] == earlier.link@);
            }
        }
        AnchorReceipt {
            anchor: LOCAL_HASHCHAIN.to_owned(),
            tree_size,
            root: *root,
            anchored_at: now,
            previous,
            link,
        }
    }

    fn verify(&self, receipt: &AnchorReceipt) -> (r: bool) {
        str_eq(receipt.anchor.as_str(), LOCAL_HASHCHAIN) && verify_link(receipt) && contains_hash(
            self.links.as_slice(),
            &receipt.link,
        )
    }
}

} // verus!
