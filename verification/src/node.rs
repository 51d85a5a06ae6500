//! Node abstractions: clock, storage, and delivery traits, with in-memory
//! implementations.
use vstd::prelude::*;
use crate::bytes::bytes_eq;
use crate::types::DropId;

verus! {

/// Errors from node operations.
#[derive(Clone, Copy, Debug, PartialEq, Eq)]
pub enum NodeError {
    /// The requested item was not found.
    NotFound,
    /// A peer sent a malformed or oversized message.
    Protocol(&'static str),
}

/// A source of wall-clock time. Injected so tests are deterministic.
pub trait Clock {
    /// Current Unix time in seconds.
    fn now_unix(&self) -> (r: u64);
}

/// Seconds since the Unix epoch on this machine's clock (zero if the clock
/// is before the epoch).
///
/// Calls `std::time::SystemTime::now` and `duration_since(UNIX_EPOCH)`; the
/// time is not stated.
#[verifier::external_body]
fn system_now_unix() -> (r: u64) {
    std::time::SystemTime::now()
        .duration_since(std::time::UNIX_EPOCH)
        .map(|d| d.as_secs())
        .unwrap_or(0)
}

/// The real system clock.
#[derive(Debug, Default, Clone, Copy)]
pub struct SystemClock;

impl Clock for SystemClock {
    fn now_unix(&self) -> (r: u64) {
        system_now_unix()
    }
}

/// A fixed clock for tests.
#[derive(Debug, Clone, Copy)]
pub struct FixedClock(pub u64);

impl Clock for FixedClock {
    fn now_unix(&self) -> (r: u64)
        ensures
            r == self.0,
    {
        self.0
    }
}

/// The map that an association list stands for: later entries win.
pub open spec fn assoc_map<K, V>(s: Seq<(K, V)>) -> Map<K, V>
    decreases s.len(),
{
    if s.len() == 0 {
        Map::empty()
    } else {
        assoc_map(s.drop_last()).insert(s.last().0, s.last().1)
    }
}

/// No key occurs twice.
pub open spec fn unique_keys<K, V>(s: Seq<(K, V)>) -> bool {
    forall|i: int, j: int| 0 <= i < j < s.len() ==> (#[trigger] s[i]).0 != (#[trigger] s[j]).0
}

/// The keys of an association list are exactly its map's domain, each with
/// the value stored at it.
pub proof fn lemma_assoc_get<K, V>(s: Seq<(K, V)>, k: K)
    requires
        unique_keys(s),
    ensures
        assoc_map(s).dom().contains(k) <==> exists|i: int| 0 <= i < s.len() && (#[trigger] s[i]).0 == k,
        forall|i: int| 0 <= i < s.len() && (#[trigger] s[i]).0 == k ==> assoc_map(s)[k] == s[i].1,
    decreases s.len(),
{
    if s.len() > 0 {
        let init = s.drop_last();
        assert(unique_keys(init)) by {
            assert forall|i: int, j: int| 0 <= i < j < init.len() implies (#[trigger] init[i]).0 != (#[trigger] init[j]).0 by {
                assert(init[i] == s[i] && init[j] == s[j]);
            }
        }
        lemma_assoc_get(init, k);
        if s.last().0 != k {
            assert forall|i: int| 0 <= i < s.len() && (#[trigger] s[i]).0 == k implies assoc_map(s)[k] == s[i].1 by {
                assert(i < s.len() - 1);
                assert(init[i] == s[i]);
            }
            if exists|i: int| 0 <= i < s.len() && (#[trigger] s[i]).0 == k {
                let i = choose|i: int| 0 <= i < s.len() && (#[trigger] s[i]).0 == k;
                assert(init[i] == s[i]);
            }
            if exists|i: int| 0 <= i < init.len() && (#[trigger] init[i]).0 == k {
                let i = choose|i: int| 0 <= i < init.len() && (#[trigger] init[i]).0 == k;
                assert(init[i] == s[i]);
            }
        } else {
            assert(s[s.len() - 1].0 == k);
            assert forall|i: int| 0 <= i < s.len() && (#[trigger] s[i]).0 == k implies assoc_map(s)[k] == s[i].1 by {
                if i < s.len() - 1 {
                    assert(s[i].0 != s[s.len() - 1].0);
                }
            }
        }
    }
}

/// Replacing the value at an existing key updates the map at that key.
pub proof fn lemma_assoc_update<K, V>(s: Seq<(K, V)>, i: int, v: V)
    requires
        unique_keys(s),
        0 <= i < s.len(),
    ensures
        unique_keys(s.update(i, (s[i].0, v))),
        assoc_map(s.update(i, (s[i].0, v))) == assoc_map(s).insert(s[i].0, v),
{
    let t = s.update(i, (s[i].0, v));
    assert(unique_keys(t)) by {
        assert forall|a: int, b: int| 0 <= a < b < t.len() implies (#[trigger] t[a]).0 != (#[trigger] t[b]).0 by {
            assert(t[a].0 == s[a].0 && t[b].0 == s[b].0);
        }
    }
    assert forall|k: K| #![auto] assoc_map(t).dom().contains(k) <==> assoc_map(s).insert(s[i].0, v).dom().contains(k) by {
        lemma_assoc_get(t, k);
        lemma_assoc_get(s, k);
        if exists|j: int| 0 <= j < s.len() && (#[trigger] s[j]).0 == k {
            let j = choose|j: int| 0 <= j < s.len() && (#[trigger] s[j]).0 == k;
            assert(t[j].0 == k);
        }
        if exists|j: int| 0 <= j < t.len() && (#[trigger] t[j]).0 == k {
            let j = choose|j: int| 0 <= j < t.len() && (#[trigger] t[j]).0 == k;
            assert(s[j].0 == k);
        }
        if k == s[i].0 {
            assert(s[i].0 == k);
        }
    }
    assert forall|k: K| #![auto] assoc_map(t).dom().contains(k) implies assoc_map(t)[k] == assoc_map(s).insert(s[i].0, v)[k] by {
        lemma_assoc_get(t, k);
        lemma_assoc_get(s, k);
        let j = choose|j: int| 0 <= j < t.len() && (#[trigger] t[j]).0 == k;
        assert(s[j].0 == k);
        if j == i {
            assert(t[j].1 == v);
        } else {
            assert(t[j] == s[j]);
            assert(k != s[i].0);
        }
    }
    assert(assoc_map(t) =~= assoc_map(s).insert(s[i].0, v));
}

/// Appending a fresh key inserts it.
pub proof fn lemma_assoc_push_fresh<K, V>(s: Seq<(K, V)>, k: K, v: V)
    requires
        unique_keys(s),
        forall|i: int| 0 <= i < s.len() ==> (#[trigger] s[i]).0 != k,
    ensures
        unique_keys(s.push((k, v))),
        assoc_map(s.push((k, v))) == assoc_map(s).insert(k, v),
{
    let t = s.push((k, v));
    assert(t.drop_last() =~= s);
    assert forall|a: int, b: int| 0 <= a < b < t.len() implies (#[trigger] t[a]).0 != (#[trigger] t[b]).0 by {
        if b < s.len() {
            assert(t[a] == s[a] && t[b] == s[b]);
        } else {
            assert(t[a] == s[a]);
        }
    }
}


/// With no key twice, the map has as many keys as the list has entries.
pub proof fn lemma_assoc_len<K, V>(s: Seq<(K, V)>)
    requires
        unique_keys(s),
    ensures
        assoc_map(s).dom().finite(),
        assoc_map(s).dom().len() == s.len(),
    decreases s.len(),
{
    if s.len() > 0 {
        let init = s.drop_last();
        assert(unique_keys(init)) by {
            assert forall|i: int, j: int| 0 <= i < j < init.len() implies (#[trigger] init[i]).0 != (#[trigger] init[j]).0 by {
                assert(init[i] == s[i] && init[j] == s[j]);
            }
        }
        lemma_assoc_len(init);
        lemma_assoc_get(init, s.last().0);
        if exists|i: int| 0 <= i < init.len() && (#[trigger] init[i]).0 == s.last().0 {
            let i = choose|i: int| 0 <= i < init.len() && (#[trigger] init[i]).0 == s.last().0;
            assert(init[i] == s[i]);
            assert(s[i].0 != s[s.len() - 1].0);
        }
    }
}

/// Storage for drops and their ciphertext chunks.
pub trait Storage {
    /// The store's internal invariant.
    spec fn wf(&self) -> bool;

    /// The stored envelopes, by drop id.
    spec fn drops(&self) -> Map<Seq<u8>, Seq<u8>>;

    /// The stored chunks, by drop id and chunk index.
    spec fn chunks(&self) -> Map<(Seq<u8>, u32), Seq<u8>>;

    /// Store a signed drop envelope (replacing any earlier one).
    fn put_drop(&mut self, id: DropId, bytes: Vec<u8>)
        requires
            old(self).wf(),
        ensures
            final(self).wf(),
            final(self).drops() == old(self).drops().insert(id.0@, bytes@),
            final(self).chunks() == old(self).chunks(),
    ;

    /// Fetch a signed drop envelope.
    fn get_drop(&self, id: &DropId) -> (r: Option<&[u8]>)
        requires
            self.wf(),
        ensures
            match r {
                Some(b) => self.drops().dom().contains(id.0@) && b@ == self.drops()[id.0@],
                None => !self.drops().dom().contains(id.0@),
            },
    ;

    /// Store one ciphertext chunk (replacing any earlier one).
    fn put_chunk(&mut self, id: DropId, index: u32, bytes: Vec<u8>)
        requires
            old(self).wf(),
        ensures
            final(self).wf(),
            final(self).chunks() == old(self).chunks().insert((id.0@, index), bytes@),
            final(self).drops() == old(self).drops(),
    ;

    /// Fetch one ciphertext chunk.
    fn get_chunk(&self, id: &DropId, index: u32) -> (r: Option<&[u8]>)
        requires
            self.wf(),
        ensures
            match r {
                Some(b) => self.chunks().dom().contains((id.0@, index)) && b@ == self.chunks()[(
                    id.0@,
                    index,
                )],
                None => !self.chunks().dom().contains((id.0@, index)),
            },
    ;

    /// List chunk indices held for a drop, ascending.
    fn chunk_indices(&self, id: &DropId) -> (r: Vec<u32>)
        requires
            self.wf(),
        ensures
            forall|a: int, b: int| 0 <= a < b < r@.len() ==> r@[a] < r@[b],
            forall|i: u32| #[trigger] r@.contains(i) <==> self.chunks().dom().contains((id.0@, i)),
    ;
}

/// An in-memory [`Storage`] implementation.
#[derive(Debug, Default)]
pub struct MemoryStore {
    drops: Vec<(DropId, Vec<u8>)>,
    chunks: Vec<(DropId, u32, Vec<u8>)>,
}

impl MemoryStore {
    /// The envelopes as an association list of views.
    pub closed spec fn drop_entries(&self) -> Seq<(Seq<u8>, Seq<u8>)> {
        self.drops@.map_values(|e: (DropId, Vec<u8>)| (e.0.0@, e.1@))
    }

    /// The chunks as an association list of views.
    pub closed spec fn chunk_entries(&self) -> Seq<((Seq<u8>, u32), Seq<u8>)> {
        self.chunks@.map_values(|e: (DropId, u32, Vec<u8>)| ((e.0.0@, e.1), e.2@))
    }

    /// Create an empty store.
    pub fn new() -> (r: Self)
        ensures
            r.wf(),
            r.drops() == Map::<Seq<u8>, Seq<u8>>::empty(),
            r.chunks() == Map::<(Seq<u8>, u32), Seq<u8>>::empty(),
    {
        let r = MemoryStore { drops: Vec::new(), chunks: Vec::new() };
        assert(r.drop_entries() =~= Seq::<(Seq<u8>, Seq<u8>)>::empty());
        assert(r.chunk_entries() =~= Seq::<((Seq<u8>, u32), Seq<u8>)>::empty());
        r
    }

    fn find_drop(&self, id: &DropId) -> (r: Option<usize>)
        ensures
            match r {
                Some(i) => i < self.drops@.len() && self.drop_entries()[i as int].0 == id.0@,
                None => forall|i: int| 0 <= i < self.drops@.len() ==> (#[trigger] self.drop_entries()[i]).0 != id.0@,
            },
    {
        let mut i: usize = 0;
        while i < self.drops.len()
            invariant
                i <= self.drops@.len(),
                forall|j: int| 0 <= j < i ==> (#[trigger] self.drop_entries()[j]).0 != id.0@,
            decreases self.drops@.len() - i,
        {
            if bytes_eq(self.drops[i].0.0.as_slice(), id.0.as_slice()) {
                return Some(i);
            }
            i = i + 1;
        }
        None
    }

    fn find_chunk(&self, id: &DropId, index: u32) -> (r: Option<usize>)
        ensures
            match r {
                Some(i) => i < self.chunks@.len() && self.chunk_entries()[i as int].0 == (id.0@, index),
                None => forall|i: int| 0 <= i < self.chunks@.len() ==> (#[trigger] self.chunk_entries()[i]).0 != (id.0@, index),
            },
    {
        let mut i: usize = 0;
        while i < self.chunks.len()
            invariant
                i <= self.chunks@.len(),
                forall|j: int| 0 <= j < i ==> (#[trigger] self.chunk_entries()[j]).0 != (id.0@, index),
            decreases self.chunks@.len() - i,
        {
            if self.chunks[i].1 == index && bytes_eq(self.chunks[i].0.0.as_slice(), id.0.as_slice()) {
                return Some(i);
            }
            i = i + 1;
        }
        None
    }
}

impl Storage for MemoryStore {
    open spec fn wf(&self) -> bool {
        unique_keys(self.drop_entries()) && unique_keys(self.chunk_entries())
    }

    open spec fn drops(&self) -> Map<Seq<u8>, Seq<u8>> {
        assoc_map(self.drop_entries())
    }

    open spec fn chunks(&self) -> Map<(Seq<u8>, u32), Seq<u8>> {
        assoc_map(self.chunk_entries())
    }

    fn put_drop(&mut self, id: DropId, bytes: Vec<u8>) {
        let ghost before = self.drop_entries();
        let ghost idv = id.0@;
        let ghost bv = bytes@;
        match self.find_drop(&id) {
            Some(i) => {
                self.drops.set(i, (id, bytes));
                proof {
                    assert(self.drop_entries() =~= before.update(i as int, (before[i as int].0, bv)));
                    lemma_assoc_update(before, i as int, bv);
                }
            },
            None => {
                self.drops.push((id, bytes));
                proof {
                    assert(self.drop_entries() =~= before.push((idv, bv)));
                    lemma_assoc_push_fresh(before, idv, bv);
                }
            },
        }
    }

    fn get_drop(&self, id: &DropId) -> (r: Option<&[u8]>) {
        proof {
            lemma_assoc_get(self.drop_entries(), id.0@);
        }
        match self.find_drop(id) {
            Some(i) => Some(self.drops[i].1.as_slice()),
            None => None,
        }
    }

    fn put_chunk(&mut self, id: DropId, index: u32, bytes: Vec<u8>) {
        let ghost before = self.chunk_entries();
        let ghost key = (id.0@, index);
        let ghost bv = bytes@;
        match self.find_chunk(&id, index) {
            Some(i) => {
                self.chunks.set(i, (id, index, bytes));
                proof {
                    assert(self.chunk_entries() =~= before.update(i as int, (before[i as int].0, bv)));
                    lemma_assoc_update(before, i as int, bv);
                }
            },
            None => {
                self.chunks.push((id, index, bytes));
                proof {
                    assert(self.chunk_entries() =~= before.push((key, bv)));
                    lemma_assoc_push_fresh(before, key, bv);
                }
            },
        }
    }

    fn get_chunk(&self, id: &DropId, index: u32) -> (r: Option<&[u8]>) {
        proof {
            lemma_assoc_get(self.chunk_entries(), (id.0@, index));
        }
        match self.find_chunk(id, index) {
            Some(i) => Some(self.chunks[i].2.as_slice()),
            None => None,
        }
    }

    fn chunk_indices(&self, id: &DropId) -> (r: Vec<u32>) {
        let ghost entries = self.chunk_entries();
        let mut out: Vec<u32> = Vec::new();
        let mut i: usize = 0;
        while i < self.chunks.len()
            invariant
                entries == self.chunk_entries(),
                unique_keys(entries),
                i <= self.chunks@.len(),
                forall|a: int, b: int| 0 <= a < b < out@.len() ==> out@[a] < out@[b],
                forall|x: u32|
                    #[trigger] out@.contains(x) <==> exists|j: int| 0 <= j < i && (#[trigger] entries[j]).0 == (id.0@, x),
            decreases self.chunks@.len() - i,
        {
            if bytes_eq(self.chunks[i].0.0.as_slice(), id.0.as_slice()) {
                let x = self.chunks[i].1;
                proof {
                    assert(entries[i as int].0 == (id.0@, x));
                    if out@.contains(x) {
                        let j = choose|j: int| 0 <= j < i && (#[trigger] entries[j]).0 == (id.0@, x);
                        assert(entries[j].0 == entries[i as int].0);
                    }
                }
                let mut p: usize = 0;
                while p < out.len() && out[p] < x
                    invariant
                        p <= out@.len(),
                        forall|a: int| 0 <= a < p ==> out@[a] < x,
                    decreases out@.len() - p,
                {
                    p = p + 1;
                }
                let ghost old_out = out@;
                out.insert(p, x);
                proof {
                    assert forall|a: int, b: int| 0 <= a < b < out@.len() implies out@[a] < out@[b] by {
                        if p < old_out.len() {
                            assert(old_out[p as int] >= x);
                            assert(old_out[p as int] != x) by {
                                assert(old_out.contains(old_out[p as int]));
                            }
                        }
                        if b < p {
                        } else if b == p {
                        } else if a < p {
                            assert(out@[b] == old_out[b - 1]);
                        } else if a == p {
                            assert(out@[b] == old_out[b - 1]);
                            assert(old_out[p as int] <= old_out[b - 1] || b - 1 == p);
                        } else {
                            assert(out@[a] == old_out[a - 1] && out@[b] == old_out[b - 1]);
                        }
                    }
                    assert forall|y: u32| #[trigger] out@.contains(y) <==> exists|j: int| 0 <= j < i + 1 && (#[trigger] entries[j]).0 == (id.0@, y) by {
                        if out@.contains(y) {
                            let k = choose|k: int| 0 <= k < out@.len() && out@[k] == y;
                            if k != p {
                                let k2 = if k < p { k } else { k - 1 };
                                assert(old_out[k2] == y);
                                assert(old_out.contains(y));
                            }
                        }
                        if exists|j: int| 0 <= j < i + 1 && (#[trigger] entries[j]).0 == (id.0@, y) {
                            let j = choose|j: int| 0 <= j < i + 1 && (#[trigger] entries[j]).0 == (id.0@, y);
                            if j < i {
                                assert(old_out.contains(y));
                                let k = choose|k: int| 0 <= k < old_out.len() && old_out[k] == y;
                                let k2 = if k < p { k } else { k + 1 };
                                assert(out@[k2] == y);
                            } else {
                                assert(out@[p as int] == y);
                            }
                        }
                    }
                }
            } else {
                proof {
                    assert(entries[i as int].0.0 != id.0@);
                    assert forall|y: u32| #[trigger] out@.contains(y) <==> exists|j: int| 0 <= j < i + 1 && (#[trigger] entries[j]).0 == (id.0@, y) by {
                        if exists|j: int| 0 <= j < i + 1 && (#[trigger] entries[j]).0 == (id.0@, y) {
                            let j = choose|j: int| 0 <= j < i + 1 && (#[trigger] entries[j]).0 == (id.0@, y);
                            assert(j != i);
                        }
                    }
                }
            }
            i = i + 1;
        }
        proof {
            assert forall|x: u32| #[trigger] out@.contains(x) <==> self.chunks().dom().contains((id.0@, x)) by {
                lemma_assoc_get(entries, (id.0@, x));
            }
        }
        out
    }
}

} // verus!
