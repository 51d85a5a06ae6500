//! An untrusted relay for federated store-and-forward.
//!
//! A relay is **ciphertext-only by construction**: it has no key material
//! and exposes no decryption capability. It can affect availability and
//! metadata, but never confidentiality.
use vstd::prelude::*;
use crate::bytes::bytes_eq;
use crate::node::{assoc_map, lemma_assoc_get, lemma_assoc_len, lemma_assoc_push_fresh, lemma_assoc_update, unique_keys};
use crate::types::DropId;

verus! {

/// Errors from relay operations.
#[derive(Clone, Copy, Debug, PartialEq, Eq)]
pub enum RelayError {
    /// The requested chunk is not held.
    NotFound,
}

/// A minimal in-memory relay.
#[derive(Debug, Default)]
pub struct Relay {
    chunks: Vec<(DropId, u32, Vec<u8>)>,
}

impl Relay {
    /// The chunks as an association list of views.
    pub closed spec fn entries(&self) -> Seq<((Seq<u8>, u32), Seq<u8>)> {
        self.chunks@.map_values(|e: (DropId, u32, Vec<u8>)| ((e.0.0@, e.1), e.2@))
    }

    /// The stored chunks, by drop id and index.
    pub open spec fn contents(&self) -> Map<(Seq<u8>, u32), Seq<u8>> {
        assoc_map(self.entries())
    }

    /// No chunk is stored twice.
    pub open spec fn wf(&self) -> bool {
        unique_keys(self.entries())
    }

    /// Create an empty relay.
    pub fn new() -> (r: Self)
        ensures
            r.wf(),
            r.contents() == Map::<(Seq<u8>, u32), Seq<u8>>::empty(),
    {
        let r = Relay { chunks: Vec::new() };
        assert(r.entries() =~= Seq::<((Seq<u8>, u32), Seq<u8>)>::empty());
        r
    }

    fn find(&self, id: &DropId, index: u32) -> (r: Option<usize>)
        ensures
            match r {
                Some(i) => i < self.chunks@.len() && self.entries()[i as int].0 == (id.0@, index),
                None => forall|i: int| 0 <= i < self.chunks@.len() ==> (#[trigger] self.entries()[i]).0 != (id.0@, index),
            },
    {
        let mut i: usize = 0;
        while i < self.chunks.len()
            invariant
                i <= self.chunks@.len(),
                forall|j: int| 0 <= j < i ==> (#[trigger] self.entries()[j]).0 != (id.0@, index),
            decreases self.chunks@.len() - i,
        {
            if self.chunks[i].1 == index && bytes_eq(self.chunks[i].0.0.as_slice(), id.0.as_slice()) {
                return Some(i);
            }
            i = i + 1;
        }
        None
    }

    /// Store a ciphertext chunk (replacing any earlier one).
    pub fn store(&mut self, id: DropId, index: u32, ciphertext: Vec<u8>)
        requires
            old(self).wf(),
        ensures
            final(self).wf(),
            final(self).contents() == old(self).contents().insert((id.0@, index), ciphertext@),
    {
        let ghost before = self.entries();
        let ghost key = (id.0@, index);
        let ghost cv = ciphertext@;
        match self.find(&id, index) {
            Some(i) => {
                self.chunks.set(i, (id, index, ciphertext));
                proof {
                    assert(self.entries() =~= before.update(i as int, (before[i as int].0, cv)));
                    lemma_assoc_update(before, i as int, cv);
                }
            },
            None => {
                self.chunks.push((id, index, ciphertext));
                proof {
                    assert(self.entries() =~= before.push((key, cv)));
                    lemma_assoc_push_fresh(before, key, cv);
                }
            },
        }
    }

    /// Fetch a ciphertext chunk.
    pub fn fetch(&self, id: &DropId, index: u32) -> (r: Result<&[u8], RelayError>)
        requires
            self.wf(),
        ensures
            match r {
                Ok(b) => self.contents().dom().contains((id.0@, index)) && b@ == self.contents()[(id.0@, index)],
                Err(e) => e == RelayError::NotFound && !self.contents().dom().contains((id.0@, index)),
            },
    {
        proof {
            lemma_assoc_get(self.entries(), (id.0@, index));
        }
        match self.find(id, index) {
            Some(i) => Ok(self.chunks[i].2.as_slice()),
            None => Err(RelayError::NotFound),
        }
    }

    /// Number of stored chunks.
    pub fn len(&self) -> (r: usize)
        requires
            self.wf(),
        ensures
            r == self.contents().dom().len(),
    {
        proof {
            lemma_assoc_len(self.entries());
        }
        self.chunks.len()
    }

    /// Whether the relay holds nothing.
    pub fn is_empty(&self) -> (r: bool)
        requires
            self.wf(),
        ensures
            r == (self.contents().dom().len() == 0),
    {
        proof {
            lemma_assoc_len(self.entries());
        }
        self.chunks.len() == 0
    }
}

} // verus!
