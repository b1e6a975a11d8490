//! The vector index and its id-to-source side table.
//!
//! Vector components are carried as the bit patterns of the embedding
//! model's 32-bit floating-point values; the index never interprets
//! them numerically, it only enforces the dimension invariant and the
//! stable mapping from each committed id back to its source URL and
//! chunk text.  An entry pairs the vector and the mapping record in
//! one structure, so no id can exist in one without the other.

use vstd::prelude::*;

verus! {

/// One committed vector: its id, the source URL, the chunk text, and
/// the vector's components as 32-bit float bit patterns.
pub struct IndexEntry {
    pub id: u64,
    pub url: Vec<u8>,
    pub chunk_text: Vec<u8>,
    pub vector: Vec<u32>,
}

/// Why an insertion was rejected.
#[derive(Clone, Copy, Debug, PartialEq, Eq)]
pub enum IndexError {
    /// The vector's length differs from the index's configured
    /// dimension.
    DimensionMismatch,
    /// The id allocator has no id left to hand out.
    IdSpaceExhausted,
}

/// An in-memory similarity index: fixed dimension, monotonically
/// allocated ids, and the id-to-(url, text) mapping committed
/// atomically with each vector.
pub struct VectorIndex {
    dim: usize,
    next_id: u64,
    entries: Vec<IndexEntry>,
}

impl VectorIndex {
    /// The configured dimension.
    pub closed spec fn dim_spec(self) -> usize {
        self.dim
    }

    /// The id the next successful insertion will be assigned.
    pub closed spec fn next_id_spec(self) -> u64 {
        self.next_id
    }

    /// The committed entries, in insertion order.
    pub closed spec fn entries_seq(self) -> Seq<IndexEntry> {
        self.entries@
    }

    /// Well-formed: ids are exactly the insertion ordinals, and every
    /// vector has the configured dimension.
    pub open spec fn wf(self) -> bool {
        &&& self.dim_spec() >= 1
        &&& self.next_id_spec() == self.entries_seq().len()
        &&& forall|i: int|
            0 <= i < self.entries_seq().len() ==> (#[trigger] self.entries_seq()[i].id) == i
        &&& forall|i: int|
            0 <= i < self.entries_seq().len() ==> (#[trigger] self.entries_seq()[i].vector@.len())
                == self.dim_spec()
    }

    /// The id-to-(url, chunk text) mapping of everything committed.
    pub open spec fn mapping(self) -> Map<u64, (Seq<u8>, Seq<u8>)> {
        Map::new(
            |id: u64| id < self.next_id_spec(),
            |id: u64|
                (self.entries_seq()[id as int].url@, self.entries_seq()[id as int].chunk_text@),
        )
    }

    /// The ids present in the vector structure itself.
    pub open spec fn vector_ids(self) -> Set<u64> {
        Set::new(
            |id: u64|
                exists|i: int|
                    0 <= i < self.entries_seq().len() && (#[trigger] self.entries_seq()[i].id)
                        == id,
        )
    }

    /// An empty index of dimension `dim`.
    pub fn new(dim: usize) -> (r: VectorIndex)
        requires
            dim >= 1,
        ensures
            r.wf(),
            r.dim_spec() == dim,
            r.entries_seq() == Seq::<IndexEntry>::empty(),
            r.next_id_spec() == 0,
    {
        let r = VectorIndex { dim, next_id: 0, entries: Vec::new() };
        r
    }

    /// The number of committed vectors.
    pub fn len(&self) -> (r: usize)
        ensures
            r == self.entries_seq().len(),
    {
        self.entries.len()
    }

    /// The configured dimension.
    pub fn dimension(&self) -> (r: usize)
        ensures
            r == self.dim_spec(),
    {
        self.dim
    }

    /// Inserts one vector with its source URL and chunk text,
    /// allocating the id, committing the vector and the mapping record
    /// together.  A vector of the wrong dimension is rejected and the
    /// index is unchanged.
    pub fn insert(&mut self, url: Vec<u8>, chunk_text: Vec<u8>, vector: Vec<u32>) -> (r: Result<
        u64,
        IndexError,
    >)
        requires
            old(self).wf(),
        ensures
            final(self).wf(),
            final(self).dim_spec() == old(self).dim_spec(),
            vector@.len() != old(self).dim_spec() ==> r == Err::<u64, IndexError>(
                IndexError::DimensionMismatch,
            ) && *final(self) == *old(self),
            vector@.len() == old(self).dim_spec() && old(self).next_id_spec() == u64::MAX ==> r
                == Err::<u64, IndexError>(IndexError::IdSpaceExhausted) && *final(self) == *old(
                self,
            ),
            vector@.len() == old(self).dim_spec() && old(self).next_id_spec() < u64::MAX ==> r
                == Ok::<u64, IndexError>(old(self).next_id_spec()) && final(self).entries_seq()
                == old(self).entries_seq().push(
                (IndexEntry {
                    id: old(self).next_id_spec(),
                    url: url,
                    chunk_text: chunk_text,
                    vector: vector,
                }),
            ) && final(self).next_id_spec() == old(self).next_id_spec() + 1,
    {
        if vector.len() != self.dim {
            return Err(IndexError::DimensionMismatch);
        }
        if self.next_id == u64::MAX {
            return Err(IndexError::IdSpaceExhausted);
        }
        let id = self.next_id;
        let entry = IndexEntry { id, url, chunk_text, vector };
        self.entries.push(entry);
        self.next_id = id + 1;
        Ok(id)
    }

    /// Resolves a committed id to its entry; ids never committed
    /// resolve to nothing.
    pub fn resolve(&self, id: u64) -> (r: Option<&IndexEntry>)
        requires
            self.wf(),
        ensures
            match r {
                Some(e) => self.mapping().dom().contains(id) && *e == self.entries_seq()[
                    id as int
                ] && e.id == id && self.mapping()[id] == (e.url@, e.chunk_text@),
                None => !self.mapping().dom().contains(id),
            },
    {
        let n = self.entries.len();
        if id < self.next_id {
            proof {
                assert(id < n);
            }
            let i = id as usize;
            Some(&self.entries[i])
        } else {
            None
        }
    }
}

/// Every id in the index was produced by exactly one insertion: the
/// entries of a well-formed index carry pairwise distinct ids, and the
/// entry at insertion ordinal `i` carries id `i`.
pub proof fn lemma_ids_unique(v: VectorIndex)
    requires
        v.wf(),
    ensures
        forall|i: int, j: int|
            0 <= i < j < v.entries_seq().len() ==> v.entries_seq()[i].id != v.entries_seq()[j].id,
{
}

/// The dimension invariant: every committed vector has the index's
/// configured dimension.
pub proof fn lemma_dimension_invariant(v: VectorIndex)
    requires
        v.wf(),
    ensures
        forall|i: int|
            0 <= i < v.entries_seq().len() ==> (#[trigger] v.entries_seq()[i].vector@.len())
                == v.dim_spec(),
{
}

/// Atomic pairing: an id is present in the vector structure exactly
/// when it is present in the id-to-source mapping.
pub proof fn lemma_mapping_complete(v: VectorIndex)
    requires
        v.wf(),
    ensures
        v.mapping().dom() =~= v.vector_ids(),
{
    assert forall|id: u64| v.vector_ids().contains(id) implies v.mapping().dom().contains(
        id,
    ) by {
        let i = choose|i: int|
            0 <= i < v.entries_seq().len() && (#[trigger] v.entries_seq()[i].id) == id;
        assert(id == i);
    }
    assert forall|id: u64| v.mapping().dom().contains(id) implies v.vector_ids().contains(
        id,
    ) by {
        assert(v.entries_seq()[id as int].id == id);
    }
}

} // verus!
