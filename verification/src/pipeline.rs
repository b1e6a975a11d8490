//! The pipeline orchestrator: per-URL state machines, bounded
//! concurrent admission, partial-failure isolation, and atomic
//! per-URL indexing.
//!
//! The orchestrator is a sequential transition system.  The caller
//! owns the scheduling: it asks `start_next` for a URL to work on,
//! performs the fetch, the extraction and the embedding outside (those
//! are I/O- or model-bound), and reports each outcome through one
//! transition call.  Each transition touches only the slot it is given
//! and the shared index and cache, so a failure of one URL never
//! disturbs a sibling's record.
//!
//! Stages follow the per-URL machine `Pending -> Fetching ->
//! Extracting -> Embedding -> Done`, with `Failed` reachable from any
//! non-terminal stage.  Chunking runs inside the transition out of
//! `Extracting`, and index insertion inside the transition out of
//! `Embedding`, so those two phases are never observable between
//! calls.

use crate::cache::{
    keys_unique, spec_expiry, spec_get, spec_set, Cache, CacheModel,
};
use crate::chunker::spec_chunks;
use crate::digest::sha256_of;
use crate::index::{IndexEntry, VectorIndex};
use vstd::prelude::*;

verus! {

/// The observable stage of one URL's pipeline instance.
#[derive(Clone, Copy, Debug, PartialEq, Eq, Structural)]
pub enum Stage {
    Pending,
    Fetching,
    Extracting,
    Embedding,
    Done,
    Failed,
}

/// Which component a per-URL failure originated in.
#[derive(Clone, Copy, Debug, PartialEq, Eq, Structural)]
pub enum ErrorKind {
    /// Network failure, timeout, or a non-success status.
    Fetch,
    /// Unparseable or empty content.
    Extraction,
    /// The embedding batch failed or did not match the chunk count.
    Embedding,
    /// The index rejected the insertion.
    Index,
}

/// A per-URL failure: the component it arose in and a caller-supplied
/// detail message.
#[derive(Debug)]
pub struct PipelineError {
    pub kind: ErrorKind,
    pub detail: Vec<u8>,
}

/// The per-URL outcome record.  Exactly one of "chunks populated" and
/// "error set" holds once the URL is processed.
#[derive(Debug)]
pub struct PipelineResult {
    pub url: Vec<u8>,
    pub stage: Stage,
    pub chunks: Vec<Vec<u8>>,
    pub embeddings: Vec<Vec<u32>>,
    pub error: Option<PipelineError>,
}

/// A stage that holds admission: the URL is being worked on.
pub open spec fn is_active(s: Stage) -> bool {
    s == Stage::Fetching || s == Stage::Extracting || s == Stage::Embedding
}

/// A stage no transition leaves.
pub open spec fn is_terminal(s: Stage) -> bool {
    s == Stage::Done || s == Stage::Failed
}

/// How many URLs are being worked on.
pub open spec fn active_count(ss: Seq<PipelineResult>) -> int
    decreases ss.len(),
{
    if ss.len() == 0 {
        0
    } else {
        active_count(ss.drop_last()) + if is_active(ss.last().stage) {
            1int
        } else {
            0int
        }
    }
}

/// The record invariant for one slot under index dimension `dim`:
/// data and error are mutually exclusive, and present exactly where
/// the stage says so.
pub open spec fn slot_wf(s: PipelineResult, dim: usize) -> bool {
    match s.stage {
        Stage::Pending | Stage::Fetching | Stage::Extracting => s.chunks@.len() == 0
            && s.embeddings@.len() == 0 && s.error is None,
        Stage::Embedding => s.chunks@.len() > 0 && s.embeddings@.len() == 0 && s.error is None,
        Stage::Done => s.chunks@.len() > 0 && s.embeddings@.len() == s.chunks@.len() && (forall|
            j: int,
        |
            0 <= j < s.embeddings@.len() ==> (#[trigger] s.embeddings@[j]@.len()) == dim)
            && s.error is None,
        Stage::Failed => s.chunks@.len() == 0 && s.embeddings@.len() == 0 && s.error is Some,
    }
}

/// The chunk list the pipeline uses for extracted text `text` at time
/// `now`: the cached list under the text's digest if one is live, the
/// freshly chunked text otherwise.
pub open spec fn cached_or_computed(
    m: CacheModel,
    text: Seq<u8>,
    chunk_size: int,
    now: u64,
) -> Seq<Seq<u8>> {
    match spec_get(m, sha256_of(text), now) {
        Some(v) => v,
        None => spec_chunks(text, chunk_size),
    }
}

/// A slot sequence with no active member has an admission count of
/// zero; in particular a fresh batch admits immediately.
pub proof fn lemma_active_count_zero(ss: Seq<PipelineResult>)
    requires
        forall|i: int| 0 <= i < ss.len() ==> !is_active((#[trigger] ss[i]).stage),
    ensures
        active_count(ss) == 0,
    decreases ss.len(),
{
    if ss.len() > 0 {
        assert(forall|i: int|
            0 <= i < ss.drop_last().len() ==> ss.drop_last()[i] == ss[i]);
        lemma_active_count_zero(ss.drop_last());
    }
}

/// Replacing one slot changes the admission count by the difference
/// the replacement makes: callers track the count across transitions
/// with this.
pub proof fn lemma_active_count_update(ss: Seq<PipelineResult>, i: int, s: PipelineResult)
    requires
        0 <= i < ss.len(),
    ensures
        active_count(ss.update(i, s)) == active_count(ss) + (if is_active(s.stage) {
            1int
        } else {
            0int
        }) - (if is_active(ss[i].stage) {
            1int
        } else {
            0int
        }),
    decreases ss.len(),
{
    if i == ss.len() - 1 {
        assert(ss.update(i, s).drop_last() =~= ss.drop_last());
        assert(ss.update(i, s).last() == s);
    } else {
        assert(ss.update(i, s).drop_last() =~= ss.drop_last().update(i, s));
        assert(ss.update(i, s).last() == ss.last());
        lemma_active_count_update(ss.drop_last(), i, s);
    }
}

/// A transition that changes one slot that had not completed, and
/// leaves the index alone, keeps every committed entry tied to a
/// completed URL.
proof fn lemma_entries_completed_after_slot_change(pre: Pipeline, post: Pipeline, i: int)
    requires
        forall|p: int|
            0 <= p < pre.index_spec().entries_seq().len()
                ==> #[trigger] pre.entry_from_completed(p),
        post.index_spec() == pre.index_spec(),
        post.slots_seq().len() == pre.slots_seq().len(),
        0 <= i < pre.slots_seq().len(),
        pre.slots_seq()[i].stage != Stage::Done,
        forall|j: int|
            0 <= j < pre.slots_seq().len() && j != i ==> post.slots_seq()[j]
                == pre.slots_seq()[j],
    ensures
        forall|p: int|
            0 <= p < post.index_spec().entries_seq().len()
                ==> #[trigger] post.entry_from_completed(p),
{
    assert forall|p: int|
        0 <= p < post.index_spec().entries_seq().len() implies #[trigger] post.entry_from_completed(
        p,
    ) by {
        assert(pre.entry_from_completed(p));
        let q = choose|q: int|
            0 <= q < pre.slots_seq().len() && (#[trigger] pre.slots_seq()[q]).stage == Stage::Done
                && pre.slots_seq()[q].url@ == pre.index_spec().entries_seq()[p].url@;
        assert(q != i);
        assert(post.slots_seq()[q] == pre.slots_seq()[q]);
    }
}

/// The pipeline over one batch of URLs: configuration, the shared
/// chunk cache, the shared vector index, and one result slot per URL.
pub struct Pipeline {
    chunk_size: usize,
    bound: usize,
    ttl: u64,
    cache: Cache,
    index: VectorIndex,
    slots: Vec<PipelineResult>,
}

impl Pipeline {
    /// The word bound for one chunk.
    pub closed spec fn chunk_size_spec(self) -> usize {
        self.chunk_size
    }

    /// The admission bound: at most this many URLs are worked on at
    /// once.
    pub closed spec fn bound_spec(self) -> usize {
        self.bound
    }

    /// The time-to-live for cached chunk lists, in seconds.
    pub closed spec fn ttl_spec(self) -> u64 {
        self.ttl
    }

    /// The chunk cache's contents.
    pub closed spec fn cache_model(self) -> CacheModel {
        self.cache.model()
    }

    /// The shared vector index.
    pub closed spec fn index_spec(self) -> VectorIndex {
        self.index
    }

    /// The per-URL result slots, in input order.
    pub closed spec fn slots_seq(self) -> Seq<PipelineResult> {
        self.slots@
    }

    /// Entry `p` of the index was committed by a URL that completed:
    /// some slot has reached `Done` and carries the entry's source
    /// URL.
    pub open spec fn entry_from_completed(self, p: int) -> bool {
        exists|q: int|
            0 <= q < self.slots_seq().len() && (#[trigger] self.slots_seq()[q]).stage
                == Stage::Done && self.slots_seq()[q].url@ == self.index_spec().entries_seq()[
                p
            ].url@
    }

    /// The pipeline invariant.
    pub open spec fn wf(self) -> bool {
        &&& self.chunk_size_spec() >= 1
        &&& self.bound_spec() >= 1
        &&& self.index_spec().wf()
        &&& keys_unique(self.cache_model())
        &&& forall|i: int|
            0 <= i < self.slots_seq().len() ==> slot_wf(
                #[trigger] self.slots_seq()[i],
                self.index_spec().dim_spec(),
            )
        &&& active_count(self.slots_seq()) <= self.bound_spec()
        &&& forall|p: int|
            0 <= p < self.index_spec().entries_seq().len() ==> #[trigger] self.entry_from_completed(
                p,
            )
    }

    /// Everything that one per-URL transition must leave unchanged:
    /// the configuration and every other slot.
    pub open spec fn frame_except(self, post: Pipeline, i: int) -> bool {
        &&& post.chunk_size_spec() == self.chunk_size_spec()
        &&& post.bound_spec() == self.bound_spec()
        &&& post.ttl_spec() == self.ttl_spec()
        &&& post.slots_seq().len() == self.slots_seq().len()
        &&& forall|j: int|
            0 <= j < self.slots_seq().len() && j != i ==> post.slots_seq()[j]
                == self.slots_seq()[j]
    }

    /// A new pipeline over `urls` with chunk word bound `chunk_size`,
    /// embedding dimension `dim`, admission bound `bound`, and cache
    /// time-to-live `ttl` seconds.
    pub fn new(urls: &Vec<Vec<u8>>, chunk_size: usize, dim: usize, bound: usize, ttl: u64) -> (r:
        Pipeline)
        requires
            chunk_size >= 1,
            dim >= 1,
            bound >= 1,
        ensures
            r.wf(),
            r.chunk_size_spec() == chunk_size,
            r.bound_spec() == bound,
            r.ttl_spec() == ttl,
            r.index_spec().dim_spec() == dim,
            r.index_spec().entries_seq().len() == 0,
            r.index_spec().next_id_spec() == 0,
            r.cache_model().len() == 0,
            r.slots_seq().len() == urls@.len(),
            forall|i: int|
                0 <= i < urls@.len() ==> (#[trigger] r.slots_seq()[i]).url@ == urls@[i]@
                    && r.slots_seq()[i].stage == Stage::Pending,
    {
        let mut slots: Vec<PipelineResult> = Vec::new();
        let mut i: usize = 0;
        while i < urls.len()
            invariant
                i <= urls@.len(),
                slots@.len() == i,
                forall|j: int|
                    0 <= j < i ==> (#[trigger] slots@[j]).url@ == urls@[j]@ && slots@[j].stage
                        == Stage::Pending && slots@[j].chunks@.len() == 0
                        && slots@[j].embeddings@.len() == 0 && slots@[j].error is None,
            decreases urls@.len() - i,
        {
            let slot = PipelineResult {
                url: crate::copy_vec(&urls[i]),
                stage: Stage::Pending,
                chunks: Vec::new(),
                embeddings: Vec::new(),
                error: None,
            };
            slots.push(slot);
            i = i + 1;
        }
        proof {
            lemma_active_count_zero(slots@);
        }
        let r = Pipeline {
            chunk_size,
            bound,
            ttl,
            cache: Cache::new(),
            index: VectorIndex::new(dim),
            slots,
        };
        r
    }

    /// The number of URLs in the batch.
    pub fn url_count(&self) -> (r: usize)
        ensures
            r == self.slots_seq().len(),
    {
        self.slots.len()
    }

    /// The result slot of URL `i`.
    pub fn result_at(&self, i: usize) -> (r: &PipelineResult)
        requires
            i < self.slots_seq().len(),
        ensures
            *r == self.slots_seq()[i as int],
    {
        &self.slots[i]
    }

    /// The shared vector index.
    pub fn vector_index(&self) -> (r: &VectorIndex)
        ensures
            *r == self.index_spec(),
    {
        &self.index
    }

    /// Whether every URL has reached a terminal stage.
    pub fn finished(&self) -> (r: bool)
        ensures
            r == forall|i: int|
                0 <= i < self.slots_seq().len() ==> is_terminal(
                    (#[trigger] self.slots_seq()[i]).stage,
                ),
    {
        let n = self.slots.len();
        let mut i: usize = 0;
        while i < n
            invariant
                i <= n,
                n == self.slots_seq().len(),
                forall|j: int| 0 <= j < i ==> is_terminal((#[trigger] self.slots_seq()[j]).stage),
            decreases n - i,
        {
            let s = &self.slots[i];
            if !(s.stage == Stage::Done || s.stage == Stage::Failed) {
                return false;
            }
            i = i + 1;
        }
        true
    }

    /// Admits the first pending URL if fewer than `bound` URLs are
    /// being worked on: its slot moves to `Fetching` and its position
    /// is returned for the caller to fetch.  Returns nothing when the
    /// bound is reached or no URL is pending, leaving the pipeline
    /// unchanged.
    pub fn start_next(&mut self) -> (r: Option<usize>)
        requires
            old(self).wf(),
        ensures
            final(self).wf(),
            final(self).index_spec() == old(self).index_spec(),
            final(self).cache_model() == old(self).cache_model(),
            match r {
                Some(i) => {
                    &&& i < old(self).slots_seq().len()
                    &&& old(self).slots_seq()[i as int].stage == Stage::Pending
                    &&& forall|j: int|
                        0 <= j < i ==> (#[trigger] old(self).slots_seq()[j]).stage
                            != Stage::Pending
                    &&& active_count(old(self).slots_seq()) < old(self).bound_spec()
                    &&& old(self).frame_except(*final(self), i as int)
                    &&& final(self).slots_seq()[i as int].stage == Stage::Fetching
                    &&& final(self).slots_seq()[i as int].url == old(self).slots_seq()[
                        i as int
                    ].url
                    &&& final(self).slots_seq()[i as int].error is None
                    &&& final(self).slots_seq()[i as int].chunks@.len() == 0
                    &&& final(self).slots_seq()[i as int].embeddings@.len() == 0
                },
                None => *final(self) == *old(self) && (active_count(old(self).slots_seq()) >= old(
                    self,
                ).bound_spec() || forall|j: int|
                    0 <= j < old(self).slots_seq().len() ==> (#[trigger] old(self).slots_seq()[
                        j
                    ]).stage != Stage::Pending),
            },
    {
        let n = self.slots.len();
        // Count the URLs being worked on.
        let mut c: usize = 0;
        let mut i: usize = 0;
        proof {
            assert(self.slots_seq().take(0) =~= Seq::<PipelineResult>::empty());
        }
        while i < n
            invariant
                *self == *old(self),
                i <= n,
                c <= i,
                n == self.slots_seq().len(),
                c == active_count(self.slots_seq().take(i as int)),
            decreases n - i,
        {
            let s = &self.slots[i];
            proof {
                assert(self.slots_seq().take(i + 1).drop_last() =~= self.slots_seq().take(
                    i as int,
                ));
                assert(self.slots_seq().take(i + 1).last() == self.slots_seq()[i as int]);
            }
            if s.stage == Stage::Fetching || s.stage == Stage::Extracting || s.stage
                == Stage::Embedding {
                c = c + 1;
            }
            i = i + 1;
        }
        proof {
            assert(self.slots_seq().take(n as int) =~= self.slots_seq());
        }
        if c >= self.bound {
            return None;
        }
        // Admit the first pending URL.
        let mut k: usize = 0;
        while k < n
            invariant
                *self == *old(self),
                old(self).wf(),
                k <= n,
                n == self.slots_seq().len(),
                c == active_count(self.slots_seq()),
                c < self.bound_spec(),
                forall|j: int|
                    0 <= j < k ==> (#[trigger] self.slots_seq()[j]).stage != Stage::Pending,
            decreases n - k,
        {
            if self.slots[k].stage == Stage::Pending {
                let ghost pre = *self;
                let slot = &mut self.slots[k];
                slot.stage = Stage::Fetching;
                proof {
                    lemma_active_count_update(
                        pre.slots_seq(),
                        k as int,
                        self.slots_seq()[k as int],
                    );
                    assert(self.slots_seq() =~= pre.slots_seq().update(
                        k as int,
                        self.slots_seq()[k as int],
                    ));
                    lemma_entries_completed_after_slot_change(*old(self), *self, k as int);
                }
                return Some(k);
            }
            k = k + 1;
        }
        None
    }

    /// Records that URL `i`'s fetch succeeded; the slot moves to
    /// `Extracting` and the caller runs content extraction.
    pub fn on_fetched(&mut self, i: usize)
        requires
            old(self).wf(),
            i < old(self).slots_seq().len(),
            old(self).slots_seq()[i as int].stage == Stage::Fetching,
        ensures
            final(self).wf(),
            final(self).index_spec() == old(self).index_spec(),
            final(self).cache_model() == old(self).cache_model(),
            old(self).frame_except(*final(self), i as int),
            final(self).slots_seq()[i as int].stage == Stage::Extracting,
            final(self).slots_seq()[i as int].url == old(self).slots_seq()[i as int].url,
            final(self).slots_seq()[i as int].error is None,
            final(self).slots_seq()[i as int].chunks@.len() == 0,
            final(self).slots_seq()[i as int].embeddings@.len() == 0,
    {
        let ghost pre = *self;
        let slot = &mut self.slots[i];
        slot.stage = Stage::Extracting;
        proof {
            lemma_active_count_update(pre.slots_seq(), i as int, self.slots_seq()[i as int]);
            assert(self.slots_seq() =~= pre.slots_seq().update(
                i as int,
                self.slots_seq()[i as int],
            ));
            lemma_entries_completed_after_slot_change(*old(self), *self, i as int);
        }
    }

    /// Records a per-URL failure: the slot becomes `Failed` with the
    /// given component and detail, its data emptied.  No other slot,
    /// nor the index or the cache, is touched: a failure is isolated
    /// to its URL.
    pub fn fail(&mut self, i: usize, kind: ErrorKind, detail: Vec<u8>)
        requires
            old(self).wf(),
            i < old(self).slots_seq().len(),
            !is_terminal(old(self).slots_seq()[i as int].stage),
        ensures
            final(self).wf(),
            final(self).index_spec() == old(self).index_spec(),
            final(self).cache_model() == old(self).cache_model(),
            old(self).frame_except(*final(self), i as int),
            final(self).slots_seq()[i as int].stage == Stage::Failed,
            final(self).slots_seq()[i as int].url == old(self).slots_seq()[i as int].url,
            final(self).slots_seq()[i as int].error matches Some(e) && e.kind == kind && e.detail@
                == detail@,
            final(self).slots_seq()[i as int].chunks@.len() == 0,
            final(self).slots_seq()[i as int].embeddings@.len() == 0,
    {
        let ghost pre = *self;
        let slot = &mut self.slots[i];
        slot.stage = Stage::Failed;
        slot.chunks = Vec::new();
        slot.embeddings = Vec::new();
        slot.error = Some(PipelineError { kind, detail });
        proof {
            lemma_active_count_update(pre.slots_seq(), i as int, self.slots_seq()[i as int]);
            assert(self.slots_seq() =~= pre.slots_seq().update(
                i as int,
                self.slots_seq()[i as int],
            ));
            lemma_entries_completed_after_slot_change(*old(self), *self, i as int);
        }
    }

    /// Records that URL `i`'s content was extracted as `text`.  The
    /// text is chunked through the cache: a live entry under the
    /// text's digest supplies the chunk list, otherwise the text is
    /// chunked afresh and the result cached until `now` plus the
    /// time-to-live.  With at least one chunk the slot moves to
    /// `Embedding` and the chunk list is handed back for the caller to
    /// embed; text with no words fails the URL with an extraction
    /// error instead.
    pub fn on_extracted(&mut self, i: usize, text: &[u8], now: u64) -> (r: Option<Vec<Vec<u8>>>)
        requires
            old(self).wf(),
            i < old(self).slots_seq().len(),
            old(self).slots_seq()[i as int].stage == Stage::Extracting,
        ensures
            final(self).wf(),
            final(self).index_spec() == old(self).index_spec(),
            old(self).frame_except(*final(self), i as int),
            final(self).slots_seq()[i as int].url == old(self).slots_seq()[i as int].url,
            ({
                let cs = cached_or_computed(
                    old(self).cache_model(),
                    text@,
                    old(self).chunk_size_spec() as int,
                    now,
                );
                let post = final(self).slots_seq()[i as int];
                &&& (r matches Some(c) ==> {
                    &&& c.deep_view() == cs
                    &&& cs.len() > 0
                    &&& post.stage == Stage::Embedding
                    &&& post.chunks.deep_view() == cs
                    &&& post.embeddings@.len() == 0
                    &&& post.error is None
                })
                &&& (r is None ==> {
                    &&& cs.len() == 0
                    &&& post.stage == Stage::Failed
                    &&& (post.error matches Some(e) && e.kind == ErrorKind::Extraction)
                })
            }),
            ({
                let hit = spec_get(old(self).cache_model(), sha256_of(text@), now);
                let updated = spec_set(
                    old(self).cache_model(),
                    sha256_of(text@),
                    spec_chunks(text@, old(self).chunk_size_spec() as int),
                    spec_expiry(now, old(self).ttl_spec()),
                );
                &&& (hit is Some ==> final(self).cache_model() == old(self).cache_model())
                &&& (hit is None ==> final(self).cache_model() == updated)
            }),
    {
        let key = crate::digest::sha256_digest(text);
        let mut was_hit = false;
        let chunks: Vec<Vec<u8>> = match self.cache.get(&key, now) {
            Some(v) => {
                was_hit = true;
                crate::copy_chunk_list(v)
            },
            None => crate::chunker::chunk(text, self.chunk_size),
        };
        if !was_hit {
            let stored = crate::copy_chunk_list(&chunks);
            self.cache.set(key, stored, self.ttl, now);
        }
        let ghost pre = *self;
        if chunks.len() == 0 {
            let slot = &mut self.slots[i];
            slot.stage = Stage::Failed;
            slot.error = Some(PipelineError { kind: ErrorKind::Extraction, detail: Vec::new() });
            proof {
                lemma_active_count_update(pre.slots_seq(), i as int, self.slots_seq()[i as int]);
                assert(self.slots_seq() =~= pre.slots_seq().update(
                    i as int,
                    self.slots_seq()[i as int],
                ));
                lemma_entries_completed_after_slot_change(*old(self), *self, i as int);
            }
            None
        } else {
            let out = crate::copy_chunk_list(&chunks);
            let slot = &mut self.slots[i];
            slot.stage = Stage::Embedding;
            slot.chunks = chunks;
            proof {
                lemma_active_count_update(pre.slots_seq(), i as int, self.slots_seq()[i as int]);
                assert(self.slots_seq() =~= pre.slots_seq().update(
                    i as int,
                    self.slots_seq()[i as int],
                ));
                lemma_entries_completed_after_slot_change(*old(self), *self, i as int);
            }
            Some(out)
        }
    }

    /// Records URL `i`'s embedding batch.  A batch with one vector per
    /// chunk, each of the index's dimension and with id space left, is
    /// committed atomically: every chunk is inserted into the index
    /// with a freshly allocated id and its mapping record, and the
    /// slot moves to `Done` carrying the embeddings.  A batch of the
    /// wrong shape commits nothing: the index is untouched and the URL
    /// fails, with an embedding error for a wrong vector count and an
    /// index error for a rejected insertion.
    pub fn on_embedded(&mut self, i: usize, vectors: Vec<Vec<u32>>) -> (r: bool)
        requires
            old(self).wf(),
            i < old(self).slots_seq().len(),
            old(self).slots_seq()[i as int].stage == Stage::Embedding,
        ensures
            final(self).wf(),
            final(self).cache_model() == old(self).cache_model(),
            old(self).frame_except(*final(self), i as int),
            final(self).slots_seq()[i as int].url == old(self).slots_seq()[i as int].url,
            final(self).index_spec().dim_spec() == old(self).index_spec().dim_spec(),
            ({
                let slot_pre = old(self).slots_seq()[i as int];
                let k = slot_pre.chunks@.len();
                let n0 = old(self).index_spec().entries_seq().len();
                let dim = old(self).index_spec().dim_spec();
                let post = final(self).slots_seq()[i as int];
                let entries = final(self).index_spec().entries_seq();
                let ok = vectors@.len() == k && (forall|j: int|
                    0 <= j < vectors@.len() ==> (#[trigger] vectors@[j])@.len() == dim) && n0 + k
                    <= u64::MAX;
                &&& (ok ==> {
                    &&& r == true
                    &&& post.stage == Stage::Done
                    &&& post.chunks == slot_pre.chunks
                    &&& post.embeddings == vectors
                    &&& post.error is None
                    &&& entries.len() == n0 + k
                    &&& final(self).index_spec().next_id_spec() == n0 + k
                    &&& forall|p: int|
                        0 <= p < n0 ==> entries[p] == old(self).index_spec().entries_seq()[p]
                    &&& forall|j: int|
                        0 <= j < k ==> ((#[trigger] entries[n0 + j]).id == n0 + j && entries[
                            n0 + j
                        ].url@ == slot_pre.url@ && entries[n0 + j].chunk_text@
                            == slot_pre.chunks@[j]@ && entries[n0 + j].vector@ == vectors@[j]@)
                })
                &&& (!ok ==> {
                    &&& r == false
                    &&& final(self).index_spec() == old(self).index_spec()
                    &&& post.stage == Stage::Failed
                    &&& (post.error matches Some(e) && e.kind == (if vectors@.len() != k {
                        ErrorKind::Embedding
                    } else {
                        ErrorKind::Index
                    }))
                })
            }),
    {
        let k = self.slots[i].chunks.len();
        let dim = self.index.dimension();
        if vectors.len() != k {
            self.fail(i, ErrorKind::Embedding, Vec::new());
            return false;
        }
        let mut dims_ok = true;
        let mut j: usize = 0;
        while j < k
            invariant
                *self == *old(self),
                j <= k,
                k == vectors@.len(),
                dim == self.index_spec().dim_spec(),
                dims_ok == forall|p: int|
                    0 <= p < j ==> (#[trigger] vectors@[p])@.len() == dim,
            decreases k - j,
        {
            if vectors[j].len() != dim {
                dims_ok = false;
            }
            j = j + 1;
        }
        if !dims_ok {
            self.fail(i, ErrorKind::Index, Vec::new());
            return false;
        }
        let n0 = self.index.len();
        if (k as u64) > u64::MAX - (n0 as u64) {
            self.fail(i, ErrorKind::Index, Vec::new());
            return false;
        }
        let mut j: usize = 0;
        while j < k
            invariant
                j <= k,
                k == vectors@.len(),
                old(self).wf(),
                i < old(self).slots_seq().len(),
                old(self).slots_seq()[i as int].stage == Stage::Embedding,
                self.slots@ == old(self).slots_seq(),
                self.cache == old(self).cache,
                self.chunk_size == old(self).chunk_size_spec(),
                self.bound == old(self).bound_spec(),
                self.ttl == old(self).ttl_spec(),
                k == old(self).slots_seq()[i as int].chunks@.len(),
                dim == old(self).index_spec().dim_spec(),
                forall|p: int| 0 <= p < k ==> (#[trigger] vectors@[p])@.len() == dim,
                n0 == old(self).index_spec().entries_seq().len(),
                n0 + k <= u64::MAX,
                self.index.wf(),
                self.index.dim_spec() == dim,
                self.index.entries_seq().len() == n0 + j,
                self.index.next_id_spec() == n0 + j,
                forall|p: int|
                    0 <= p < n0 ==> self.index.entries_seq()[p] == old(
                        self,
                    ).index_spec().entries_seq()[p],
                forall|p: int|
                    0 <= p < j ==> ((#[trigger] self.index.entries_seq()[n0 + p]).id == n0 + p
                        && self.index.entries_seq()[n0 + p].url@ == old(self).slots_seq()[
                        i as int
                    ].url@ && self.index.entries_seq()[n0 + p].chunk_text@ == old(
                        self,
                    ).slots_seq()[i as int].chunks@[p]@ && self.index.entries_seq()[n0 + p].vector@
                        == vectors@[p]@),
            decreases k - j,
        {
            let url_copy = crate::copy_vec(&self.slots[i].url);
            let text_copy = crate::copy_vec(&self.slots[i].chunks[j]);
            let vec_copy = crate::copy_vec(&vectors[j]);
            let _ = self.index.insert(url_copy, text_copy, vec_copy);
            j = j + 1;
        }
        let ghost pre = *self;
        let slot = &mut self.slots[i];
        slot.stage = Stage::Done;
        slot.embeddings = vectors;
        proof {
            lemma_active_count_update(pre.slots_seq(), i as int, self.slots_seq()[i as int]);
            assert(self.slots_seq() =~= pre.slots_seq().update(
                i as int,
                self.slots_seq()[i as int],
            ));
            assert forall|p: int|
                0 <= p < self.index_spec().entries_seq().len()
                    implies #[trigger] self.entry_from_completed(p) by {
                if p < n0 {
                    assert(old(self).entry_from_completed(p));
                    let q = choose|q: int|
                        0 <= q < old(self).slots_seq().len() && (#[trigger] old(
                            self,
                        ).slots_seq()[q]).stage == Stage::Done && old(self).slots_seq()[q].url@
                            == old(self).index_spec().entries_seq()[p].url@;
                    assert(q != i as int);
                    assert(self.slots_seq()[q] == old(self).slots_seq()[q]);
                    assert(self.index_spec().entries_seq()[p] == old(
                        self,
                    ).index_spec().entries_seq()[p]);
                } else {
                    let d = p - n0;
                    assert(self.index_spec().entries_seq()[n0 + d].url@ == old(
                        self,
                    ).slots_seq()[i as int].url@);
                    assert(n0 + d == p);
                    assert(self.slots_seq()[i as int].stage == Stage::Done);
                    assert(self.slots_seq()[i as int].url@ == old(self).slots_seq()[
                        i as int
                    ].url@);
                }
            }
        }
        true
    }
}

/// At most the admission bound many URLs are ever worked on at once.
pub proof fn lemma_bounded_admission(p: Pipeline)
    requires
        p.wf(),
    ensures
        active_count(p.slots_seq()) <= p.bound_spec(),
{
}

/// Failure isolation at the index, for every reachable pipeline
/// state: each vector committed to the index carries the URL of a
/// slot that completed successfully, so a URL that failed — at any
/// stage — contributed nothing to the index or its mapping.
pub proof fn lemma_index_only_from_completed(p: Pipeline, e: int)
    requires
        p.wf(),
        0 <= e < p.index_spec().entries_seq().len(),
    ensures
        exists|q: int|
            0 <= q < p.slots_seq().len() && (#[trigger] p.slots_seq()[q]).stage == Stage::Done
                && p.slots_seq()[q].url@ == p.index_spec().entries_seq()[e].url@,
{
    assert(p.entry_from_completed(e));
}

/// A processed URL's record is exclusive: a completed record holds
/// chunks and no error, and a failed record holds an error and no
/// data — never both.
pub proof fn lemma_result_exclusive(p: Pipeline, i: int)
    requires
        p.wf(),
        0 <= i < p.slots_seq().len(),
    ensures
        p.slots_seq()[i].stage == Stage::Done ==> p.slots_seq()[i].error is None
            && p.slots_seq()[i].chunks@.len() > 0,
        p.slots_seq()[i].stage == Stage::Failed ==> p.slots_seq()[i].error is Some
            && p.slots_seq()[i].chunks@.len() == 0 && p.slots_seq()[i].embeddings@.len() == 0,
{
}

} // verus!
