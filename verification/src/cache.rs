//! A content-hash keyed cache for chunk lists, with absolute-time TTL
//! expiry.
//!
//! Keys are content digests, so two URLs serving identical text share
//! the cached chunking work.  The clock is supplied by the caller as a
//! plain number of seconds; an entry set at `now` with time-to-live
//! `ttl` is visible to every `get` strictly before `now + ttl` and a
//! miss from then on.

use vstd::prelude::*;

verus! {

/// The mathematical model of a cache: a sequence of
/// (key, value, expiry) triples with pairwise distinct keys.
pub type CacheModel = Seq<(Seq<u8>, Seq<Seq<u8>>, u64)>;

/// The first entry of `m` with key `k`, if any.
pub open spec fn spec_lookup(m: CacheModel, k: Seq<u8>) -> Option<(Seq<Seq<u8>>, u64)>
    decreases m.len(),
{
    if m.len() == 0 {
        None
    } else if m[0].0 == k {
        Some((m[0].1, m[0].2))
    } else {
        spec_lookup(m.drop_first(), k)
    }
}

/// `m` without its first entry keyed `k`, if any.
pub open spec fn spec_remove(m: CacheModel, k: Seq<u8>) -> CacheModel
    decreases m.len(),
{
    if m.len() == 0 {
        Seq::empty()
    } else if m[0].0 == k {
        m.drop_first()
    } else {
        seq![m[0]] + spec_remove(m.drop_first(), k)
    }
}

/// The model after storing `v` under `k` with expiry `e`.
pub open spec fn spec_set(m: CacheModel, k: Seq<u8>, v: Seq<Seq<u8>>, e: u64) -> CacheModel {
    spec_remove(m, k).push((k, v, e))
}

/// What a read of `k` at time `now` returns: the stored value if the
/// entry exists and has not expired, a miss otherwise.
pub open spec fn spec_get(m: CacheModel, k: Seq<u8>, now: u64) -> Option<Seq<Seq<u8>>> {
    match spec_lookup(m, k) {
        Some((v, e)) => if now < e {
            Some(v)
        } else {
            None
        },
        None => None,
    }
}

/// The absolute expiry time of an entry set at `now` with `ttl`,
/// saturating at the largest representable time.
pub open spec fn spec_expiry(now: u64, ttl: u64) -> u64 {
    if now + ttl > u64::MAX {
        u64::MAX
    } else {
        (now + ttl) as u64
    }
}

/// Pairwise distinct keys.
pub open spec fn keys_unique(m: CacheModel) -> bool {
    forall|i: int, j: int| 0 <= i < j < m.len() ==> m[i].0 != m[j].0
}

struct CacheEntry {
    key: Vec<u8>,
    value: Vec<Vec<u8>>,
    expires: u64,
}

/// A TTL cache of chunk lists keyed by content digest.
pub struct Cache {
    entries: Vec<CacheEntry>,
}

proof fn lemma_lookup_skip_step(m: CacheModel, k: Seq<u8>, i: int)
    requires
        0 <= i < m.len(),
        m[i].0 != k,
        spec_lookup(m, k) == spec_lookup(m.skip(i), k),
    ensures
        spec_lookup(m, k) == spec_lookup(m.skip(i + 1), k),
{
    assert(m.skip(i).drop_first() =~= m.skip(i + 1));
}

/// Removing a key from a model with distinct keys leaves no entry with
/// that key.
proof fn lemma_remove_no_key(m: CacheModel, k: Seq<u8>)
    requires
        keys_unique(m),
    ensures
        forall|j: int| 0 <= j < spec_remove(m, k).len() ==> #[trigger] spec_remove(m, k)[j].0
            != k,
        spec_remove(m, k).len() >= m.len() - 1,
        spec_remove(m, k).len() <= m.len(),
        keys_unique(spec_remove(m, k)),
    decreases m.len(),
{
    if m.len() == 0 {
    } else if m[0].0 == k {
        assert(forall|j: int| 0 <= j < m.drop_first().len() ==> m.drop_first()[j] == m[j + 1]);
    } else {
        assert(keys_unique(m.drop_first())) by {
            assert(forall|j: int|
                0 <= j < m.drop_first().len() ==> m.drop_first()[j] == m[j + 1]);
        }
        lemma_remove_no_key(m.drop_first(), k);
        let r = seq![m[0]] + spec_remove(m.drop_first(), k);
        assert(forall|j: int| 1 <= j < r.len() ==> r[j] == spec_remove(m.drop_first(), k)[j - 1]);
        assert(forall|j: int|
            0 <= j < spec_remove(m.drop_first(), k).len()
                ==> #[trigger] spec_remove(m.drop_first(), k)[j].0 != k);
        lemma_remove_members(m.drop_first(), k);
        assert(m[0].0 != k);
    }
}

/// Every entry of the removal result is an entry of the original model.
proof fn lemma_remove_members(m: CacheModel, k: Seq<u8>)
    ensures
        forall|j: int| 0 <= j < spec_remove(m, k).len()
            ==> exists|i: int|
                0 <= i < m.len() && #[trigger] spec_remove(m, k)[j] == m[i],
    decreases m.len(),
{
    if m.len() == 0 {
    } else if m[0].0 == k {
        assert forall|j: int| 0 <= j < spec_remove(m, k).len()
            implies exists|i: int| 0 <= i < m.len() && #[trigger] spec_remove(m, k)[j] == m[i] by {
            assert(spec_remove(m, k)[j] == m[j + 1]);
        }
    } else {
        lemma_remove_members(m.drop_first(), k);
        let r = seq![m[0]] + spec_remove(m.drop_first(), k);
        assert forall|j: int| 0 <= j < r.len()
            implies exists|i: int| 0 <= i < m.len() && #[trigger] r[j] == m[i] by {
            if j == 0 {
                assert(r[0] == m[0]);
            } else {
                assert(r[j] == spec_remove(m.drop_first(), k)[j - 1]);
                let i0 = choose|i0: int|
                    0 <= i0 < m.drop_first().len() && spec_remove(m.drop_first(), k)[j - 1]
                        == m.drop_first()[i0];
                assert(m.drop_first()[i0] == m[i0 + 1]);
            }
        }
    }
}

/// If no entry of `m` is keyed `k`, a lookup after pushing `(k, v, e)`
/// finds exactly that entry.
proof fn lemma_lookup_push_last(m: CacheModel, k: Seq<u8>, v: Seq<Seq<u8>>, e: u64)
    requires
        forall|j: int| 0 <= j < m.len() ==> #[trigger] m[j].0 != k,
    ensures
        spec_lookup(m.push((k, v, e)), k) == Some((v, e)),
    decreases m.len(),
{
    if m.len() == 0 {
        assert(m.push((k, v, e))[0] == (k, v, e));
    } else {
        assert(m.push((k, v, e)).drop_first() =~= m.drop_first().push((k, v, e)));
        assert(forall|j: int|
            0 <= j < m.drop_first().len() ==> m.drop_first()[j] == m[j + 1]);
        lemma_lookup_push_last(m.drop_first(), k, v, e);
    }
}

/// Cache round trip: a value stored at time `now` with time-to-live
/// `ttl` is returned by every read of its key strictly before the
/// expiry time, and a read at or after the expiry time is a miss.
pub proof fn lemma_cache_round_trip(
    m: CacheModel,
    k: Seq<u8>,
    v: Seq<Seq<u8>>,
    ttl: u64,
    now: u64,
    now2: u64,
)
    requires
        keys_unique(m),
    ensures
        now2 < spec_expiry(now, ttl) ==> spec_get(spec_set(m, k, v, spec_expiry(now, ttl)), k, now2)
            == Some(v),
        now2 >= spec_expiry(now, ttl) ==> spec_get(
            spec_set(m, k, v, spec_expiry(now, ttl)),
            k,
            now2,
        ) is None,
{
    lemma_remove_no_key(m, k);
    lemma_lookup_push_last(spec_remove(m, k), k, v, spec_expiry(now, ttl));
}

impl Cache {
    /// The cache's mathematical contents.
    pub closed spec fn model(self) -> CacheModel {
        self.entries@.map_values(|e: CacheEntry| (e.key@, e.value.deep_view(), e.expires))
    }

    /// Well-formed: keys are pairwise distinct.
    pub open spec fn wf(self) -> bool {
        keys_unique(self.model())
    }

    /// An empty cache.
    pub fn new() -> (r: Cache)
        ensures
            r.wf(),
            r.model() == Seq::<(Seq<u8>, Seq<Seq<u8>>, u64)>::empty(),
    {
        let r = Cache { entries: Vec::new() };
        proof {
            assert(r.model() =~= Seq::<(Seq<u8>, Seq<Seq<u8>>, u64)>::empty());
        }
        r
    }

    /// Looks `key` up at time `now`: the stored chunk list if present
    /// and not yet expired, a miss otherwise.
    pub fn get(&self, key: &Vec<u8>, now: u64) -> (r: Option<&Vec<Vec<u8>>>)
        ensures
            match r {
                Some(v) => spec_get(self.model(), key@, now) == Some(v.deep_view()),
                None => spec_get(self.model(), key@, now) is None,
            },
    {
        let ghost m = self.model();
        let n = self.entries.len();
        let mut i: usize = 0;
        proof {
            assert(m.skip(0) =~= m);
            assert(m.len() == n);
        }
        while i < n
            invariant
                i <= n,
                n == self.entries@.len(),
                m == self.model(),
                m.len() == n,
                spec_lookup(m, key@) == spec_lookup(m.skip(i as int), key@),
            decreases n - i,
        {
            proof {
                assert(m[i as int] == (self.entries@[i as int].key@,
                    self.entries@[i as int].value.deep_view(),
                    self.entries@[i as int].expires));
                assert(m.skip(i as int)[0] == m[i as int]);
            }
            if crate::bytes_eq(&self.entries[i].key, key) {
                if now < self.entries[i].expires {
                    return Some(&self.entries[i].value);
                } else {
                    return None;
                }
            }
            proof {
                lemma_lookup_skip_step(m, key@, i as int);
            }
            i = i + 1;
        }
        proof {
            assert(m.skip(n as int).len() == 0);
        }
        None
    }

    /// Stores `value` under `key` at time `now` with time-to-live
    /// `ttl` seconds, replacing any earlier entry for the key.
    pub fn set(&mut self, key: Vec<u8>, value: Vec<Vec<u8>>, ttl: u64, now: u64)
        requires
            old(self).wf(),
        ensures
            final(self).wf(),
            final(self).model() == spec_set(
                old(self).model(),
                key@,
                value.deep_view(),
                spec_expiry(now, ttl),
            ),
    {
        let ghost m = old(self).model();
        let expires: u64 = if ttl > u64::MAX - now {
            u64::MAX
        } else {
            now + ttl
        };
        let n = self.entries.len();
        let mut i: usize = 0;
        let mut found: bool = false;
        proof {
            assert(m.len() == n);
        }
        while i < n && !found
            invariant
                i <= n,
                n == self.entries@.len(),
                m == self.model(),
                m.len() == n,
                !found ==> forall|j: int| 0 <= j < i ==> m[j].0 != key@,
                found ==> i < n && m[i as int].0 == key@ && forall|j: int|
                    0 <= j < i ==> m[j].0 != key@,
            decreases n - i + (if found { 0int } else { 1int }),
        {
            proof {
                assert(m[i as int] == (self.entries@[i as int].key@,
                    self.entries@[i as int].value.deep_view(),
                    self.entries@[i as int].expires));
            }
            if crate::bytes_eq(&self.entries[i].key, &key) {
                found = true;
            } else {
                i = i + 1;
            }
        }
        if found {
            self.entries.remove(i);
            proof {
                assert(self.model() =~= m.remove(i as int));
                lemma_remove_found(m, key@, i as int);
            }
        } else {
            proof {
                lemma_remove_absent(m, key@);
            }
        }
        let ghost m1 = self.model();
        let entry = CacheEntry { key, value, expires };
        self.entries.push(entry);
        proof {
            assert(self.model() =~= m1.push((entry.key@, entry.value.deep_view(),
                entry.expires)));
            assert(self.model() == spec_set(m, key@, value.deep_view(), spec_expiry(now, ttl)));
            lemma_remove_no_key(m, key@);
            let r = spec_remove(m, key@);
            assert forall|a: int, b: int| 0 <= a < b < self.model().len()
                implies self.model()[a].0 != self.model()[b].0 by {
                if b < r.len() {
                    assert(self.model()[a] == r[a]);
                    assert(self.model()[b] == r[b]);
                } else {
                    assert(self.model()[b].0 == key@);
                    assert(self.model()[a] == r[a]);
                }
            }
        }
    }
}

/// If position `i` holds the first entry keyed `k`, removing `k`
/// removes exactly that position.
proof fn lemma_remove_found(m: CacheModel, k: Seq<u8>, i: int)
    requires
        0 <= i < m.len(),
        m[i].0 == k,
        forall|j: int| 0 <= j < i ==> m[j].0 != k,
    ensures
        spec_remove(m, k) == m.remove(i),
    decreases i,
{
    if i == 0 {
        assert(spec_remove(m, k) =~= m.remove(0));
    } else {
        assert(forall|j: int| 0 <= j < m.drop_first().len() ==> m.drop_first()[j] == m[j + 1]);
        lemma_remove_found(m.drop_first(), k, i - 1);
        assert(spec_remove(m, k) == seq![m[0]] + m.drop_first().remove(i - 1));
        assert(seq![m[0]] + m.drop_first().remove(i - 1) =~= m.remove(i));
    }
}

/// Removing a key that no entry holds leaves the model unchanged.
proof fn lemma_remove_absent(m: CacheModel, k: Seq<u8>)
    requires
        forall|j: int| 0 <= j < m.len() ==> #[trigger] m[j].0 != k,
    ensures
        spec_remove(m, k) == m,
    decreases m.len(),
{
    if m.len() == 0 {
        assert(spec_remove(m, k) =~= m);
    } else {
        assert(forall|j: int| 0 <= j < m.drop_first().len() ==> m.drop_first()[j] == m[j + 1]);
        lemma_remove_absent(m.drop_first(), k);
        assert(seq![m[0]] + m.drop_first() =~= m);
    }
}

} // verus!
