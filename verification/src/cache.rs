//! The bounded render cache: least-recently-used eviction with a per-key
//! single-flight protocol for misses.
//!
//! The recency order is the slot order itself: the slot at index 0 is the
//! least recently used and the last slot the most recently used. A miss is
//! claimed with `begin_compute`, which hands the single leader an epoch; a
//! completion is accepted only while its epoch is still the pending one, so a
//! result that lost a race against an eviction is discarded instead of
//! resurrecting the key.

use vstd::prelude::*;

use crate::error::Error;
use crate::seqfacts::{
    elem_at, has_key, lemma_elem_at_index, lemma_elem_at_key, lemma_filter_all_keep,
    lemma_filter_keyed, lemma_filter_remove_at, lemma_filter_subset, lemma_filter_take_step,
    lemma_take_full, unique_keys,
};

verus! {

/// What one cached rendering is filed under: the entry id and a code for the
/// render parameters (anything that affects the output).
#[derive(Clone, Copy, Debug, PartialEq, Eq, Structural)]
pub struct CacheKey {
    pub id: u64,
    pub params: u64,
}

/// One cached rendering.
pub struct CacheSlot {
    pub key: CacheKey,
    pub value: String,
}

impl Clone for CacheSlot {
    fn clone(&self) -> (r: Self)
        ensures
            r == *self,
    {
        CacheSlot { key: self.key, value: self.value.clone() }
    }
}

/// An in-flight computation: its key and the epoch its leader was handed.
#[derive(Clone, Copy, Debug, PartialEq, Eq, Structural)]
pub struct PendingSlot {
    pub key: CacheKey,
    pub epoch: u64,
}

/// The key of a cached slot.
pub open spec fn slot_key() -> spec_fn(CacheSlot) -> CacheKey {
    |c: CacheSlot| c.key
}

/// Whether a rendering for `k` is cached.
pub open spec fn cache_has(s: Seq<CacheSlot>, k: CacheKey) -> bool {
    has_key(s, slot_key(), k)
}

/// The slot filed under `k` (meaningful when present and keys are unique).
pub open spec fn slot_at(s: Seq<CacheSlot>, k: CacheKey) -> CacheSlot {
    elem_at(s, slot_key(), k)
}

/// The cached rendering for `k`.
pub open spec fn cached_value(s: Seq<CacheSlot>, k: CacheKey) -> String {
    slot_at(s, k).value
}

/// No two slots share a key.
pub open spec fn slot_keys_unique(s: Seq<CacheSlot>) -> bool {
    unique_keys(s, slot_key())
}

/// Keeps every slot but the one for `k`.
pub open spec fn pred_slot_not_key(k: CacheKey) -> spec_fn(CacheSlot) -> bool {
    |c: CacheSlot| c.key != k
}

/// The slots after the one for `k` is evicted.
pub open spec fn spec_evict(s: Seq<CacheSlot>, k: CacheKey) -> Seq<CacheSlot> {
    s.filter(pred_slot_not_key(k))
}

/// Keeps the slots whose key is for another entry id.
pub open spec fn pred_slot_not_id(id: u64) -> spec_fn(CacheSlot) -> bool {
    |c: CacheSlot| c.key.id != id
}

/// The slots after every render-parameter variant of one entry id is evicted.
pub open spec fn spec_evict_id(s: Seq<CacheSlot>, id: u64) -> Seq<CacheSlot> {
    s.filter(pred_slot_not_id(id))
}

/// Whether any slot caches a rendering of the entry with this id.
pub open spec fn cache_has_id(s: Seq<CacheSlot>, id: u64) -> bool {
    exists|i: int| 0 <= i < s.len() && (#[trigger] s[i]).key.id == id
}

/// What inserting a rendering does: the key's old slot (if any) leaves, the
/// least recently used slot leaves when the cache is otherwise full, and the
/// new slot enters at the most recently used end.
pub open spec fn spec_insert(s: Seq<CacheSlot>, cap: nat, k: CacheKey, v: String) -> Seq<
    CacheSlot,
> {
    let cleared = spec_evict(s, k);
    let trimmed = if cleared.len() >= cap {
        cleared.subrange(1, cleared.len() as int)
    } else {
        cleared
    };
    trimmed.push(CacheSlot { key: k, value: v })
}

/// The key of a pending computation.
pub open spec fn pend_key() -> spec_fn(PendingSlot) -> CacheKey {
    |p: PendingSlot| p.key
}

/// Whether a computation for `k` is in flight.
pub open spec fn pending_has(s: Seq<PendingSlot>, k: CacheKey) -> bool {
    has_key(s, pend_key(), k)
}

/// The pending marker for `k` (meaningful when present and keys are unique).
pub open spec fn pending_at(s: Seq<PendingSlot>, k: CacheKey) -> PendingSlot {
    elem_at(s, pend_key(), k)
}

/// Keeps every pending marker but the one for `k`.
pub open spec fn pred_pend_not_key(k: CacheKey) -> spec_fn(PendingSlot) -> bool {
    |p: PendingSlot| p.key != k
}

/// The pending markers after the one for `k` is invalidated.
pub open spec fn spec_pending_remove(s: Seq<PendingSlot>, k: CacheKey) -> Seq<PendingSlot> {
    s.filter(pred_pend_not_key(k))
}

/// Keeps the pending markers whose key is for another entry id.
pub open spec fn pred_pend_not_id(id: u64) -> spec_fn(PendingSlot) -> bool {
    |p: PendingSlot| p.key.id != id
}

/// The pending markers after every variant of one entry id is invalidated.
pub open spec fn spec_pending_remove_id(s: Seq<PendingSlot>, id: u64) -> Seq<PendingSlot> {
    s.filter(pred_pend_not_id(id))
}

/// What evicting one key does to presence and to the other slots.
pub proof fn lemma_evict(s: Seq<CacheSlot>, k: CacheKey)
    requires
        slot_keys_unique(s),
    ensures
        slot_keys_unique(spec_evict(s, k)),
        spec_evict(s, k).len() <= s.len(),
        !cache_has(spec_evict(s, k), k),
        forall|x: CacheKey| #[trigger] cache_has(spec_evict(s, k), x) <==> cache_has(s, x) && x != k,
        forall|x: CacheKey|
            x != k && #[trigger] cache_has(s, x) ==> slot_at(spec_evict(s, k), x) == slot_at(s, x),
{
    lemma_filter_keyed(s, slot_key(), pred_slot_not_key(k));
    assert forall|x: CacheKey| cache_has(s, x) && x != k implies #[trigger] cache_has(
        spec_evict(s, k),
        x,
    ) by {
        lemma_elem_at_key(s, slot_key(), x);
    }
    if cache_has(spec_evict(s, k), k) {
        lemma_elem_at_key(s, slot_key(), k);
    }
    assert forall|x: CacheKey| x != k && #[trigger] cache_has(s, x) implies slot_at(
        spec_evict(s, k),
        x,
    ) == slot_at(s, x) by {
        lemma_elem_at_key(s, slot_key(), x);
        assert(cache_has(spec_evict(s, k), x));
    }
}

/// What evicting a whole entry id does to presence and to the other slots.
pub proof fn lemma_evict_id(s: Seq<CacheSlot>, id: u64)
    requires
        slot_keys_unique(s),
    ensures
        slot_keys_unique(spec_evict_id(s, id)),
        spec_evict_id(s, id).len() <= s.len(),
        !cache_has_id(spec_evict_id(s, id), id),
        forall|x: CacheKey|
            #[trigger] cache_has(spec_evict_id(s, id), x) <==> cache_has(s, x) && x.id != id,
        forall|x: CacheKey|
            x.id != id && #[trigger] cache_has(s, x) ==> slot_at(spec_evict_id(s, id), x)
                == slot_at(s, x),
{
    lemma_filter_keyed(s, slot_key(), pred_slot_not_id(id));
    let f = spec_evict_id(s, id);
    assert forall|i: int| 0 <= i < f.len() implies (#[trigger] f[i]).key.id != id by {
        s.lemma_filter_pred(pred_slot_not_id(id), i);
    }
    assert forall|x: CacheKey| #[trigger] cache_has(f, x) implies cache_has(s, x) && x.id
        != id by {
        lemma_elem_at_key(s, slot_key(), x);
    }
    assert forall|x: CacheKey| cache_has(s, x) && x.id != id implies #[trigger] cache_has(
        f,
        x,
    ) by {
        lemma_elem_at_key(s, slot_key(), x);
    }
    assert forall|x: CacheKey| x.id != id && #[trigger] cache_has(s, x) implies slot_at(f, x)
        == slot_at(s, x) by {
        lemma_elem_at_key(s, slot_key(), x);
        assert(cache_has(f, x));
    }
}

/// Inserting keeps keys unique and the capacity bound, and files the new
/// rendering at the most recently used end.
pub proof fn lemma_insert(s: Seq<CacheSlot>, cap: nat, k: CacheKey, v: String)
    requires
        slot_keys_unique(s),
        s.len() <= cap,
        cap >= 1,
    ensures
        slot_keys_unique(spec_insert(s, cap, k, v)),
        spec_insert(s, cap, k, v).len() <= cap,
        cache_has(spec_insert(s, cap, k, v), k),
        cached_value(spec_insert(s, cap, k, v), k) == v,
        forall|x: CacheKey|
            x != k && #[trigger] cache_has(spec_insert(s, cap, k, v), x) ==> cache_has(s, x)
                && slot_at(spec_insert(s, cap, k, v), x) == slot_at(s, x),
{
    lemma_evict(s, k);
    let cleared = spec_evict(s, k);
    let trimmed = if cleared.len() >= cap {
        cleared.subrange(1, cleared.len() as int)
    } else {
        cleared
    };
    let out = trimmed.push(CacheSlot { key: k, value: v });
    assert forall|i: int, j: int| 0 <= i < j < trimmed.len() implies (slot_key())(
        #[trigger] trimmed[i],
    ) != (slot_key())(#[trigger] trimmed[j]) by {
        if cleared.len() >= cap {
            assert(trimmed[i] == cleared[i + 1] && trimmed[j] == cleared[j + 1]);
        }
    }
    assert forall|i: int| 0 <= i < trimmed.len() implies (#[trigger] trimmed[i]).key != k by {
        let w = if cleared.len() >= cap {
            i + 1
        } else {
            i
        };
        assert(trimmed[i] == cleared[w]);
        assert(cache_has(cleared, cleared[w].key)) by {
            let kf = slot_key();
            assert(kf(cleared[w]) == cleared[w].key);
        }
    }
    assert forall|i: int, j: int| 0 <= i < j < out.len() implies (slot_key())(#[trigger] out[i])
        != (slot_key())(#[trigger] out[j]) by {
        if j < out.len() - 1 {
            assert(out[i] == trimmed[i] && out[j] == trimmed[j]);
        } else {
            assert(out[i] == trimmed[i]);
        }
    }
    lemma_elem_at_index(out, slot_key(), out.len() - 1);
    assert forall|x: CacheKey| x != k && #[trigger] cache_has(out, x) implies cache_has(s, x)
        && slot_at(out, x) == slot_at(s, x) by {
        let kf = slot_key();
        let i = choose|i: int| 0 <= i < out.len() && kf(#[trigger] out[i]) == x;
        assert(i < out.len() - 1);
        lemma_elem_at_index(out, kf, i);
        let w = if cleared.len() >= cap {
            i + 1
        } else {
            i
        };
        assert(out[i] == cleared[w]);
        lemma_elem_at_index(cleared, kf, w);
        assert(cache_has(cleared, x));
    }
}

/// What a consistent cache guarantees of its slots and pending markers.
pub proof fn lemma_cache_wf(c: RenderCache)
    requires
        c.wf(),
    ensures
        c.cap() >= 1,
        slot_keys_unique(c.contents()),
        c.contents().len() <= c.cap(),
        unique_keys(c.pending(), pend_key()),
{
}

/// The bounded render cache. Capacity is fixed at construction and at least 1.
pub struct RenderCache {
    slots: Vec<CacheSlot>,
    inflight: Vec<PendingSlot>,
    capacity: usize,
    epoch_counter: u64,
}

impl RenderCache {
    /// The cached slots, least recently used first.
    pub closed spec fn contents(&self) -> Seq<CacheSlot> {
        self.slots@
    }

    /// The in-flight computations.
    pub closed spec fn pending(&self) -> Seq<PendingSlot> {
        self.inflight@
    }

    /// The fixed capacity.
    pub closed spec fn cap(&self) -> nat {
        self.capacity as nat
    }

    /// The next epoch a leader will be handed.
    pub closed spec fn epoch_mark(&self) -> u64 {
        self.epoch_counter
    }

    /// Internal consistency: unique keys on both sides, the capacity bound,
    /// and every pending epoch below the counter.
    pub closed spec fn wf(&self) -> bool {
        &&& self.capacity >= 1
        &&& slot_keys_unique(self.slots@)
        &&& self.slots@.len() <= self.capacity as nat
        &&& unique_keys(self.inflight@, pend_key())
        &&& forall|i: int|
            0 <= i < self.inflight@.len() ==> (#[trigger] self.inflight@[i]).epoch
                < self.epoch_counter
    }

    /// Whether another epoch can still be handed out.
    pub closed spec fn can_advance_epoch(&self) -> bool {
        self.epoch_counter < u64::MAX
    }

    /// A cache of the given capacity; zero capacity is an invalid
    /// configuration.
    pub fn new(capacity: usize) -> (r: Result<RenderCache, Error>)
        ensures
            (match r {
                Ok(c) => capacity >= 1 && c.wf() && c.cap() == capacity && c.contents()
                    == Seq::<CacheSlot>::empty() && c.pending() == Seq::<PendingSlot>::empty()
                    && c.can_advance_epoch(),
                Err(e) => e == Error::InvalidConfiguration && capacity == 0,
            }),
    {
        if capacity == 0 {
            return Err(Error::InvalidConfiguration);
        }
        let c = RenderCache {
            slots: Vec::new(),
            inflight: Vec::new(),
            capacity,
            epoch_counter: 0,
        };
        proof {
            assert(c.slots@ =~= Seq::<CacheSlot>::empty());
            assert(c.inflight@ =~= Seq::<PendingSlot>::empty());
        }
        Ok(c)
    }

    /// Number of cached renderings.
    pub fn len(&self) -> (n: usize)
        ensures
            n == self.contents().len(),
    {
        self.slots.len()
    }

    /// The fixed capacity.
    pub fn capacity(&self) -> (n: usize)
        ensures
            n == self.cap(),
    {
        self.capacity
    }

    /// Runtime check matching `can_advance_epoch`.
    pub fn has_epoch_headroom(&self) -> (r: bool)
        ensures
            r == self.can_advance_epoch(),
    {
        self.epoch_counter < u64::MAX
    }

    fn find_slot(&self, key: CacheKey) -> (r: Option<usize>)
        ensures
            (match r {
                Some(i) => i < self.contents().len() && self.contents()[i as int].key == key
                    && cache_has(self.contents(), key),
                None => !cache_has(self.contents(), key),
            }),
    {
        let n = self.slots.len();
        let mut i: usize = 0;
        while i < n
            invariant
                n == self.slots@.len(),
                i <= n,
                forall|j: int| 0 <= j < i ==> (#[trigger] self.slots@[j]).key != key,
            decreases n - i,
        {
            if self.slots[i].key == key {
                proof {
                    let kf = slot_key();
                    assert(kf(self.slots@[i as int]) == key);
                }
                return Some(i);
            }
            i += 1;
        }
        proof {
            if cache_has(self.contents(), key) {
                let kf = slot_key();
                let j = choose|j: int|
                    0 <= j < self.slots@.len() && kf(#[trigger] self.slots@[j]) == key;
                assert(self.slots@[j].key != key);
            }
        }
        None
    }

    fn find_pending(&self, key: CacheKey) -> (r: Option<usize>)
        ensures
            (match r {
                Some(i) => i < self.pending().len() && self.pending()[i as int].key == key
                    && pending_has(self.pending(), key),
                None => !pending_has(self.pending(), key),
            }),
    {
        let n = self.inflight.len();
        let mut i: usize = 0;
        while i < n
            invariant
                n == self.inflight@.len(),
                i <= n,
                forall|j: int| 0 <= j < i ==> (#[trigger] self.inflight@[j]).key != key,
            decreases n - i,
        {
            if self.inflight[i].key == key {
                proof {
                    let kf = pend_key();
                    assert(kf(self.inflight@[i as int]) == key);
                }
                return Some(i);
            }
            i += 1;
        }
        proof {
            if pending_has(self.pending(), key) {
                let kf = pend_key();
                let j = choose|j: int|
                    0 <= j < self.inflight@.len() && kf(#[trigger] self.inflight@[j]) == key;
                assert(self.inflight@[j].key != key);
            }
        }
        None
    }

    /// Whether a rendering for `key` is cached; reads without touching
    /// recency.
    pub fn contains_key(&self, key: CacheKey) -> (r: bool)
        ensures
            r == cache_has(self.contents(), key),
    {
        match self.find_slot(key) {
            Some(_) => true,
            None => false,
        }
    }

    /// A hit returns the cached rendering and marks it most recently used; a
    /// miss changes nothing.
    pub fn lookup(&mut self, key: CacheKey) -> (r: Option<String>)
        requires
            old(self).wf(),
        ensures
            final(self).wf(),
            final(self).cap() == old(self).cap(),
            final(self).pending() == old(self).pending(),
            final(self).epoch_mark() == old(self).epoch_mark(),
            final(self).can_advance_epoch() == old(self).can_advance_epoch(),
            (match r {
                Some(v) => cache_has(old(self).contents(), key) && v == cached_value(
                    old(self).contents(),
                    key,
                ) && final(self).contents() == spec_insert(
                    old(self).contents(),
                    old(self).cap(),
                    key,
                    v,
                ),
                None => !cache_has(old(self).contents(), key) && final(self).contents()
                    == old(self).contents(),
            }),
    {
        match self.find_slot(key) {
            None => None,
            Some(i) => {
                proof {
                    lemma_elem_at_index(self.slots@, slot_key(), i as int);
                    lemma_filter_remove_at(self.slots@, pred_slot_not_key(key), i as int);
                    lemma_evict(self.slots@, key);
                }
                let slot = self.slots.remove(i);
                let v = slot.value.clone();
                self.slots.push(slot);
                proof {
                    let olds = old(self).contents();
                    let cleared = spec_evict(olds, key);
                    assert(cleared.len() < old(self).cap());
                    assert(final(self).contents() == cleared.push(
                        (CacheSlot { key, value: v }),
                    )) by {
                        assert(olds[i as int] == (CacheSlot { key, value: v }));
                    }
                    lemma_insert(olds, old(self).cap(), key, v);
                }
                Some(v)
            },
        }
    }

    /// Files a rendering under `key`, replacing any older slot for the key and
    /// evicting the least recently used slot when the cache is otherwise full.
    pub fn insert(&mut self, key: CacheKey, value: String)
        requires
            old(self).wf(),
        ensures
            final(self).wf(),
            final(self).cap() == old(self).cap(),
            final(self).pending() == old(self).pending(),
            final(self).epoch_mark() == old(self).epoch_mark(),
            final(self).can_advance_epoch() == old(self).can_advance_epoch(),
            final(self).contents() == spec_insert(
                old(self).contents(),
                old(self).cap(),
                key,
                value,
            ),
    {
        proof {
            lemma_evict(old(self).contents(), key);
        }
        match self.find_slot(key) {
            Some(i) => {
                proof {
                    lemma_filter_remove_at(self.slots@, pred_slot_not_key(key), i as int);
                }
                self.slots.remove(i);
            },
            None => {
                proof {
                    assert forall|j: int| 0 <= j < self.slots@.len() implies (pred_slot_not_key(
                        key,
                    ))(#[trigger] self.slots@[j]) by {
                        let kf = slot_key();
                        if self.slots@[j].key == key {
                            assert(kf(self.slots@[j]) == key);
                        }
                    }
                    lemma_filter_all_keep(self.slots@, pred_slot_not_key(key));
                }
                if self.slots.len() >= self.capacity {
                    proof {
                        assert(self.slots@.remove(0) =~= self.slots@.subrange(
                            1,
                            self.slots@.len() as int,
                        ));
                    }
                    self.slots.remove(0);
                }
            },
        }
        self.slots.push(CacheSlot { key, value });
        proof {
            lemma_insert(old(self).contents(), old(self).cap(), key, value);
        }
    }

    /// Claims leadership of a miss for `key`. The single leader is handed an
    /// epoch; while a computation is already in flight the caller must wait
    /// instead, and nothing changes.
    pub fn begin_compute(&mut self, key: CacheKey) -> (r: Option<u64>)
        requires
            old(self).wf(),
            old(self).can_advance_epoch(),
        ensures
            final(self).wf(),
            final(self).cap() == old(self).cap(),
            final(self).contents() == old(self).contents(),
            (match r {
                Some(e) => !pending_has(old(self).pending(), key) && e == old(self).epoch_mark()
                    && final(self).pending() == old(self).pending().push(
                    (PendingSlot { key, epoch: e }),
                ) && final(self).epoch_mark() == e + 1,
                None => pending_has(old(self).pending(), key) && final(self).pending()
                    == old(self).pending() && final(self).epoch_mark() == old(self).epoch_mark(),
            }),
    {
        match self.find_pending(key) {
            Some(_) => None,
            None => {
                let e = self.epoch_counter;
                self.inflight.push(PendingSlot { key, epoch: e });
                self.epoch_counter = e + 1;
                proof {
                    let p = self.inflight@;
                    let kf = pend_key();
                    assert forall|i: int, j: int| 0 <= i < j < p.len() implies kf(
                        #[trigger] p[i],
                    ) != kf(#[trigger] p[j]) by {
                        if j == p.len() - 1 {
                            assert(p[i] == old(self).pending()[i]);
                            if p[i].key == key {
                                assert(kf(old(self).pending()[i]) == key);
                            }
                        }
                    }
                }
                Some(e)
            },
        }
    }

    /// Delivers a leader's successful rendering. It is filed only while the
    /// pending marker still carries the leader's epoch; a stale completion
    /// (the key was evicted, or a newer leader took over) is discarded.
    pub fn complete_ok(&mut self, key: CacheKey, epoch: u64, value: String) -> (r: bool)
        requires
            old(self).wf(),
        ensures
            final(self).wf(),
            final(self).cap() == old(self).cap(),
            final(self).epoch_mark() == old(self).epoch_mark(),
            final(self).can_advance_epoch() == old(self).can_advance_epoch(),
            r == (pending_has(old(self).pending(), key) && pending_at(
                old(self).pending(),
                key,
            ).epoch == epoch),
            (if r {
                final(self).pending() == spec_pending_remove(old(self).pending(), key)
                    && final(self).contents() == spec_insert(old(self).contents(), old(self).cap(), key, value)
            } else {
                final(self).pending() == old(self).pending()
                    && final(self).contents() == old(self).contents()
            }),
    {
        match self.find_pending(key) {
            None => false,
            Some(i) => {
                proof {
                    lemma_elem_at_index(self.inflight@, pend_key(), i as int);
                }
                if self.inflight[i].epoch != epoch {
                    return false;
                }
                proof {
                    lemma_filter_remove_at(self.inflight@, pred_pend_not_key(key), i as int);
                    lemma_filter_keyed(self.inflight@, pend_key(), pred_pend_not_key(key));
                }
                self.inflight.remove(i);
                self.insert(key, value);
                true
            },
        }
    }

    /// Clears a leader's failed computation so the next request retries;
    /// nothing is cached. Stale failures are discarded like stale successes.
    pub fn complete_err(&mut self, key: CacheKey, epoch: u64) -> (r: bool)
        requires
            old(self).wf(),
        ensures
            final(self).wf(),
            final(self).cap() == old(self).cap(),
            final(self).epoch_mark() == old(self).epoch_mark(),
            final(self).can_advance_epoch() == old(self).can_advance_epoch(),
            final(self).contents() == old(self).contents(),
            r == (pending_has(old(self).pending(), key) && pending_at(
                old(self).pending(),
                key,
            ).epoch == epoch),
            (if r {
                final(self).pending() == spec_pending_remove(old(self).pending(), key)
            } else {
                final(self).pending() == old(self).pending()
            }),
    {
        match self.find_pending(key) {
            None => false,
            Some(i) => {
                proof {
                    lemma_elem_at_index(self.inflight@, pend_key(), i as int);
                }
                if self.inflight[i].epoch != epoch {
                    return false;
                }
                proof {
                    lemma_filter_remove_at(self.inflight@, pred_pend_not_key(key), i as int);
                    lemma_filter_keyed(self.inflight@, pend_key(), pred_pend_not_key(key));
                }
                self.inflight.remove(i);
                true
            },
        }
    }

    /// Removes the slot for `key` if present and invalidates any in-flight
    /// computation for it, so a stale completion cannot resurrect the key.
    pub fn evict(&mut self, key: CacheKey) -> (r: bool)
        requires
            old(self).wf(),
        ensures
            final(self).wf(),
            final(self).cap() == old(self).cap(),
            final(self).epoch_mark() == old(self).epoch_mark(),
            final(self).can_advance_epoch() == old(self).can_advance_epoch(),
            r == cache_has(old(self).contents(), key),
            final(self).contents() == spec_evict(old(self).contents(), key),
            final(self).pending() == spec_pending_remove(old(self).pending(), key),
    {
        proof {
            lemma_evict(old(self).contents(), key);
            lemma_filter_keyed(old(self).pending(), pend_key(), pred_pend_not_key(key));
        }
        let removed = match self.find_slot(key) {
            Some(i) => {
                proof {
                    lemma_filter_remove_at(self.slots@, pred_slot_not_key(key), i as int);
                }
                self.slots.remove(i);
                true
            },
            None => {
                proof {
                    assert forall|j: int| 0 <= j < self.slots@.len() implies (pred_slot_not_key(
                        key,
                    ))(#[trigger] self.slots@[j]) by {
                        let kf = slot_key();
                        if self.slots@[j].key == key {
                            assert(kf(self.slots@[j]) == key);
                        }
                    }
                    lemma_filter_all_keep(self.slots@, pred_slot_not_key(key));
                }
                false
            },
        };
        match self.find_pending(key) {
            Some(i) => {
                proof {
                    lemma_filter_remove_at(self.inflight@, pred_pend_not_key(key), i as int);
                }
                self.inflight.remove(i);
            },
            None => {
                proof {
                    assert forall|j: int| 0 <= j < self.inflight@.len() implies (
                    pred_pend_not_key(key))(#[trigger] self.inflight@[j]) by {
                        let kf = pend_key();
                        if self.inflight@[j].key == key {
                            assert(kf(self.inflight@[j]) == key);
                        }
                    }
                    lemma_filter_all_keep(self.inflight@, pred_pend_not_key(key));
                }
            },
        }
        removed
    }

    /// Removes every cached variant of one entry id and invalidates every
    /// in-flight computation for it; used when the entry leaves the store.
    pub fn evict_id(&mut self, id: u64)
        requires
            old(self).wf(),
        ensures
            final(self).wf(),
            final(self).cap() == old(self).cap(),
            final(self).epoch_mark() == old(self).epoch_mark(),
            final(self).can_advance_epoch() == old(self).can_advance_epoch(),
            final(self).contents() == spec_evict_id(old(self).contents(), id),
            final(self).pending() == spec_pending_remove_id(old(self).pending(), id),
    {
        proof {
            lemma_evict_id(old(self).contents(), id);
            lemma_filter_keyed(old(self).pending(), pend_key(), pred_pend_not_id(id));
            assert(self.slots@.take(0) =~= Seq::<CacheSlot>::empty());
            assert(self.inflight@.take(0) =~= Seq::<PendingSlot>::empty());
            reveal(Seq::filter);
        }
        let mut kept: Vec<CacheSlot> = Vec::new();
        let n = self.slots.len();
        let mut i: usize = 0;
        while i < n
            invariant
                n == self.slots@.len(),
                i <= n,
                kept@ == spec_evict_id(self.slots@.take(i as int), id),
            decreases n - i,
        {
            proof {
                lemma_filter_take_step(self.slots@, pred_slot_not_id(id), i as int);
            }
            let c = &self.slots[i];
            if c.key.id != id {
                kept.push(c.clone());
            }
            i += 1;
        }
        proof {
            lemma_take_full(self.slots@);
        }
        self.slots = kept;
        let mut kept_pending: Vec<PendingSlot> = Vec::new();
        let m = self.inflight.len();
        let mut j: usize = 0;
        proof {
            reveal(Seq::filter);
        }
        while j < m
            invariant
                m == self.inflight@.len(),
                j <= m,
                kept_pending@ == spec_pending_remove_id(self.inflight@.take(j as int), id),
            decreases m - j,
        {
            proof {
                lemma_filter_take_step(self.inflight@, pred_pend_not_id(id), j as int);
            }
            let p = self.inflight[j];
            if p.key.id != id {
                kept_pending.push(p);
            }
            j += 1;
        }
        proof {
            lemma_take_full(self.inflight@);
        }
        self.inflight = kept_pending;
        proof {
            let f = final(self).pending();
            lemma_filter_subset(old(self).pending(), pred_pend_not_id(id));
            let mark = final(self).epoch_mark();
            assert forall|i2: int| 0 <= i2 < f.len() implies (#[trigger] f[i2]).epoch < mark by {
                assert(old(self).pending().contains(f[i2]));
                let w = choose|w: int|
                    0 <= w < old(self).pending().len() && old(self).pending()[w] == f[i2];
                assert(old(self).pending()[w].epoch < old(self).epoch_mark());
            }
        }
    }
}

} // verus!
