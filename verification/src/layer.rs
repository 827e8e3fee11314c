//! The coordinator: composes the entry store and the render cache and owns
//! the invariant that no cached rendering outlives its store row. It is the
//! only component that calls both sides, and the only surface the outside
//! world uses: fetch-rendered, insert-entry, delete-entry and the purge step.

use vstd::prelude::*;

use crate::cache::{
    cache_has, cache_has_id, lemma_evict_id, pred_pend_not_id, pred_slot_not_id, slot_key,
    slot_keys_unique, spec_evict, spec_evict_id, spec_insert, spec_pending_remove_id, CacheKey,
    CacheSlot, PendingSlot, RenderCache,
};
use crate::entry::{spec_is_expired, Entry};
use crate::error::Error;
use crate::render::{hint_of, hint_ref_view, render, render_result};
use crate::seqfacts::{
    lemma_elem_at_index, lemma_filter_agree, lemma_filter_all_keep, lemma_filter_filter,
    lemma_filter_subset, lemma_take_full, pred_and,
};
use crate::store::{
    entry_at, entry_key, ids_unique, live, pred_entry_not_id, pred_entry_not_in,
    pred_entry_unexpired, spec_remove_id, store_has, EntryStore,
};

verus! {

/// No cached rendering may outlive or contradict its store row: every slot's
/// id is present, its row is not burn-after-read, and the cached value is the
/// rendering of that row's content under its hint.
pub open spec fn coherent(rows: Seq<Entry>, slots: Seq<CacheSlot>) -> bool {
    forall|i: int|
        0 <= i < slots.len() ==> {
            let sl = #[trigger] slots[i];
            &&& store_has(rows, sl.key.id)
            &&& !entry_at(rows, sl.key.id).burn_after_read
            &&& render_result(
                entry_at(rows, sl.key.id).content@,
                hint_of(entry_at(rows, sl.key.id).language_hint),
            ) == Some(sl.value@)
        }
}

/// What a fetch does to the store: a live burn-after-read row is consumed,
/// anything else is left alone.
pub open spec fn spec_fetch_store(rows: Seq<Entry>, id: u64, now: u64) -> Seq<Entry> {
    if live(rows, id, now) && entry_at(rows, id).burn_after_read {
        spec_remove_id(rows, id)
    } else {
        rows
    }
}

/// Keeps the slots whose row has not expired by `now`.
pub open spec fn pred_row_kept(rows: Seq<Entry>, now: u64) -> spec_fn(CacheSlot) -> bool {
    |c: CacheSlot| !(store_has(rows, c.key.id) && spec_is_expired(entry_at(rows, c.key.id), now))
}

/// Keeps the pending markers whose row has not expired by `now`.
pub open spec fn pred_pend_kept(rows: Seq<Entry>, now: u64) -> spec_fn(PendingSlot) -> bool {
    |p: PendingSlot| !(store_has(rows, p.key.id) && spec_is_expired(entry_at(rows, p.key.id), now))
}

/// Keeps the slots whose id is not among `ids`.
pub open spec fn pred_slot_not_in(ids: Seq<u64>) -> spec_fn(CacheSlot) -> bool {
    |c: CacheSlot| !ids.contains(c.key.id)
}

/// Keeps the pending markers whose id is not among `ids`.
pub open spec fn pred_pend_not_in(ids: Seq<u64>) -> spec_fn(PendingSlot) -> bool {
    |p: PendingSlot| !ids.contains(p.key.id)
}

/// Inserting a rendering that matches its live, non-burn row keeps the cache
/// coherent with the store.
proof fn lemma_coherent_insert(
    rows: Seq<Entry>,
    slots: Seq<CacheSlot>,
    cap: nat,
    k: CacheKey,
    v: String,
)
    requires
        slot_keys_unique(slots),
        slots.len() <= cap,
        cap >= 1,
        coherent(rows, slots),
        store_has(rows, k.id),
        !entry_at(rows, k.id).burn_after_read,
        render_result(entry_at(rows, k.id).content@, hint_of(entry_at(rows, k.id).language_hint))
            == Some(v@),
    ensures
        coherent(rows, spec_insert(slots, cap, k, v)),
{
    let out = spec_insert(slots, cap, k, v);
    let cleared = spec_evict(slots, k);
    crate::seqfacts::lemma_filter_subset(slots, crate::cache::pred_slot_not_key(k));
    assert forall|i: int| 0 <= i < out.len() implies {
        let sl = #[trigger] out[i];
        &&& store_has(rows, sl.key.id)
        &&& !entry_at(rows, sl.key.id).burn_after_read
        &&& render_result(
            entry_at(rows, sl.key.id).content@,
            hint_of(entry_at(rows, sl.key.id).language_hint),
        ) == Some(sl.value@)
    } by {
        if i == out.len() - 1 {
            assert(out[i] == (CacheSlot { key: k, value: v }));
        } else {
            let w = if cleared.len() >= cap {
                i + 1
            } else {
                i
            };
            assert(out[i] == cleared[w]);
            assert(slots.contains(cleared[w]));
            let j = choose|j: int| 0 <= j < slots.len() && slots[j] == cleared[w];
            assert(slots[j] == out[i]);
        }
    }
}

/// What a consistent coordinator guarantees at any time: unique row ids,
/// unique cache keys, the capacity bound — the cache never holds more than
/// its capacity, whatever sequence of operations ran — and coherence of the
/// cache with the store.
pub proof fn lemma_layer_wf(l: Layer)
    requires
        l.wf(),
    ensures
        ids_unique(l.rows()),
        slot_keys_unique(l.slots()),
        l.slots().len() <= l.cap(),
        l.cap() >= 1,
        coherent(l.rows(), l.slots()),
{
    crate::store::lemma_store_wf(l.store);
    crate::cache::lemma_cache_wf(l.cache);
}

/// The recurring purge's configuration: a fixed, positive tick interval.
pub struct PurgeConfig {
    interval_seconds: u64,
}

impl PurgeConfig {
    /// The configured interval.
    pub closed spec fn interval(&self) -> u64 {
        self.interval_seconds
    }

    /// A non-positive interval is an invalid configuration.
    pub fn new(interval_seconds: u64) -> (r: Result<PurgeConfig, Error>)
        ensures
            (match r {
                Ok(c) => interval_seconds >= 1 && c.interval() == interval_seconds,
                Err(e) => e == Error::InvalidConfiguration && interval_seconds == 0,
            }),
    {
        if interval_seconds == 0 {
            Err(Error::InvalidConfiguration)
        } else {
            Ok(PurgeConfig { interval_seconds })
        }
    }

    /// The configured interval, for the loop that sleeps between sweeps.
    pub fn interval_seconds(&self) -> (r: u64)
        ensures
            r == self.interval(),
    {
        self.interval_seconds
    }
}

/// The coordinator over one entry store and one render cache.
pub struct Layer {
    store: EntryStore,
    cache: RenderCache,
}

impl Layer {
    /// The store rows.
    pub closed spec fn rows(&self) -> Seq<Entry> {
        self.store@
    }

    /// The cached slots, least recently used first.
    pub closed spec fn slots(&self) -> Seq<CacheSlot> {
        self.cache.contents()
    }

    /// The in-flight computations of the cache.
    pub closed spec fn pend(&self) -> Seq<PendingSlot> {
        self.cache.pending()
    }

    /// The cache capacity.
    pub closed spec fn cap(&self) -> nat {
        self.cache.cap()
    }

    /// Both components are consistent and the cache is coherent with the
    /// store.
    pub closed spec fn wf(&self) -> bool {
        &&& self.store.wf()
        &&& self.cache.wf()
        &&& coherent(self.store@, self.cache.contents())
    }

    /// Whether a fresh id can still be assigned.
    pub closed spec fn can_insert(&self) -> bool {
        self.store.can_assign_id()
    }

    /// A coordinator with an empty store and an empty cache of the given
    /// capacity; zero capacity is an invalid configuration.
    pub fn new(capacity: usize) -> (r: Result<Layer, Error>)
        ensures
            (match r {
                Ok(l) => capacity >= 1 && l.wf() && l.can_insert() && l.cap() == capacity
                    && l.rows() == Seq::<Entry>::empty() && l.slots() == Seq::<CacheSlot>::empty()
                    && l.pend() == Seq::<PendingSlot>::empty(),
                Err(e) => e == Error::InvalidConfiguration && capacity == 0,
            }),
    {
        match RenderCache::new(capacity) {
            Err(e) => Err(e),
            Ok(cache) => Ok(Layer { store: EntryStore::new(), cache }),
        }
    }

    /// Number of store rows physically present.
    pub fn store_count(&self) -> (n: usize)
        ensures
            n == self.rows().len(),
    {
        self.store.row_count()
    }

    /// Number of cached renderings.
    pub fn cached_count(&self) -> (n: usize)
        ensures
            n == self.slots().len(),
    {
        self.cache.len()
    }

    /// The cache capacity.
    pub fn capacity(&self) -> (n: usize)
        ensures
            n == self.cap(),
    {
        self.cache.capacity()
    }

    /// Whether a row with this id is physically present.
    pub fn contains_entry(&self, id: u64) -> (r: bool)
        requires
            self.wf(),
        ensures
            r == store_has(self.rows(), id),
    {
        self.store.contains(id)
    }

    /// Whether a rendering of this id under these parameters is cached.
    pub fn is_cached(&self, id: u64, params: u64) -> (r: bool)
        ensures
            r == cache_has(self.slots(), (CacheKey { id, params })),
    {
        self.cache.contains_key(CacheKey { id, params })
    }

    /// Runtime check matching `can_insert`.
    pub fn has_id_headroom(&self) -> (r: bool)
        ensures
            r == self.can_insert(),
    {
        self.store.has_id_headroom()
    }

    /// Creates a row; the cache is not touched, since nothing can be cached
    /// for a brand-new id.
    pub fn insert_entry(
        &mut self,
        content: String,
        language_hint: Option<String>,
        expires_at: Option<u64>,
        burn_after_read: bool,
        now: u64,
    ) -> (id: u64)
        requires
            old(self).wf(),
            old(self).can_insert(),
        ensures
            final(self).wf(),
            !store_has(old(self).rows(), id),
            final(self).rows() == old(self).rows().push(
                (Entry {
                    id,
                    content,
                    language_hint,
                    created_at: now,
                    expires_at,
                    burn_after_read,
                }),
            ),
            final(self).slots() == old(self).slots(),
            final(self).pend() == old(self).pend(),
            final(self).cap() == old(self).cap(),
    {
        proof {
            crate::store::lemma_store_wf(old(self).store);
        }
        let id = self.store.create(content, language_hint, expires_at, burn_after_read, now);
        proof {
            crate::store::lemma_push_fresh(
                old(self).rows(),
                final(self).rows()[final(self).rows().len() - 1],
            );
        }
        id
    }

    /// Deletes the row (an absent row is treated as already consistent, not an
    /// error) and evicts every cached variant and every in-flight computation
    /// for the id, so nothing stale remains reachable.
    pub fn delete_entry(&mut self, id: u64)
        requires
            old(self).wf(),
        ensures
            final(self).wf(),
            final(self).rows() == spec_remove_id(old(self).rows(), id),
            final(self).slots() == spec_evict_id(old(self).slots(), id),
            final(self).pend() == spec_pending_remove_id(old(self).pend(), id),
            final(self).cap() == old(self).cap(),
            final(self).can_insert() == old(self).can_insert(),
            !store_has(final(self).rows(), id),
            !cache_has_id(final(self).slots(), id),
    {
        proof {
            crate::store::lemma_store_wf(old(self).store);
            crate::cache::lemma_cache_wf(old(self).cache);
            crate::store::lemma_remove_id(old(self).rows(), id);
            lemma_evict_id(old(self).slots(), id);
        }
        let _already_gone = self.store.delete(id);
        self.cache.evict_id(id);
        proof {
            let rows = final(self).rows();
            let slots = final(self).slots();
            lemma_filter_subset(old(self).slots(), pred_slot_not_id(id));
            assert forall|i: int| 0 <= i < slots.len() implies {
                let sl = #[trigger] slots[i];
                &&& store_has(rows, sl.key.id)
                &&& !entry_at(rows, sl.key.id).burn_after_read
                &&& render_result(
                    entry_at(rows, sl.key.id).content@,
                    hint_of(entry_at(rows, sl.key.id).language_hint),
                ) == Some(sl.value@)
            } by {
                old(self).slots().lemma_filter_pred(pred_slot_not_id(id), i);
                assert(old(self).slots().contains(slots[i]));
                let j = choose|j: int|
                    0 <= j < old(self).slots().len() && old(self).slots()[j] == slots[i];
                assert(old(self).slots()[j] == slots[i]);
            }
        }
    }

    /// Fetches the rendering of an entry: a cached rendering when one is
    /// filed, otherwise the row is read (a burn-after-read row is consumed by
    /// that read), rendered, and — except for burn-after-read rows, whose
    /// renderings must not outlive their row — filed in the cache. Absent and
    /// expired rows answer `NotFound`; a failed rendering answers `Render` and
    /// is not cached, so the next request retries.
    pub fn fetch_rendered(&mut self, id: u64, params: u64, now: u64) -> (r: Result<String, Error>)
        requires
            old(self).wf(),
        ensures
            final(self).wf(),
            final(self).cap() == old(self).cap(),
            final(self).can_insert() == old(self).can_insert(),
            final(self).pend() == old(self).pend(),
            final(self).rows() == spec_fetch_store(old(self).rows(), id, now),
            (match r {
                Ok(v) => live(old(self).rows(), id, now) && render_result(
                    entry_at(old(self).rows(), id).content@,
                    hint_of(entry_at(old(self).rows(), id).language_hint),
                ) == Some(v@) && (if entry_at(old(self).rows(), id).burn_after_read {
                    final(self).slots() == old(self).slots()
                } else {
                    final(self).slots() == spec_insert(
                        old(self).slots(),
                        old(self).cap(),
                        (CacheKey { id, params }),
                        v,
                    )
                }),
                Err(e) => final(self).slots() == old(self).slots() && (e == Error::NotFound || e
                    == Error::Render) && ((e == Error::NotFound) <==> !live(
                    old(self).rows(),
                    id,
                    now,
                )) && (e == Error::Render ==> render_result(
                    entry_at(old(self).rows(), id).content@,
                    hint_of(entry_at(old(self).rows(), id).language_hint),
                ) is None),
            }),
    {
        proof {
            crate::store::lemma_store_wf(old(self).store);
            crate::cache::lemma_cache_wf(old(self).cache);
        }
        let key = CacheKey { id, params };
        match self.store.read_consuming(id, now) {
            Err(_) => Err(Error::NotFound),
            Ok(e) => {
                if e.burn_after_read {
                    proof {
                        let olds = old(self).slots();
                        assert forall|i: int| 0 <= i < olds.len() implies (#[trigger] olds[i]).key.id
                            != id by {
                            if olds[i].key.id == id {
                                assert(!entry_at(old(self).rows(), id).burn_after_read);
                            }
                        }
                        crate::store::lemma_remove_id(old(self).rows(), id);
                    }
                    let hint_ref: Option<&str> = match &e.language_hint {
                        Some(s) => Some(s.as_str()),
                        None => None,
                    };
                    proof {
                        assert(hint_ref_view(hint_ref) == hint_of(e.language_hint));
                    }
                    match render(e.content.as_str(), hint_ref) {
                        Some(v) => Ok(v),
                        None => Err(Error::Render),
                    }
                } else {
                    match self.cache.lookup(key) {
                        Some(v) => {
                            proof {
                                let olds = old(self).slots();
                                let kf = slot_key();
                                let j = choose|j: int|
                                    0 <= j < olds.len() && kf(#[trigger] olds[j]) == key;
                                lemma_elem_at_index(olds, kf, j);
                                assert(olds[j].key.id == id);
                                assert(v == olds[j].value);
                                lemma_coherent_insert(
                                    final(self).rows(),
                                    olds,
                                    old(self).cap(),
                                    key,
                                    v,
                                );
                            }
                            Ok(v)
                        },
                        None => {
                            let hint_ref: Option<&str> = match &e.language_hint {
                                Some(s) => Some(s.as_str()),
                                None => None,
                            };
                            proof {
                                assert(hint_ref_view(hint_ref) == hint_of(e.language_hint));
                            }
                            match render(e.content.as_str(), hint_ref) {
                                Some(v) => {
                                    let stored = v.clone();
                                    self.cache.insert(key, stored);
                                    proof {
                                        lemma_coherent_insert(
                                            final(self).rows(),
                                            old(self).slots(),
                                            old(self).cap(),
                                            key,
                                            v,
                                        );
                                    }
                                    Ok(v)
                                },
                                None => Err(Error::Render),
                            }
                        },
                    }
                }
            },
        }
    }

    /// One purge sweep: asks the store for every id expired by `now` and runs
    /// the full delete path on each, so expired rows and their cached
    /// renderings leave together. Returns the purged ids.
    pub fn purge_tick(&mut self, now: u64) -> (purged: Vec<u64>)
        requires
            old(self).wf(),
        ensures
            final(self).wf(),
            final(self).cap() == old(self).cap(),
            final(self).can_insert() == old(self).can_insert(),
            final(self).rows() == old(self).rows().filter(pred_entry_unexpired(now)),
            final(self).slots() == old(self).slots().filter(pred_row_kept(old(self).rows(), now)),
            final(self).pend() == old(self).pend().filter(pred_pend_kept(old(self).rows(), now)),
            forall|x: u64|
                #[trigger] purged@.contains(x) <==> store_has(old(self).rows(), x)
                    && spec_is_expired(entry_at(old(self).rows(), x), now),
    {
        proof {
            crate::store::lemma_store_wf(old(self).store);
            crate::cache::lemma_cache_wf(old(self).cache);
        }
        let expired_list = self.store.list_expired(now);
        let ghost rows0 = self.rows();
        let ghost slots0 = self.slots();
        let ghost pend0 = self.pend();
        let ghost all = expired_list@;
        proof {
            assert(all.take(0) =~= Seq::<u64>::empty());
            reveal(Seq::filter);
            assert(rows0.filter(pred_entry_not_in(all.take(0))) =~= rows0) by {
                assert forall|j: int| 0 <= j < rows0.len() implies (pred_entry_not_in(
                    all.take(0),
                ))(#[trigger] rows0[j]) by {
                    if all.take(0).contains(rows0[j].id) {
                        let w = choose|w: int| 0 <= w < 0 && all.take(0)[w] == rows0[j].id;
                    }
                }
                lemma_filter_all_keep(rows0, pred_entry_not_in(all.take(0)));
            }
            assert(slots0.filter(pred_slot_not_in(all.take(0))) =~= slots0) by {
                assert forall|j: int| 0 <= j < slots0.len() implies (pred_slot_not_in(
                    all.take(0),
                ))(#[trigger] slots0[j]) by {
                    if all.take(0).contains(slots0[j].key.id) {
                        let w = choose|w: int| 0 <= w < 0 && all.take(0)[w] == slots0[j].key.id;
                    }
                }
                lemma_filter_all_keep(slots0, pred_slot_not_in(all.take(0)));
            }
            assert(pend0.filter(pred_pend_not_in(all.take(0))) =~= pend0) by {
                assert forall|j: int| 0 <= j < pend0.len() implies (pred_pend_not_in(
                    all.take(0),
                ))(#[trigger] pend0[j]) by {
                    if all.take(0).contains(pend0[j].key.id) {
                        let w = choose|w: int| 0 <= w < 0 && all.take(0)[w] == pend0[j].key.id;
                    }
                }
                lemma_filter_all_keep(pend0, pred_pend_not_in(all.take(0)));
            }
        }
        let n = expired_list.len();
        let mut i: usize = 0;
        while i < n
            invariant
                self.wf(),
                n == all.len(),
                i <= n,
                all == expired_list@,
                self.cap() == old(self).cap(),
                self.can_insert() == old(self).can_insert(),
                self.rows() == rows0.filter(pred_entry_not_in(all.take(i as int))),
                self.slots() == slots0.filter(pred_slot_not_in(all.take(i as int))),
                self.pend() == pend0.filter(pred_pend_not_in(all.take(i as int))),
            decreases n - i,
        {
            let id = expired_list[i];
            let ghost pre = all.take(i as int);
            let ghost post = all.take(i as int + 1);
            self.delete_entry(id);
            proof {
                assert(post =~= pre.push(id));
                assert forall|x: u64| post.contains(x) <==> pre.contains(x) || x == id by {
                    if post.contains(x) {
                        let w = choose|w: int| 0 <= w < post.len() && post[w] == x;
                        if w < pre.len() {
                            assert(pre[w] == x);
                        }
                    }
                    if pre.contains(x) {
                        let w = choose|w: int| 0 <= w < pre.len() && pre[w] == x;
                        assert(post[w] == x);
                    }
                    if x == id {
                        assert(post[post.len() - 1] == x);
                    }
                }
                lemma_filter_filter(rows0, pred_entry_not_in(pre), pred_entry_not_id(id));
                lemma_filter_agree(
                    rows0,
                    pred_and(pred_entry_not_in(pre), pred_entry_not_id(id)),
                    pred_entry_not_in(post),
                );
                lemma_filter_filter(slots0, pred_slot_not_in(pre), pred_slot_not_id(id));
                lemma_filter_agree(
                    slots0,
                    pred_and(pred_slot_not_in(pre), pred_slot_not_id(id)),
                    pred_slot_not_in(post),
                );
                lemma_filter_filter(pend0, pred_pend_not_in(pre), pred_pend_not_id(id));
                lemma_filter_agree(
                    pend0,
                    pred_and(pred_pend_not_in(pre), pred_pend_not_id(id)),
                    pred_pend_not_in(post),
                );
            }
            i += 1;
        }
        proof {
            lemma_take_full(all);
            assert forall|j: int| 0 <= j < rows0.len() implies (pred_entry_not_in(all))(
                #[trigger] rows0[j],
            ) == (pred_entry_unexpired(now))(rows0[j]) by {
                lemma_elem_at_index(rows0, entry_key(), j);
            }
            lemma_filter_agree(rows0, pred_entry_not_in(all), pred_entry_unexpired(now));
            assert forall|j: int| 0 <= j < slots0.len() implies (pred_slot_not_in(all))(
                #[trigger] slots0[j],
            ) == (pred_row_kept(rows0, now))(slots0[j]) by {
            }
            lemma_filter_agree(slots0, pred_slot_not_in(all), pred_row_kept(rows0, now));
            assert forall|j: int| 0 <= j < pend0.len() implies (pred_pend_not_in(all))(
                #[trigger] pend0[j],
            ) == (pred_pend_kept(rows0, now))(pend0[j]) by {
            }
            lemma_filter_agree(pend0, pred_pend_not_in(all), pred_pend_kept(rows0, now));
        }
        expired_list
    }
}

} // verus!
