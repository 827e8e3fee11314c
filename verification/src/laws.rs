//! The guarantees that relate several operations, proved once and for all
//! over the specification-level transitions that the executable contracts are
//! stated with.

use vstd::prelude::*;

use crate::cache::{
    cache_has, cache_has_id, lemma_evict_id, lemma_insert, pend_key, pending_has,
    pred_pend_not_id, pred_slot_not_id, pred_slot_not_key, slot_key, slot_keys_unique,
    spec_evict_id, spec_insert, spec_pending_remove_id, CacheKey, CacheSlot, PendingSlot,
};
use crate::entry::{spec_is_expired, Entry};
use crate::layer::spec_fetch_store;
use crate::seqfacts::{lemma_filter_all_keep, lemma_filter_keyed};
use crate::store::{
    entry_at, entry_key, ids_unique, lemma_remove_id, live, pred_entry_not_id,
    pred_entry_unexpired, spec_remove_id, store_has,
};

verus! {

/// An entry whose expiry time has passed is not live, so every fetch answers
/// `NotFound` for it, whether or not the purge sweep has run yet.
pub proof fn lemma_expired_means_not_found(rows: Seq<Entry>, id: u64, now: u64)
    requires
        store_has(rows, id),
        spec_is_expired(entry_at(rows, id), now),
    ensures
        !live(rows, id, now),
        spec_fetch_store(rows, id, now) == rows,
{
}

/// A burn-after-read row is consumed by the one fetch that reads it: the row
/// is gone afterwards, so every later fetch — at any time — answers
/// `NotFound`, and the other rows are untouched.
pub proof fn lemma_burn_read_once(rows: Seq<Entry>, id: u64, now: u64, later: u64)
    requires
        ids_unique(rows),
        live(rows, id, now),
        entry_at(rows, id).burn_after_read,
    ensures
        spec_fetch_store(rows, id, now) == spec_remove_id(rows, id),
        !store_has(spec_fetch_store(rows, id, now), id),
        !live(spec_fetch_store(rows, id, now), id, later),
        forall|x: u64|
            x != id && #[trigger] store_has(rows, x) ==> store_has(
                spec_fetch_store(rows, id, now),
                x,
            ) && entry_at(spec_fetch_store(rows, id, now), x) == entry_at(rows, x),
{
    lemma_remove_id(rows, id);
}

/// A fetch that does not find a live row leaves the store exactly as it was.
pub proof fn lemma_fetch_miss_keeps_rows(rows: Seq<Entry>, id: u64, now: u64)
    requires
        !live(rows, id, now),
    ensures
        spec_fetch_store(rows, id, now) == rows,
{
}

/// Deletion is idempotent: after one deletion the id is gone from the store,
/// no cached rendering and no in-flight computation for it remains reachable,
/// and deleting again changes nothing at all.
pub proof fn lemma_delete_idempotent(
    rows: Seq<Entry>,
    slots: Seq<CacheSlot>,
    pend: Seq<PendingSlot>,
    id: u64,
)
    requires
        ids_unique(rows),
        slot_keys_unique(slots),
    ensures
        !store_has(spec_remove_id(rows, id), id),
        !cache_has_id(spec_evict_id(slots, id), id),
        spec_remove_id(spec_remove_id(rows, id), id) == spec_remove_id(rows, id),
        spec_evict_id(spec_evict_id(slots, id), id) == spec_evict_id(slots, id),
        spec_pending_remove_id(spec_pending_remove_id(pend, id), id) == spec_pending_remove_id(
            pend,
            id,
        ),
{
    lemma_remove_id(rows, id);
    lemma_evict_id(slots, id);
    let frows = spec_remove_id(rows, id);
    assert forall|i: int| 0 <= i < frows.len() implies (pred_entry_not_id(id))(
        #[trigger] frows[i],
    ) by {
        rows.lemma_filter_pred(pred_entry_not_id(id), i);
    }
    lemma_filter_all_keep(frows, pred_entry_not_id(id));
    let fslots = spec_evict_id(slots, id);
    assert forall|i: int| 0 <= i < fslots.len() implies (pred_slot_not_id(id))(
        #[trigger] fslots[i],
    ) by {
        slots.lemma_filter_pred(pred_slot_not_id(id), i);
    }
    lemma_filter_all_keep(fslots, pred_slot_not_id(id));
    let fpend = spec_pending_remove_id(pend, id);
    assert forall|i: int| 0 <= i < fpend.len() implies (pred_pend_not_id(id))(
        #[trigger] fpend[i],
    ) by {
        pend.lemma_filter_pred(pred_pend_not_id(id), i);
    }
    lemma_filter_all_keep(fpend, pred_pend_not_id(id));
}

/// The capacity bound with least-recently-used eviction: the cache never
/// exceeds its capacity, and when a fresh key enters a full cache it is
/// exactly the least recently used slot — the one at index 0 — that leaves,
/// while every other slot survives.
pub proof fn lemma_capacity_lru(slots: Seq<CacheSlot>, cap: nat, k: CacheKey, v: String)
    requires
        slot_keys_unique(slots),
        cap >= 1,
        slots.len() == cap,
        !cache_has(slots, k),
    ensures
        spec_insert(slots, cap, k, v).len() == cap,
        cache_has(spec_insert(slots, cap, k, v), k),
        !cache_has(spec_insert(slots, cap, k, v), slots[0].key),
        forall|x: CacheKey|
            x != slots[0].key && #[trigger] cache_has(slots, x) ==> cache_has(
                spec_insert(slots, cap, k, v),
                x,
            ),
{
    lemma_insert(slots, cap, k, v);
    let kf = slot_key();
    assert forall|j: int| 0 <= j < slots.len() implies (pred_slot_not_key(k))(
        #[trigger] slots[j],
    ) by {
        if slots[j].key == k {
            assert(kf(slots[j]) == k);
        }
    }
    lemma_filter_all_keep(slots, pred_slot_not_key(k));
    let out = spec_insert(slots, cap, k, v);
    let trimmed = slots.subrange(1, slots.len() as int);
    assert(out == trimmed.push(CacheSlot { key: k, value: v }));
    if cache_has(out, slots[0].key) {
        let w = choose|w: int| 0 <= w < out.len() && kf(#[trigger] out[w]) == slots[0].key;
        if w < out.len() - 1 {
            assert(out[w] == slots[w + 1]);
            assert(kf(slots[w + 1]) == kf(slots[0]));
        } else {
            assert(kf(slots[0]) == k);
        }
    }
    assert forall|x: CacheKey| x != slots[0].key && #[trigger] cache_has(slots, x) implies
        cache_has(out, x) by {
        let w = choose|w: int| 0 <= w < slots.len() && kf(#[trigger] slots[w]) == x;
        assert(w != 0);
        assert(out[w - 1] == slots[w]);
        assert(kf(out[w - 1]) == x);
    }
}

/// A purge sweep is complete and does no collateral damage: afterwards every
/// id still present is unexpired, and every unexpired row survives unchanged.
pub proof fn lemma_purge_removes_expired(rows: Seq<Entry>, now: u64)
    requires
        ids_unique(rows),
    ensures
        forall|id: u64|
            #[trigger] store_has(rows.filter(pred_entry_unexpired(now)), id) ==> store_has(
                rows,
                id,
            ) && !spec_is_expired(entry_at(rows.filter(pred_entry_unexpired(now)), id), now),
        forall|id: u64|
            store_has(rows, id) && !spec_is_expired(entry_at(rows, id), now) ==> #[trigger]
            store_has(rows.filter(pred_entry_unexpired(now)), id) && entry_at(
                rows.filter(pred_entry_unexpired(now)),
                id,
            ) == entry_at(rows, id),
{
    lemma_filter_keyed(rows, entry_key(), pred_entry_unexpired(now));
}

/// Single flight: once a leader has claimed a key, the key is pending, so any
/// further miss on the same key is told to wait instead of becoming a second
/// leader, until the leader completes or the key is evicted.
pub proof fn lemma_single_flight(pend: Seq<PendingSlot>, k: CacheKey, e: u64)
    ensures
        pending_has(pend.push((PendingSlot { key: k, epoch: e })), k),
{
    let out = pend.push(PendingSlot { key: k, epoch: e });
    let kf = pend_key();
    assert(kf(out[out.len() - 1]) == k);
}

} // verus!
