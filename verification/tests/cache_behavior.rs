use wastebin::cache::{CacheKey, RenderCache};
use wastebin::error::Error;
use wastebin::layer::Layer;

#[test]
fn cache_zero_capacity_is_invalid_configuration() {
    match RenderCache::new(0) {
        Err(Error::InvalidConfiguration) => {}
        _ => panic!("zero capacity must be rejected"),
    }
}

#[test]
fn capacity_bound_holds_over_distinct_keys() {
    let mut layer = Layer::new(3).expect("capacity is positive");
    let mut ids = Vec::new();
    for i in 0..8u64 {
        let id = layer.insert_entry(format!("entry {i}"), None, None, false, 10);
        ids.push(id);
    }
    for &id in &ids {
        assert!(layer.fetch_rendered(id, 0, 20).is_ok());
        assert!(layer.cached_count() <= layer.capacity());
    }
    assert_eq!(layer.cached_count(), 3);
}

#[test]
fn lru_scenario_with_capacity_two() {
    let mut layer = Layer::new(2).expect("capacity is positive");
    let a = layer.insert_entry("alpha".to_string(), None, None, false, 10);
    let b = layer.insert_entry("beta".to_string(), None, None, false, 10);
    let c = layer.insert_entry("gamma".to_string(), None, None, false, 10);
    // Fetch A, then B: cache holds A and B.
    assert!(layer.fetch_rendered(a, 0, 20).is_ok());
    assert!(layer.fetch_rendered(b, 0, 20).is_ok());
    assert!(layer.is_cached(a, 0) && layer.is_cached(b, 0));
    // Fetching C evicts the least recently used key, A.
    assert!(layer.fetch_rendered(c, 0, 20).is_ok());
    assert!(!layer.is_cached(a, 0));
    assert!(layer.is_cached(b, 0) && layer.is_cached(c, 0));
    // Fetching A again misses, recomputes, and evicts B.
    assert!(layer.fetch_rendered(a, 0, 20).is_ok());
    assert!(!layer.is_cached(b, 0));
    assert!(layer.is_cached(c, 0) && layer.is_cached(a, 0));
    assert_eq!(layer.cached_count(), 2);
}

#[test]
fn cache_hit_refreshes_recency() {
    let mut layer = Layer::new(2).expect("capacity is positive");
    let a = layer.insert_entry("alpha".to_string(), None, None, false, 10);
    let b = layer.insert_entry("beta".to_string(), None, None, false, 10);
    let c = layer.insert_entry("gamma".to_string(), None, None, false, 10);
    assert!(layer.fetch_rendered(a, 0, 20).is_ok());
    assert!(layer.fetch_rendered(b, 0, 20).is_ok());
    // Touch A: B becomes the least recently used key.
    assert!(layer.fetch_rendered(a, 0, 20).is_ok());
    assert!(layer.fetch_rendered(c, 0, 20).is_ok());
    assert!(layer.is_cached(a, 0));
    assert!(!layer.is_cached(b, 0));
    assert!(layer.is_cached(c, 0));
}

#[test]
fn parameter_variants_are_distinct_keys() {
    let mut layer = Layer::new(4).expect("capacity is positive");
    let id = layer.insert_entry("same entry".to_string(), None, None, false, 10);
    assert!(layer.fetch_rendered(id, 0, 20).is_ok());
    assert!(layer.fetch_rendered(id, 1, 20).is_ok());
    assert!(layer.is_cached(id, 0));
    assert!(layer.is_cached(id, 1));
    assert_eq!(layer.cached_count(), 2);
}

#[test]
fn single_flight_one_computation_for_concurrent_misses() {
    let mut cache = RenderCache::new(4).expect("capacity is positive");
    let key = CacheKey { id: 7, params: 0 };
    // Three requests miss at the same time.
    for _ in 0..3 {
        assert!(cache.lookup(key).is_none());
    }
    // Exactly one of them becomes the leader; the others are told to wait.
    let mut computations = 0;
    let leader = cache.begin_compute(key);
    assert!(leader.is_some());
    assert!(cache.begin_compute(key).is_none());
    assert!(cache.begin_compute(key).is_none());
    computations += 1;
    assert!(cache.complete_ok(key, leader.unwrap(), "rendered".to_string()));
    // Every waiter receives the same value from the cache.
    for _ in 0..3 {
        assert_eq!(cache.lookup(key).expect("cached"), "rendered");
    }
    assert_eq!(computations, 1);
}

#[test]
fn failed_computation_is_not_cached_and_retried() {
    let mut cache = RenderCache::new(4).expect("capacity is positive");
    let key = CacheKey { id: 9, params: 0 };
    let leader = cache.begin_compute(key).expect("first miss leads");
    // The computation fails: the key stays absent and the next miss leads.
    assert!(cache.complete_err(key, leader));
    assert!(cache.lookup(key).is_none());
    let second = cache.begin_compute(key).expect("retry leads again");
    assert!(cache.complete_ok(key, second, "second try".to_string()));
    assert_eq!(cache.lookup(key).expect("cached"), "second try");
}

#[test]
fn eviction_discards_stale_completion() {
    let mut cache = RenderCache::new(4).expect("capacity is positive");
    let key = CacheKey { id: 11, params: 0 };
    let epoch = cache.begin_compute(key).expect("leader");
    // The key is evicted while the computation is in flight; nothing was
    // cached yet, and the pending epoch is invalidated.
    assert!(!cache.evict(key));
    // The stale completion is discarded instead of resurrecting the key.
    assert!(!cache.complete_ok(key, epoch, "stale".to_string()));
    assert!(cache.lookup(key).is_none());
    // A fresh leader under a new epoch succeeds.
    let fresh = cache.begin_compute(key).expect("new leader");
    assert_ne!(fresh, epoch);
    assert!(cache.complete_ok(key, fresh, "fresh".to_string()));
    assert_eq!(cache.lookup(key).expect("cached"), "fresh");
}

#[test]
fn completion_with_wrong_epoch_is_discarded() {
    let mut cache = RenderCache::new(4).expect("capacity is positive");
    let key = CacheKey { id: 13, params: 0 };
    let epoch = cache.begin_compute(key).expect("leader");
    assert!(!cache.complete_ok(key, epoch.wrapping_add(1), "wrong".to_string()));
    assert!(cache.lookup(key).is_none());
    assert!(cache.complete_ok(key, epoch, "right".to_string()));
    assert_eq!(cache.lookup(key).expect("cached"), "right");
}

#[test]
fn direct_insert_evicts_least_recently_used_first() {
    let mut cache = RenderCache::new(2).expect("capacity is positive");
    let k1 = CacheKey { id: 1, params: 0 };
    let k2 = CacheKey { id: 2, params: 0 };
    let k3 = CacheKey { id: 3, params: 0 };
    cache.insert(k1, "one".to_string());
    cache.insert(k2, "two".to_string());
    assert_eq!(cache.len(), 2);
    // Ties between untouched keys break by insertion order: the oldest leaves.
    cache.insert(k3, "three".to_string());
    assert_eq!(cache.len(), 2);
    assert!(!cache.contains_key(k1));
    assert!(cache.contains_key(k2));
    assert!(cache.contains_key(k3));
}

#[test]
fn insert_of_present_key_replaces_without_eviction() {
    let mut cache = RenderCache::new(2).expect("capacity is positive");
    let k1 = CacheKey { id: 1, params: 0 };
    let k2 = CacheKey { id: 2, params: 0 };
    cache.insert(k1, "one".to_string());
    cache.insert(k2, "two".to_string());
    cache.insert(k1, "one again".to_string());
    assert_eq!(cache.len(), 2);
    assert!(cache.contains_key(k2));
    assert_eq!(cache.lookup(k1).expect("cached"), "one again");
}

#[test]
fn evict_id_removes_all_variants() {
    let mut cache = RenderCache::new(4).expect("capacity is positive");
    cache.insert(CacheKey { id: 5, params: 0 }, "raw".to_string());
    cache.insert(CacheKey { id: 5, params: 1 }, "numbered".to_string());
    cache.insert(CacheKey { id: 6, params: 0 }, "other".to_string());
    cache.evict_id(5);
    assert!(!cache.contains_key(CacheKey { id: 5, params: 0 }));
    assert!(!cache.contains_key(CacheKey { id: 5, params: 1 }));
    assert!(cache.contains_key(CacheKey { id: 6, params: 0 }));
    assert_eq!(cache.len(), 1);
}

#[test]
fn old_epoch_never_overwrites_newer_result() {
    let mut cache = RenderCache::new(4).expect("capacity is positive");
    let key = CacheKey { id: 17, params: 0 };
    let first = cache.begin_compute(key).expect("first leader");
    // The key is evicted, a newer leader computes and files its result.
    cache.evict(key);
    let second = cache.begin_compute(key).expect("second leader");
    assert!(cache.complete_ok(key, second, "newer".to_string()));
    // The first leader finishes late: its completion must be discarded.
    assert!(!cache.complete_ok(key, first, "older".to_string()));
    assert_eq!(cache.lookup(key).expect("cached"), "newer");
}
