use wastebin::error::Error;
use wastebin::layer::{Layer, PurgeConfig};

fn layer_with_capacity(capacity: usize) -> Layer {
    Layer::new(capacity).expect("capacity is positive")
}

#[test]
fn zero_capacity_is_invalid_configuration() {
    match Layer::new(0) {
        Err(Error::InvalidConfiguration) => {}
        _ => panic!("zero capacity must be rejected"),
    }
}

#[test]
fn zero_interval_is_invalid_configuration() {
    match PurgeConfig::new(0) {
        Err(Error::InvalidConfiguration) => {}
        _ => panic!("zero interval must be rejected"),
    }
    let cfg = PurgeConfig::new(60).expect("positive interval");
    assert_eq!(cfg.interval_seconds(), 60);
}

#[test]
fn fetch_of_absent_id_is_not_found() {
    let mut layer = layer_with_capacity(4);
    match layer.fetch_rendered(42, 0, 100) {
        Err(Error::NotFound) => {}
        _ => panic!("absent id must answer NotFound"),
    }
}

#[test]
fn expired_entry_is_not_found_before_any_purge() {
    let mut layer = layer_with_capacity(4);
    let id = layer.insert_entry("stale".to_string(), None, Some(50), false, 10);
    // The row is physically present but logically deleted once expired.
    assert!(layer.contains_entry(id));
    match layer.fetch_rendered(id, 0, 100) {
        Err(Error::NotFound) => {}
        _ => panic!("expired entry must answer NotFound even before the purge runs"),
    }
    assert!(layer.contains_entry(id));
}

#[test]
fn entry_live_until_expiry_moment() {
    let mut layer = layer_with_capacity(4);
    let id = layer.insert_entry("short lived".to_string(), None, Some(50), false, 10);
    assert!(layer.fetch_rendered(id, 0, 49).is_ok());
    // Expiry is reached exactly at the stored timestamp.
    let mut layer2 = layer_with_capacity(4);
    let id2 = layer2.insert_entry("short lived".to_string(), None, Some(50), false, 10);
    match layer2.fetch_rendered(id2, 0, 50) {
        Err(Error::NotFound) => {}
        _ => panic!("an entry is expired once its expiry time is reached"),
    }
}

#[test]
fn burn_after_read_succeeds_exactly_once() {
    let mut layer = layer_with_capacity(4);
    let id = layer.insert_entry("secret".to_string(), None, None, true, 10);
    let first = layer.fetch_rendered(id, 0, 20);
    assert!(first.is_ok());
    // The row was consumed by the read and its rendering was never cached.
    assert!(!layer.contains_entry(id));
    assert!(!layer.is_cached(id, 0));
    for _ in 0..4 {
        match layer.fetch_rendered(id, 0, 20) {
            Err(Error::NotFound) => {}
            _ => panic!("every fetch after the burn must answer NotFound"),
        }
    }
}

#[test]
fn delete_entry_is_idempotent_and_clears_cache() {
    let mut layer = layer_with_capacity(4);
    let id = layer.insert_entry("to delete".to_string(), None, None, false, 10);
    assert!(layer.fetch_rendered(id, 0, 20).is_ok());
    assert!(layer.is_cached(id, 0));
    layer.delete_entry(id);
    assert!(!layer.contains_entry(id));
    assert!(!layer.is_cached(id, 0));
    // A second deletion is not an error and changes nothing.
    layer.delete_entry(id);
    assert!(!layer.contains_entry(id));
    assert!(!layer.is_cached(id, 0));
    match layer.fetch_rendered(id, 0, 20) {
        Err(Error::NotFound) => {}
        _ => panic!("a deleted entry must answer NotFound"),
    }
}

#[test]
fn delete_entry_evicts_every_parameter_variant() {
    let mut layer = layer_with_capacity(8);
    let id = layer.insert_entry("many views".to_string(), None, None, false, 10);
    assert!(layer.fetch_rendered(id, 0, 20).is_ok());
    assert!(layer.fetch_rendered(id, 1, 20).is_ok());
    assert!(layer.is_cached(id, 0));
    assert!(layer.is_cached(id, 1));
    layer.delete_entry(id);
    assert!(!layer.is_cached(id, 0));
    assert!(!layer.is_cached(id, 1));
}

#[test]
fn purge_sweep_removes_expired_row_and_its_rendering() {
    let mut layer = layer_with_capacity(4);
    let keeper = layer.insert_entry("keeper".to_string(), None, None, false, 10);
    let doomed = layer.insert_entry("doomed".to_string(), None, Some(99), false, 10);
    assert!(layer.fetch_rendered(keeper, 0, 20).is_ok());
    assert!(layer.fetch_rendered(doomed, 0, 20).is_ok());
    assert!(layer.is_cached(doomed, 0));
    let purged = layer.purge_tick(100);
    assert_eq!(purged, vec![doomed]);
    assert!(!layer.contains_entry(doomed));
    assert!(!layer.is_cached(doomed, 0));
    match layer.fetch_rendered(doomed, 0, 100) {
        Err(Error::NotFound) => {}
        _ => panic!("a purged entry must answer NotFound"),
    }
    // The unexpired row and its rendering survive the sweep.
    assert!(layer.contains_entry(keeper));
    assert!(layer.is_cached(keeper, 0));
    assert_eq!(layer.store_count(), 1);
}

#[test]
fn purge_of_empty_or_unexpired_store_removes_nothing() {
    let mut layer = layer_with_capacity(4);
    assert!(layer.purge_tick(100).is_empty());
    let id = layer.insert_entry("fresh".to_string(), None, Some(200), false, 10);
    assert!(layer.purge_tick(100).is_empty());
    assert!(layer.contains_entry(id));
}

#[test]
fn ids_are_fresh_and_distinct() {
    let mut layer = layer_with_capacity(4);
    let a = layer.insert_entry("a".to_string(), None, None, false, 1);
    let b = layer.insert_entry("b".to_string(), None, None, false, 2);
    let c = layer.insert_entry("c".to_string(), None, None, false, 3);
    assert_ne!(a, b);
    assert_ne!(b, c);
    assert_ne!(a, c);
    assert_eq!(layer.store_count(), 3);
}

#[test]
fn purge_at_exact_expiry_moment_removes_the_row() {
    let mut layer = layer_with_capacity(4);
    let id = layer.insert_entry("on the dot".to_string(), None, Some(100), false, 10);
    assert!(layer.purge_tick(99).is_empty());
    let purged = layer.purge_tick(100);
    assert_eq!(purged, vec![id]);
    assert!(!layer.contains_entry(id));
}
