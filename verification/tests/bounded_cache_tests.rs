use std::cell::Cell;

use chimeric_cache::bounded_cache::BoundedCache;

fn key(s: &str) -> Vec<u8> {
    s.as_bytes().to_vec()
}

#[test]
fn lru_eviction_order() {
    // capacity 3; inserting 4 distinct keys with no intervening lookups
    // evicts exactly the first
    let mut cache: BoundedCache<u32> = BoundedCache::new(3);
    cache.insert(key("k1"), 1);
    cache.insert(key("k2"), 2);
    cache.insert(key("k3"), 3);
    cache.insert(key("k4"), 4);
    assert_eq!(cache.len(), 3);
    assert!(!cache.contains(&key("k1")));
    assert!(cache.contains(&key("k2")));
    assert!(cache.contains(&key("k3")));
    assert!(cache.contains(&key("k4")));
}

#[test]
fn recency_promotion() {
    // capacity 3; looking k1 up after filling makes k2 the eviction
    // victim, not k1
    let mut cache: BoundedCache<u32> = BoundedCache::new(3);
    cache.insert(key("k1"), 1);
    cache.insert(key("k2"), 2);
    cache.insert(key("k3"), 3);
    assert_eq!(cache.get(&key("k1")).copied(), Some(1));
    cache.insert(key("k4"), 4);
    assert!(cache.contains(&key("k1")));
    assert!(!cache.contains(&key("k2")));
    assert!(cache.contains(&key("k3")));
    assert!(cache.contains(&key("k4")));
}

#[test]
fn hit_does_not_invoke_compute() {
    let mut cache: BoundedCache<u32> = BoundedCache::new(2);
    let calls = Cell::new(0u32);
    let r = cache.try_get_or_insert(&key("a"), || -> Result<u32, String> {
        calls.set(calls.get() + 1);
        Ok(10)
    });
    assert_eq!(r.copied(), Ok(10));
    assert_eq!(calls.get(), 1);
    let r = cache.try_get_or_insert(&key("a"), || -> Result<u32, String> {
        calls.set(calls.get() + 1);
        Ok(99)
    });
    // the cached value comes back and the compute function did not run
    assert_eq!(r.copied(), Ok(10));
    assert_eq!(calls.get(), 1);
}

#[test]
fn failed_compute_inserts_nothing() {
    let mut cache: BoundedCache<u32> = BoundedCache::new(2);
    cache.insert(key("other"), 5);
    let calls = Cell::new(0u32);
    let r = cache.try_get_or_insert(&key("a"), || -> Result<u32, String> {
        calls.set(calls.get() + 1);
        Err("decode failure".to_string())
    });
    assert_eq!(r.err(), Some("decode failure".to_string()));
    assert_eq!(calls.get(), 1);
    // the cache is exactly as before: same size, key absent, no eviction
    assert_eq!(cache.len(), 1);
    assert!(!cache.contains(&key("a")));
    assert!(cache.contains(&key("other")));
}

#[test]
fn insert_same_key_replaces_value() {
    let mut cache: BoundedCache<u32> = BoundedCache::new(2);
    assert_eq!(cache.insert(key("a"), 1), None);
    assert_eq!(cache.insert(key("a"), 2), Some(1));
    assert_eq!(cache.len(), 1);
    assert_eq!(cache.get(&key("a")).copied(), Some(2));
}

#[test]
fn insert_full_returns_evicted_value() {
    let mut cache: BoundedCache<u32> = BoundedCache::new(2);
    cache.insert(key("a"), 1);
    cache.insert(key("b"), 2);
    assert_eq!(cache.insert(key("c"), 3), Some(1));
    assert_eq!(cache.len(), 2);
}

#[test]
fn remove_takes_the_entry_out() {
    let mut cache: BoundedCache<u32> = BoundedCache::new(2);
    cache.insert(key("a"), 1);
    cache.insert(key("b"), 2);
    assert_eq!(cache.remove(&key("a")), Some(1));
    assert_eq!(cache.remove(&key("a")), None);
    assert_eq!(cache.len(), 1);
    assert!(!cache.contains(&key("a")));
    assert!(cache.contains(&key("b")));
}

#[test]
fn peek_most_recent_does_not_promote() {
    let mut cache: BoundedCache<u32> = BoundedCache::new(2);
    assert!(cache.peek_most_recent().is_none());
    cache.insert(key("a"), 1);
    cache.insert(key("b"), 2);
    assert_eq!(cache.peek_most_recent().copied(), Some(2));
    // peeking did not change the order: "a" is still the eviction victim
    cache.insert(key("c"), 3);
    assert!(!cache.contains(&key("a")));
    assert!(cache.contains(&key("b")));
}

#[test]
fn peek_by_key_does_not_promote() {
    let mut cache: BoundedCache<u32> = BoundedCache::new(2);
    cache.insert(key("a"), 1);
    cache.insert(key("b"), 2);
    assert_eq!(cache.peek_by_key(&key("a")).copied(), Some(1));
    // "a" stays least recently used despite the peek
    cache.insert(key("c"), 3);
    assert!(!cache.contains(&key("a")));
}

#[test]
fn get_or_insert_with_caches_the_made_value() {
    let mut cache: BoundedCache<String> = BoundedCache::new(2);
    let calls = Cell::new(0u32);
    let v = cache.get_or_insert_with(&key("a"), || {
        calls.set(calls.get() + 1);
        "made".to_string()
    });
    assert_eq!(v, "made");
    let v = cache.get_or_insert_with(&key("a"), || {
        calls.set(calls.get() + 1);
        "remade".to_string()
    });
    assert_eq!(v, "made");
    assert_eq!(calls.get(), 1);
}

#[test]
fn capacity_one_always_reloads_on_a_different_key() {
    let mut cache: BoundedCache<u32> = BoundedCache::new(1);
    cache.insert(key("a"), 1);
    cache.insert(key("b"), 2);
    assert!(!cache.contains(&key("a")));
    assert_eq!(cache.get(&key("b")).copied(), Some(2));
    assert_eq!(cache.len(), 1);
    assert_eq!(cache.capacity(), 1);
}
