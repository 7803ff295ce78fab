use toonstore::{CacheStats, LruCache, ToonCache, ToonStore};

fn new_cache(capacity: usize) -> ToonCache {
    ToonCache::new(ToonStore::create(), capacity)
}

fn ratio(stats: &CacheStats) -> f64 {
    let (hits, total) = stats.hit_ratio_parts();
    if total == 0 {
        0.0
    } else {
        hits as f64 / total as f64
    }
}

#[test]
fn test_cache_basic() {
    let mut cache = new_cache(10);
    let row_id = cache.put(b"test data").unwrap();
    let data = cache.get(row_id).unwrap();
    assert_eq!(data, b"test data");
    assert_eq!(cache.stats().hits(), 1);
    assert_eq!(cache.stats().misses(), 0);
}

#[test]
fn test_cache_hit() {
    let mut cache = new_cache(10);
    let row_id = cache.put(b"test data").unwrap();
    cache.get(row_id).unwrap();
    assert_eq!(cache.stats().hits(), 1);
    cache.get(row_id).unwrap();
    assert_eq!(cache.stats().hits(), 2);
}

#[test]
fn test_cache_eviction() {
    let mut cache = new_cache(2);
    let id0 = cache.put(b"data 0").unwrap();
    let id1 = cache.put(b"data 1").unwrap();
    assert_eq!(cache.cache_len(), 2);
    let id2 = cache.put(b"data 2").unwrap();
    assert_eq!(cache.cache_len(), 2);
    cache.get(id1).unwrap();
    cache.get(id2).unwrap();
    assert_eq!(cache.stats().hits(), 2);
    cache.get(id0).unwrap();
    assert_eq!(cache.stats().misses(), 1);
}

#[test]
fn test_cache_delete() {
    let mut cache = new_cache(10);
    let row_id = cache.put(b"test data").unwrap();
    cache.delete(row_id).unwrap();
    let result = cache.get(row_id);
    assert!(result.is_err());
}

#[test]
fn test_cache_stats() {
    let mut cache = new_cache(10);
    let id0 = cache.put(b"data 0").unwrap();
    let id1 = cache.put(b"data 1").unwrap();
    cache.get(id0).unwrap();
    cache.get(id0).unwrap();
    cache.get(id1).unwrap();
    cache.get(id1).unwrap();
    assert_eq!(cache.stats().hits(), 4);
    assert_eq!(cache.stats().misses(), 0);
    assert_eq!(ratio(cache.stats()), 1.0);
}

#[test]
fn test_cache_clear() {
    let mut cache = new_cache(10);
    cache.put(b"data 0").unwrap();
    cache.put(b"data 1").unwrap();
    assert_eq!(cache.cache_len(), 2);
    cache.clear_cache();
    assert_eq!(cache.cache_len(), 0);
    assert_eq!(cache.stats().hits(), 0);
}

#[test]
fn test_cache_scan() {
    let mut cache = new_cache(10);
    cache.put(b"line 0").unwrap();
    cache.put(b"line 1").unwrap();
    cache.put(b"line 2").unwrap();
    let results = cache.scan();
    assert_eq!(results.len(), 3);
}

#[test]
fn test_lru_basic() {
    let mut cache = LruCache::new(2);
    cache.put(1, "a");
    cache.put(2, "b");
    assert_eq!(cache.get(&1), Some(&"a"));
    assert_eq!(cache.get(&2), Some(&"b"));
    assert_eq!(cache.len(), 2);
}

#[test]
fn test_lru_eviction() {
    let mut cache = LruCache::new(2);
    cache.put(1, "a");
    cache.put(2, "b");
    cache.put(3, "c");
    assert_eq!(cache.get(&1), None);
    assert_eq!(cache.get(&2), Some(&"b"));
    assert_eq!(cache.get(&3), Some(&"c"));
}

#[test]
fn test_lru_update() {
    let mut cache = LruCache::new(2);
    cache.put(1, "a");
    cache.put(2, "b");
    cache.get(&1);
    cache.put(3, "c");
    assert_eq!(cache.get(&1), Some(&"a"));
    assert_eq!(cache.get(&2), None);
    assert_eq!(cache.get(&3), Some(&"c"));
}

#[test]
fn test_lru_remove() {
    let mut cache = LruCache::new(3);
    cache.put(1, "a");
    cache.put(2, "b");
    cache.put(3, "c");
    assert_eq!(cache.remove(&2), Some("b"));
    assert_eq!(cache.len(), 2);
    assert_eq!(cache.get(&2), None);
}

#[test]
fn test_lru_clear() {
    let mut cache = LruCache::new(3);
    cache.put(1, "a");
    cache.put(2, "b");
    cache.clear();
    assert_eq!(cache.len(), 0);
    assert!(cache.is_empty());
}

#[test]
fn test_lru_overwrite() {
    let mut cache = LruCache::new(2);
    cache.put(1, "a");
    cache.put(1, "b");
    assert_eq!(cache.get(&1), Some(&"b"));
    assert_eq!(cache.len(), 1);
}

#[test]
fn test_stats_basic() {
    let mut stats = CacheStats::new();
    stats.record_hit();
    stats.record_hit();
    stats.record_miss();
    assert_eq!(stats.hits(), 2);
    assert_eq!(stats.misses(), 1);
    assert_eq!(ratio(&stats), 2.0 / 3.0);
}

#[test]
fn test_stats_reset() {
    let mut stats = CacheStats::new();
    stats.record_hit();
    stats.record_miss();
    stats.reset();
    assert_eq!(stats.hits(), 0);
    assert_eq!(stats.misses(), 0);
    assert_eq!(ratio(&stats), 0.0);
}

#[test]
fn it_works() {
    assert_eq!(2 + 2, 4);
}

#[test]
fn lru_keys_eviction_scenario() {
    let mut cache = LruCache::new(2);
    cache.put(1, "a");
    cache.put(2, "b");
    cache.put(3, "c");
    assert_eq!(cache.get(&1), None);
    assert_eq!(cache.get(&2), Some(&"b"));
    assert_eq!(cache.get(&3), Some(&"c"));
}

#[test]
fn lru_capacity_plus_one_distinct_keys() {
    let mut cache = LruCache::new(5);
    for k in 0..6u64 {
        cache.put(k, k * 10);
    }
    assert_eq!(cache.len(), 5);
    assert_eq!(cache.capacity(), 5);
    assert_eq!(cache.get(&0), None);
    for k in 1..6u64 {
        assert_eq!(cache.get(&k), Some(&(k * 10)));
    }
}

#[test]
fn hits_plus_misses_count_gets() {
    let mut cache = new_cache(3);
    let ids: Vec<u64> = (0..6).map(|i| cache.put(format!("v{}", i).as_bytes()).unwrap()).collect();
    let mut gets = 0u64;
    for round in 0..3 {
        for id in &ids {
            assert_eq!(cache.get(*id).unwrap(), format!("v{}", id).as_bytes());
            gets += 1;
            let _ = round;
        }
    }
    assert!(cache.get(999).is_err());
    gets += 1;
    assert_eq!(cache.stats().hits() + cache.stats().misses(), gets);
    assert_eq!(cache.stats().inserts(), 6);
}

#[test]
fn cache_delete_missing_row() {
    let mut cache = new_cache(2);
    assert!(cache.delete(7).is_err());
    assert_eq!(cache.len(), 0);
    assert!(cache.is_empty());
    assert_eq!(cache.capacity(), 2);
}

#[test]
fn evictions_are_counted() {
    let mut cache = new_cache(2);
    let id0 = cache.put(b"data 0").unwrap();
    cache.put(b"data 1").unwrap();
    assert_eq!(cache.stats().evictions(), 0);
    cache.put(b"data 2").unwrap();
    assert_eq!(cache.stats().evictions(), 1);
    cache.get(id0).unwrap();
    assert_eq!(cache.stats().evictions(), 2);
    assert_eq!(cache.stats().inserts(), 3);
}
