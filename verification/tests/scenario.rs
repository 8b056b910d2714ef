use lru_cache::LruCache;

#[test]
fn test_lru_cache() {
    let mut cache = LruCache::new(2);
    cache.put(1, 1);
    cache.put(2, 2);
    assert_eq!(cache.get(1), Some(1));
    cache.put(3, 3);
    assert_eq!(cache.get(2), None);
    cache.put(4, 4);
    assert_eq!(cache.get(1), None);
    assert_eq!(cache.get(3), Some(3));
    assert_eq!(cache.get(4), Some(4));
}

#[test]
fn scenario_step_by_step() {
    let mut cache: LruCache<u32, u32> = LruCache::new(2);
    cache.put(1, 1);
    cache.put(2, 2);
    assert_eq!(cache.len(), 2);
    assert_eq!(cache.get(1), Some(1));
    cache.put(3, 3);
    assert_eq!(cache.len(), 2);
    assert_eq!(cache.get(2), None);
    cache.put(4, 4);
    assert_eq!(cache.len(), 2);
    assert_eq!(cache.get(1), None);
    assert_eq!(cache.get(3), Some(3));
    assert_eq!(cache.get(4), Some(4));
    assert_eq!(cache.len(), 2);
}
