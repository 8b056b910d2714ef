use lru_cache::LruCache;

/// A plain list of pairs, most-recently-used first, to compare the cache with.
struct Reference {
    capacity: usize,
    entries: Vec<(u8, u32)>,
}

impl Reference {
    fn get(&mut self, key: u8) -> Option<u32> {
        let at = self.entries.iter().position(|e| e.0 == key)?;
        let entry = self.entries.remove(at);
        self.entries.insert(0, entry);
        Some(entry.1)
    }

    fn put(&mut self, key: u8, value: u32) {
        if let Some(at) = self.entries.iter().position(|e| e.0 == key) {
            self.entries.remove(at);
        } else if self.entries.len() >= self.capacity {
            self.entries.pop();
        }
        self.entries.insert(0, (key, value));
    }
}

#[test]
fn new_cache_is_empty() {
    let mut cache: LruCache<u64, u64> = LruCache::new(3);
    assert_eq!(cache.capacity(), 3);
    assert_eq!(cache.len(), 0);
    assert_eq!(cache.get(0), None);
    assert_eq!(cache.get(7), None);
    assert_eq!(cache.len(), 0);
}

#[test]
fn len_never_exceeds_capacity() {
    let mut cache: LruCache<u32, u32> = LruCache::new(3);
    for i in 0..20u32 {
        cache.put(i % 7, i);
        assert!(cache.len() <= cache.capacity());
        cache.get(i % 5);
        assert!(cache.len() <= cache.capacity());
    }
    assert_eq!(cache.len(), 3);
    assert_eq!(cache.capacity(), 3);
}

#[test]
fn len_grows_by_one_until_full() {
    let mut cache: LruCache<u32, u32> = LruCache::new(3);
    cache.put(10, 1);
    assert_eq!(cache.len(), 1);
    cache.put(20, 2);
    assert_eq!(cache.len(), 2);
    cache.put(30, 3);
    assert_eq!(cache.len(), 3);
    cache.put(40, 4);
    assert_eq!(cache.len(), 3);
}

#[test]
fn get_makes_key_most_recent() {
    let mut cache: LruCache<u32, u32> = LruCache::new(3);
    cache.put(1, 10);
    cache.put(2, 20);
    cache.put(3, 30);
    assert_eq!(cache.get(1), Some(10));
    cache.put(4, 40);
    assert_eq!(cache.get(2), None);
    cache.put(5, 50);
    assert_eq!(cache.get(3), None);
    assert_eq!(cache.get(1), Some(10));
    assert_eq!(cache.get(4), Some(40));
    assert_eq!(cache.get(5), Some(50));
}

#[test]
fn put_on_resident_key_makes_it_most_recent() {
    let mut cache: LruCache<u32, u32> = LruCache::new(3);
    cache.put(1, 10);
    cache.put(2, 20);
    cache.put(3, 30);
    cache.put(1, 11);
    cache.put(4, 40);
    assert_eq!(cache.get(2), None);
    assert_eq!(cache.get(1), Some(11));
    assert_eq!(cache.get(3), Some(30));
    assert_eq!(cache.get(4), Some(40));
}

#[test]
fn eviction_takes_least_recently_touched() {
    let mut cache: LruCache<u32, u32> = LruCache::new(3);
    cache.put(1, 1);
    cache.put(2, 2);
    cache.put(3, 3);
    assert_eq!(cache.get(2), Some(2));
    assert_eq!(cache.get(1), Some(1));
    // Last touched: 3 longest ago, then 2, then 1.
    cache.put(4, 4);
    cache.put(5, 5);
    cache.put(6, 6);
    assert_eq!(cache.get(3), None);
    assert_eq!(cache.get(2), None);
    assert_eq!(cache.get(1), None);
    assert_eq!(cache.get(4), Some(4));
    assert_eq!(cache.get(5), Some(5));
    assert_eq!(cache.get(6), Some(6));
}

#[test]
fn eviction_removes_exactly_one_key() {
    let mut cache: LruCache<u32, u32> = LruCache::new(4);
    for key in 1..=4 {
        cache.put(key, key * 100);
    }
    cache.put(5, 500);
    assert_eq!(cache.len(), 4);
    assert_eq!(cache.get(1), None);
    assert_eq!(cache.get(2), Some(200));
    assert_eq!(cache.get(3), Some(300));
    assert_eq!(cache.get(4), Some(400));
    assert_eq!(cache.get(5), Some(500));
}

#[test]
fn miss_does_not_change_recency() {
    let mut cache: LruCache<u32, u32> = LruCache::new(2);
    cache.put(1, 1);
    cache.put(2, 2);
    assert_eq!(cache.get(9), None);
    assert_eq!(cache.len(), 2);
    cache.put(3, 3);
    assert_eq!(cache.get(1), None);
    assert_eq!(cache.get(2), Some(2));
    assert_eq!(cache.get(3), Some(3));
}

#[test]
fn overwrite_keeps_one_entry_with_second_value() {
    let mut cache: LruCache<u32, u32> = LruCache::new(2);
    cache.put(7, 1);
    assert_eq!(cache.len(), 1);
    cache.put(7, 2);
    assert_eq!(cache.len(), 1);
    assert_eq!(cache.get(7), Some(2));
}

#[test]
fn overwrite_in_full_cache_evicts_nothing() {
    let mut cache: LruCache<u32, u32> = LruCache::new(2);
    cache.put(1, 10);
    cache.put(2, 20);
    cache.put(1, 11);
    cache.put(1, 12);
    assert_eq!(cache.len(), 2);
    assert_eq!(cache.get(2), Some(20));
    assert_eq!(cache.get(1), Some(12));
}

#[test]
fn put_then_get_returns_value() {
    let mut cache: LruCache<u64, u64> = LruCache::new(4);
    for key in 0..50u64 {
        cache.put(key, key * key + 1);
        assert_eq!(cache.get(key), Some(key * key + 1));
    }
}

#[test]
fn get_hands_out_a_clone() {
    let mut cache: LruCache<String, Vec<u8>> = LruCache::new(2);
    cache.put(String::from("a"), vec![1, 2, 3]);
    let mut first = cache.get(String::from("a")).unwrap();
    first.push(4);
    assert_eq!(cache.get(String::from("a")), Some(vec![1, 2, 3]));
}

#[test]
fn string_keys_and_values() {
    let mut cache: LruCache<String, String> = LruCache::new(2);
    cache.put(String::from("one"), String::from("uno"));
    cache.put(String::from("two"), String::from("dos"));
    assert_eq!(cache.get(String::from("one")), Some(String::from("uno")));
    cache.put(String::from("three"), String::from("tres"));
    assert_eq!(cache.get(String::from("two")), None);
    assert_eq!(cache.get(String::from("one")), Some(String::from("uno")));
    assert_eq!(cache.get(String::from("three")), Some(String::from("tres")));
    assert_eq!(cache.len(), 2);
}

#[test]
fn capacity_one_holds_the_last_key() {
    let mut cache: LruCache<u32, u32> = LruCache::new(1);
    assert_eq!(cache.capacity(), 1);
    cache.put(1, 1);
    assert_eq!(cache.get(1), Some(1));
    cache.put(2, 2);
    assert_eq!(cache.len(), 1);
    assert_eq!(cache.get(1), None);
    assert_eq!(cache.get(2), Some(2));
    cache.put(2, 3);
    assert_eq!(cache.len(), 1);
    assert_eq!(cache.get(2), Some(3));
}

#[test]
fn single_entry_can_be_touched_again_and_again() {
    let mut cache: LruCache<u32, u32> = LruCache::new(3);
    cache.put(5, 50);
    assert_eq!(cache.get(5), Some(50));
    assert_eq!(cache.get(5), Some(50));
    cache.put(5, 51);
    assert_eq!(cache.get(5), Some(51));
    assert_eq!(cache.len(), 1);
}

#[test]
fn touching_head_middle_and_tail() {
    let mut cache: LruCache<u32, u32> = LruCache::new(3);
    cache.put(1, 1);
    cache.put(2, 2);
    cache.put(3, 3);
    // Recency, most recent first: 3 2 1.
    assert_eq!(cache.get(3), Some(3));
    assert_eq!(cache.get(2), Some(2));
    assert_eq!(cache.get(1), Some(1));
    // Now 1 2 3: the next three new keys evict 3, 2, 1 in turn.
    cache.put(4, 4);
    assert_eq!(cache.get(3), None);
    assert_eq!(cache.get(2), Some(2));
    cache.put(5, 5);
    assert_eq!(cache.get(1), None);
    assert_eq!(cache.get(4), Some(4));
    assert_eq!(cache.get(2), Some(2));
    assert_eq!(cache.get(5), Some(5));
}

#[test]
fn many_evictions_keep_the_latest_keys() {
    let mut cache: LruCache<u32, u32> = LruCache::new(2);
    for key in 0..1000u32 {
        cache.put(key, key + 1);
        assert!(cache.len() <= 2);
    }
    assert_eq!(cache.len(), 2);
    assert_eq!(cache.get(997), None);
    assert_eq!(cache.get(998), Some(999));
    assert_eq!(cache.get(999), Some(1000));
}

#[test]
fn agrees_with_reference_list() {
    for capacity in 1..6usize {
        let mut cache: LruCache<u8, u32> = LruCache::new(capacity);
        let mut reference = Reference { capacity, entries: Vec::new() };
        let mut state: u32 = 12345 + capacity as u32;
        for round in 0..2000u32 {
            state = state.wrapping_mul(1103515245).wrapping_add(12345);
            let key = ((state >> 16) % 9) as u8;
            if (state >> 8) % 3 == 0 {
                assert_eq!(cache.get(key), reference.get(key));
            } else {
                cache.put(key, round);
                reference.put(key, round);
            }
            assert_eq!(cache.len(), reference.entries.len());
        }
        for key in 0..9u8 {
            assert_eq!(cache.get(key), reference.get(key));
        }
        assert_eq!(cache.len(), reference.entries.len());
    }
}
