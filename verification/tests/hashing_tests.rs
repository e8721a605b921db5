use std::collections::hash_map::RandomState;
use lib::hash_maps::hash_map::HashMap;
use lib::hash_maps::bloom_filter::{BloomFilter, compute_hash};
use lib::hash_maps::lru_cache::LRUCache;
use lib::bloom_filter::hash_value;
use std::hash::{BuildHasher, Hasher};

/// A filter sized for `expected_elements` at `false_positive_rate`:
/// `-8 n / ln(1 - p^(1/8))` bits.
fn new_filter(expected_elements: usize, false_positive_rate: f64) -> BloomFilter {
    assert!(expected_elements > 0);
    assert!(false_positive_rate > 0.0 && false_positive_rate < 1.0);
    let bits = -8.0 * expected_elements as f64 / (1.0 - false_positive_rate.powf(1.0 / 8.0)).ln();
    BloomFilter::with_num_bits(bits as usize)
}

/// Deterministic hasher that maps all keys to the same bucket,
/// forcing maximum collisions for testing probe chain behavior.
#[derive(Clone)]
struct CollisionHasher;
impl BuildHasher for CollisionHasher {
    type Hasher = FixedHasher;
    fn build_hasher(&self) -> FixedHasher {
        FixedHasher
    }
}
struct FixedHasher;
impl Hasher for FixedHasher {
    fn finish(&self) -> u64 {
        0 // all keys hash to bucket 0
    }
    fn write(&mut self, _bytes: &[u8]) {}
}

// ZERO
#[test]
fn hash_map_empty_map() {
    let map: HashMap<i32, i32> = HashMap::new();
    assert_eq!(map.get(&1), None);
    assert!(map.is_empty());
    assert_eq!(map.len(), 0);
}

// MANY
#[test]
fn hash_map_insert_and_get() {
    let mut map = HashMap::new();
    map.insert(1, "one");
    map.insert(2, "two");
    assert_eq!(map.get(&1), Some(&"one"));
    assert_eq!(map.get(&2), Some(&"two"));
    assert_eq!(map.get(&99), None);
}

#[test]
fn hash_map_remove_and_reinsert() {
    let mut map = HashMap::new();
    map.insert(1, 10);
    assert!(map.remove(&1));
    assert_eq!(map.get(&1), None);
    assert_eq!(map.len(), 0);
    map.insert(1, 20);
    assert_eq!(map.get(&1), Some(&20));
}

#[test]
fn hash_map_rehash_on_load() {
    let mut map = HashMap::with_capacity(4);
    for i in 0..100 {
        map.insert(i, i * 10);
    }
    for i in 0..100 {
        assert_eq!(map.get(&i), Some(&(i * 10)), "Missing key {}", i);
    }
    assert_eq!(map.len(), 100);
}

#[test]
fn hash_map_get_survives_tombstone_in_probe_chain() {
    let mut map = HashMap::with_capacity(16);
    for i in 0..10 {
        map.insert(i, i * 10);
    }
    map.remove(&3);
    map.remove(&5);
    map.remove(&7);
    for i in 0..10 {
        if i == 3 || i == 5 || i == 7 {
            assert_eq!(map.get(&i), None);
        } else {
            assert_eq!(map.get(&i), Some(&(i * 10)), "Missing key {}", i);
        }
    }
}

#[test]
fn probe_insert_no_duplicate_through_tombstone() {
    // Force all keys to collide. Insert A, B (both at bucket 0).
    // Remove A (tombstone at 0, B live at 1). Overwrite B.
    // Must NOT create a duplicate — len stays 1.
    let mut map = HashMap::with_capacity_and_hasher(8, CollisionHasher);
    map.insert(1, 10); // slot 0
    map.insert(2, 20); // slot 1
    assert_eq!(map.len(), 2);

    map.remove(&1); // tombstone at slot 0
    assert_eq!(map.len(), 1);

    map.insert(2, 99); // must find live 2 at slot 1, NOT reuse tombstone at 0
    assert_eq!(map.len(), 1);
    assert_eq!(map.get(&2), Some(&99));

    // After removing 2, it must be fully gone (no ghost duplicate)
    assert!(map.remove(&2));
    assert_eq!(map.get(&2), None);
    assert_eq!(map.len(), 0);
}



#[test]
fn hash_map_overwrite_key() {
    let mut map = HashMap::new();
    map.insert(1, 10);
    map.insert(1, 20);
    assert_eq!(map.get(&1), Some(&20));
    assert_eq!(map.len(), 1);
}


#[test]
fn remove_nonexistent() {
    let mut map: HashMap<i32, i32> = HashMap::new();
    assert!(!map.remove(&1));
}




#[test]
fn hash_map_string_keys() {
    let mut map = HashMap::new();
    map.insert("hello".to_string(), 1);
    map.insert("world".to_string(), 2);
    assert_eq!(map.get(&"hello".to_string()), Some(&1));
    assert_eq!(map.get(&"missing".to_string()), None);
}

#[test]
fn single_entry() {
    let mut map = HashMap::new();
    map.insert(42, 100);
    assert_eq!(map.len(), 1);
    assert_eq!(map.get(&42), Some(&100));
    assert!(map.remove(&42));
    assert!(map.is_empty());
}

#[test]
fn default_creates_empty() {
    let map: HashMap<i32, i32> = HashMap::default();
    assert!(map.is_empty());
    assert_eq!(map.len(), 0);
}

#[test]
fn insert_into_tombstoned_slot() {
    let mut map = HashMap::new();
    map.insert(1, 10);
    map.remove(&1);
    // Same key reuses tombstone slot
    map.insert(1, 20);
    assert_eq!(map.get(&1), Some(&20));
    assert_eq!(map.len(), 1);
}

#[test]
fn remove_all_then_reinsert() {
    let mut map = HashMap::with_capacity(4);
    for i in 0..10 {
        map.insert(i, i);
    }
    for i in 0..10 {
        assert!(map.remove(&i));
    }
    assert!(map.is_empty());
    // Reinsert — all slots are tombstones, must still work
    for i in 0..10 {
        map.insert(i, i * 100);
    }
    for i in 0..10 {
        assert_eq!(map.get(&i), Some(&(i * 100)));
    }
}

#[test]
fn with_capacity_rounds_to_power_of_two() {
    // Capacity 5 should round up to 8; inserting 5 elements should work
    let mut map = HashMap::with_capacity(5);
    for i in 0..5 {
        map.insert(i, i);
    }
    assert_eq!(map.len(), 5);
    for i in 0..5 {
        assert_eq!(map.get(&i), Some(&i));
    }
}

#[test]
fn overwrite_does_not_change_len() {
    let mut map = HashMap::new();
    map.insert(1, 10);
    map.insert(2, 20);
    map.insert(1, 30); // overwrite
    map.insert(2, 40); // overwrite
    assert_eq!(map.len(), 2);
}

#[test]
fn remove_returns_false_after_double_remove() {
    let mut map = HashMap::new();
    map.insert(1, 10);
    assert!(map.remove(&1));
    assert!(!map.remove(&1)); // already removed
}


// ZERO
#[test]
fn bloom_filter_empty_filter_rejects() {
    let s = RandomState::new();
    let bf = new_filter(100, 0.01);
    assert!(!bf.maybe_contains(compute_hash(&42, &s)));
}

// ONE
#[test]
fn bloom_filter_single_element() {
    let s = RandomState::new();
    let mut bf = new_filter(10, 0.01);
    bf.insert(compute_hash(&42, &s));
    assert!(bf.maybe_contains(compute_hash(&42, &s)));
    assert!(!bf.maybe_contains(compute_hash(&99, &s)));
}

// MANY -- no false negatives
#[test]
fn bloom_filter_inserted_elements_found() {
    let s = RandomState::new();
    let mut bf = new_filter(100, 0.01);
    for i in 0..100 {
        bf.insert(compute_hash(&i, &s));
    }
    for i in 0..100 {
        assert!(
            bf.maybe_contains(compute_hash(&i, &s)),
            "False negative for {}",
            i
        );
    }
}

// EDGE: false positive rate within bounds
#[test]
fn bloom_filter_false_positive_rate_bounded() {
    let s = RandomState::new();
    let mut bf = new_filter(1000, 0.01);
    for i in 0..1000 {
        bf.insert(compute_hash(&i, &s));
    }
    let fps: usize = (1000..11000)
        .filter(|i| bf.maybe_contains(compute_hash(i, &s)))
        .count();
    // With 1% target FP rate, expect <200 out of 10000 (2% margin for randomness)
    assert!(fps < 200, "FP rate too high: {}/10000", fps);
}






#[test]
fn bloom_filter_string_keys() {
    let mut bf = new_filter(100, 0.01);
    bf.insert(hash_value(&"hello"));
    bf.insert(hash_value(&"world"));
    assert!(bf.maybe_contains(hash_value(&"hello")));
    assert!(bf.maybe_contains(hash_value(&"world")));
}

#[test]
fn insert_same_element_twice_is_idempotent() {
    let mut bf = new_filter(10, 0.01);
    bf.insert(hash_value(&42));
    bf.insert(hash_value(&42));
    assert!(bf.maybe_contains(hash_value(&42)));
}

#[test]
fn minimal_filter_one_element() {
    let mut bf = new_filter(1, 0.5);
    bf.insert(hash_value(&1));
    assert!(bf.maybe_contains(hash_value(&1)));
}

#[test]
fn many_elements_no_false_negatives() {
    let mut bf = new_filter(10000, 0.001);
    for i in 0..10000 {
        bf.insert(hash_value(&i));
    }
    for i in 0..10000 {
        assert!(
            bf.maybe_contains(hash_value(&i)),
            "False negative for {}",
            i
        );
    }
}

#[test]
fn empty_filter_rejects_many() {
    let bf = new_filter(100, 0.01);
    for i in 0..100 {
        assert!(!bf.maybe_contains(hash_value(&i)));
    }
}


#[test]
fn basic_get_put() {
    let mut cache = LRUCache::new(3);
    cache.put(1, 10);
    cache.put(2, 20);
    assert_eq!(cache.get(&1), Some(&10));
    assert_eq!(cache.get(&99), None);
}

#[test]
fn evicts_lru() {
    let mut cache = LRUCache::new(3);
    cache.put(1, 10);
    cache.put(2, 20);
    cache.put(3, 30);
    cache.put(4, 40); // evicts 1 (least recently used)
    assert!(!cache.contains(&1));
    assert!(cache.contains(&2));
    assert!(cache.contains(&3));
    assert!(cache.contains(&4));
}

#[test]
fn get_promotes_to_mru() {
    let mut cache = LRUCache::new(3);
    cache.put(1, 10);
    cache.put(2, 20);
    cache.put(3, 30);
    cache.get(&1); // promote 1 to MRU
    cache.put(4, 40); // evicts 2 (now LRU), not 1
    assert!(cache.contains(&1));
    assert!(!cache.contains(&2));
}

#[test]
fn lru_cache_overwrite_key() {
    let mut cache = LRUCache::new(3);
    cache.put(1, 10);
    cache.put(1, 20);
    assert_eq!(cache.get(&1), Some(&20));
    assert_eq!(cache.len(), 1);
}

#[test]
fn empty_cache() {
    let mut cache: LRUCache<i32, i32> = LRUCache::new(3);
    assert_eq!(cache.get(&1), None);
    assert!(cache.is_empty());
}

#[test]
fn capacity_one() {
    let mut cache = LRUCache::new(1);
    cache.put(1, 10);
    cache.put(2, 20); // evicts 1
    assert!(!cache.contains(&1));
    assert_eq!(cache.get(&2), Some(&20));
}

#[test]
fn single_put_and_get() {
    let mut cache = LRUCache::new(10);
    cache.put(1, 42);
    assert_eq!(cache.len(), 1);
    assert_eq!(cache.get(&1), Some(&42));
}

#[test]
fn overwrite_promotes_to_mru() {
    let mut cache = LRUCache::new(3);
    cache.put(1, 10);
    cache.put(2, 20);
    cache.put(3, 30);
    cache.put(1, 99); // overwrite 1 → now MRU
    cache.put(4, 40); // evicts 2 (LRU), not 1
    assert!(cache.contains(&1));
    assert!(!cache.contains(&2));
    assert_eq!(cache.get(&1), Some(&99));
}

#[test]
fn evict_entire_cache_and_refill() {
    let mut cache = LRUCache::new(2);
    cache.put(1, 10);
    cache.put(2, 20);
    cache.put(3, 30); // evicts 1
    cache.put(4, 40); // evicts 2
    assert!(!cache.contains(&1));
    assert!(!cache.contains(&2));
    assert!(cache.contains(&3));
    assert!(cache.contains(&4));
    assert_eq!(cache.len(), 2);
}

#[test]
fn get_nonexistent_does_not_mutate() {
    let mut cache = LRUCache::new(3);
    cache.put(1, 10);
    cache.put(2, 20);
    assert_eq!(cache.get(&99), None);
    assert_eq!(cache.len(), 2);
}

#[test]
fn len_tracks_through_operations() {
    let mut cache = LRUCache::new(3);
    assert_eq!(cache.len(), 0);
    cache.put(1, 10);
    assert_eq!(cache.len(), 1);
    cache.put(2, 20);
    assert_eq!(cache.len(), 2);
    cache.put(1, 99); // overwrite, no size change
    assert_eq!(cache.len(), 2);
    cache.put(3, 30);
    assert_eq!(cache.len(), 3);
    cache.put(4, 40); // evicts oldest
    assert_eq!(cache.len(), 3);
}

#[test]
fn capacity_one_repeated_access() {
    let mut cache = LRUCache::new(1);
    cache.put(1, 10);
    assert_eq!(cache.get(&1), Some(&10));
    cache.put(1, 20); // overwrite same key
    assert_eq!(cache.len(), 1);
    assert_eq!(cache.get(&1), Some(&20));
}

#[test]
fn hashed_read_after_write_keeps_other_keys() {
    let mut map: HashMap<i32, i32> = HashMap::with_capacity(16);
    map.insert_hashed(1, 10, 5);
    map.insert_hashed(2, 20, 6);
    assert_eq!(map.get_hashed(&1, 5), Some(&10));
    assert_eq!(map.get_hashed(&2, 6), Some(&20));
    assert!(map.remove_hashed(&1, 5));
    assert_eq!(map.get_hashed(&1, 5), None);
    assert_eq!(map.get_hashed(&2, 6), Some(&20));
    assert_eq!(map.len(), 1);
}

#[test]
fn tiny_capacity_rounds_up() {
    let mut map: HashMap<i32, i32> = HashMap::with_capacity(1);
    map.insert(7, 70);
    assert_eq!(map.get(&7), Some(&70));
    assert_eq!(map.get(&8), None);
    assert_eq!(map.len(), 1);
}
