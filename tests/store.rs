use htcache::db::cache::State;
use htcache::db::cmap::CMap;
use htcache::db::{calculate_hash, CacheEntry};
use htcache::error::DatabaseError;

#[test]
fn test_cmap() {
    // Create a CMap
    let mut cmap = CMap::new(16, 100).unwrap();

    // Check shard count
    assert_eq!(cmap.shard_count(), 16);

    // Set key-value pairs
    cmap.set_kv(b"key1", b"value1");
    cmap.set_kv(b"key2", b"value2");

    // Test size
    assert_eq!(cmap.size(), 2);

    // Test `get_value`
    assert_eq!(cmap.get_value(b"key1"), Some(b"value1".to_vec()));
    assert_eq!(cmap.get_value(b"key2"), Some(b"value2".to_vec()));

    // Check that keys are distributed amongst the shards
    let mut keys_in_shards = 0;
    for i in 0..cmap.shard_count() {
        let shard = cmap.get_shard_by_index(i).unwrap();
        if shard.contains_key(b"key1") || shard.contains_key(b"key2") {
            keys_in_shards += 1;
        }
    }

    assert!(keys_in_shards > 0);

    // Test `del_entries`
    let keys = vec![b"key1".to_vec(), b"key2".to_vec()];
    let deleted = cmap.del_entries(&keys);
    for key in &keys {
        let count = deleted[cmap.get_shard_index(key)];
        assert!(count > 0);
    }
    assert_eq!(deleted.iter().sum::<usize>(), 2);

    assert_eq!(cmap.size(), 0);
}

#[test]
fn shard_count_must_be_a_power_of_two() {
    assert!(matches!(CMap::new(12, 10), Err(DatabaseError::InvalidShardCount)));
    assert!(matches!(CMap::new(0, 10), Err(DatabaseError::InvalidShardCount)));
    assert!(CMap::new(1, 10).is_ok());
    assert!(CMap::new(32, 10).is_ok());
}

#[test]
fn every_shard_receives_a_key() {
    let cmap = CMap::new(16, 100).unwrap();
    let mut seen = vec![0usize; 16];
    for i in 0..10_000 {
        let key = format!("key-{}", i);
        let index = cmap.get_shard_index(key.as_bytes());
        assert!(index < 16);
        seen[index] += 1;
    }
    assert!(seen.iter().all(|n| *n > 0));
}

#[test]
fn hash_depends_on_the_bytes() {
    assert_eq!(calculate_hash(b"abc"), calculate_hash(b"abc"));
    assert_ne!(calculate_hash(b"abc"), calculate_hash(b"abd"));
    assert_ne!(calculate_hash(b""), calculate_hash(b"a"));
}

#[test]
fn get_after_set_returns_the_value() {
    let mut cmap = CMap::new(8, 10).unwrap();
    cmap.set_kv(b"k", b"v");
    cmap.set_kv(b"other", b"x");
    cmap.set_kv(b"third", b"y");
    assert_eq!(cmap.get_value(b"k"), Some(b"v".to_vec()));
    assert_eq!(cmap.get_value(b"missing"), None);
}

#[test]
fn distinct_sets_count_each_key() {
    let mut cmap = CMap::new(4, 10).unwrap();
    for i in 0..100 {
        cmap.set_kv(format!("k{}", i).as_bytes(), b"v");
    }
    assert_eq!(cmap.size(), 100);
}

#[test]
fn second_set_replaces_without_growing() {
    let mut cmap = CMap::new(4, 10).unwrap();
    cmap.set_kv(b"k", b"v1");
    let after_first = cmap.size();
    cmap.set_kv(b"k", b"v2");
    assert_eq!(cmap.size(), after_first);
    assert_eq!(cmap.get_value(b"k"), Some(b"v2".to_vec()));
}

#[test]
fn delete_counts_present_keys_only() {
    let mut cmap = CMap::new(4, 10).unwrap();
    cmap.set_kv(b"a", b"1");
    cmap.set_kv(b"b", b"2");
    let keys = vec![b"a".to_vec(), b"b".to_vec(), b"c".to_vec(), b"a".to_vec()];
    let counts = cmap.del_entries(&keys);
    assert_eq!(counts.len(), 4);
    assert_eq!(counts.iter().sum::<usize>(), 2);
    assert_eq!(cmap.size(), 0);
    assert_eq!(cmap.get_value(b"a"), None);
    assert_eq!(cmap.get_value(b"b"), None);
    assert!(!cmap.contains_key(b"c"));
}

#[test]
fn state_set_get_del() {
    let mut cache = State::new(1000, 16, 80).unwrap();
    for i in 0..10 {
        cache.set_kv(format!("key{}", i).as_bytes(), format!("value{}", i).as_bytes(), None);
    }
    for i in 0..10 {
        assert_eq!(
            cache.get_value_by_key(format!("key{}", i).as_bytes()),
            Some(format!("value{}", i).into_bytes())
        );
    }
    assert_eq!(cache.get_value_by_key(b"not found"), None);
    assert_eq!(cache.delete_entries(&vec![b"key1".to_vec()]), 1);
    assert_eq!(cache.delete_entries(&vec![b"key1".to_vec()]), 0);
    assert_eq!(cache.get_value_by_key(b"key1"), None);
    for _ in 0..100 {
        cache.set_kv(b"key2", b"value100", None);
    }
    assert_eq!(cache.get_value_by_key(b"key2"), Some(b"value100".to_vec()));
    assert_eq!(cache.size(), 9);
}

#[test]
fn state_rejects_bad_configuration() {
    assert!(matches!(State::new(100, 16, 100), Err(DatabaseError::InvalidThreshold)));
    assert!(matches!(State::new(0, 16, 50), Err(DatabaseError::NoAllocation)));
    assert!(matches!(State::new(100, 10, 50), Err(DatabaseError::InvalidShardCount)));
    let s = State::new(100, 16, 99).unwrap();
    assert_eq!(s.capacity(), 100);
    assert_eq!(s.shard_count(), 16);
}

#[test]
fn set_reports_when_the_eviction_mark_is_reached() {
    // capacity 10 at 50 percent: the mark is 5 keys.
    let mut cache = State::new(10, 2, 50).unwrap();
    for i in 0..4 {
        assert!(!cache.set_kv(format!("k{}", i).as_bytes(), b"v", None));
    }
    assert!(cache.set_kv(b"k4", b"v", None));
    assert!(cache.set_kv(b"k5", b"v", None));
    // replacing a key keeps the size at the mark
    assert!(cache.set_kv(b"k5", b"w", None));
}

#[test]
fn eviction_removes_expired_keys_only() {
    let mut cache = State::new(100, 4, 10).unwrap();
    cache.set_kv(b"early", b"1", Some(100));
    cache.set_kv(b"late", b"2", Some(1000));
    cache.set_kv(b"middle", b"3", Some(500));
    cache.set_kv(b"forever", b"4", None);
    let counts = cache.evict_expired_keys(600);
    assert_eq!(counts.iter().sum::<usize>(), 2);
    assert_eq!(cache.get_value_by_key(b"early"), None);
    assert_eq!(cache.get_value_by_key(b"middle"), None);
    assert_eq!(cache.get_value_by_key(b"late"), Some(b"2".to_vec()));
    assert_eq!(cache.get_value_by_key(b"forever"), Some(b"4".to_vec()));
    assert_eq!(cache.size(), 2);
    // an entry whose time equals the present has not expired yet
    let counts = cache.evict_expired_keys(1000);
    assert_eq!(counts.iter().sum::<usize>(), 0);
    let counts = cache.evict_expired_keys(1001);
    assert_eq!(counts.iter().sum::<usize>(), 1);
    assert_eq!(cache.size(), 1);
}

#[test]
fn a_new_set_replaces_the_expiration() {
    let mut cache = State::new(100, 4, 10).unwrap();
    cache.set_kv(b"k", b"1", Some(10));
    cache.set_kv(b"k", b"2", None);
    let counts = cache.evict_expired_keys(50);
    assert_eq!(counts.iter().sum::<usize>(), 0);
    assert_eq!(cache.get_value_by_key(b"k"), Some(b"2".to_vec()));
    cache.set_kv(b"k", b"3", Some(100));
    cache.set_kv(b"k", b"4", Some(20));
    let counts = cache.evict_expired_keys(50);
    assert_eq!(counts.iter().sum::<usize>(), 1);
    assert_eq!(cache.get_value_by_key(b"k"), None);
}

#[test]
fn deleted_keys_count_nothing_on_sweep() {
    let mut cache = State::new(100, 4, 10).unwrap();
    cache.set_kv(b"k", b"1", Some(10));
    assert_eq!(cache.delete_entries(&vec![b"k".to_vec()]), 1);
    let counts = cache.evict_expired_keys(50);
    assert_eq!(counts.iter().sum::<usize>(), 0);
}

#[test]
fn cache_entry_expiration() {
    let e = CacheEntry::new(b"k", b"v", 100);
    assert_eq!(e.key, b"k".to_vec());
    assert_eq!(e.value, b"v".to_vec());
    assert!(!e.is_expired(99));
    assert!(e.is_expired(100));
    assert!(e.is_expired(101));
}
