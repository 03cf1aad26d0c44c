use binvis::cache::Cache;

#[test]
fn capacity_evicts_lru_scenario() {
    // Capacity 1000: put A (600 bytes), put B (500 bytes). A must be evicted
    // and only B remains, with total_size 500.
    let mut cache = Cache::new(1000);
    let key_a = Cache::make_key("A", 1);
    let key_b = Cache::make_key("B", 1);
    cache.put(key_a, vec![0xaa; 600]);
    let stats = cache.stats();
    assert_eq!(stats.entries, 1);
    assert_eq!(stats.total_size, 600);
    cache.put(key_b, vec![0xbb; 500]);
    let stats = cache.stats();
    assert_eq!(stats.entries, 1);
    assert_eq!(stats.total_size, 500);
    assert_eq!(stats.capacity, 1000);
    assert!(cache.get(key_a).is_none());
    assert_eq!(cache.get(key_b), Some(vec![0xbb; 500]));
}

#[test]
fn total_size_tracks_every_put() {
    let mut cache = Cache::new(100);
    for i in 0..20u64 {
        cache.put(i, vec![i as u8; 10]);
        let stats = cache.stats();
        assert!(stats.total_size <= stats.capacity);
        assert_eq!(
            stats.total_size,
            stats.entries * 10,
            "total must equal the sum of live entry sizes"
        );
    }
    // Capacity 100, entries of 10 bytes: exactly the 10 most recent remain.
    let stats = cache.stats();
    assert_eq!(stats.entries, 10);
    assert_eq!(stats.total_size, 100);
    assert!(cache.get(9).is_none());
    assert!(cache.get(10).is_some());
    assert!(cache.get(19).is_some());
}

#[test]
fn get_protects_entry_from_next_eviction() {
    // Two entries fill the cache. Touching the older one with `get` makes it
    // most recently used, so the next insertion evicts the other entry.
    let mut cache = Cache::new(100);
    cache.put(1, vec![1; 50]);
    cache.put(2, vec![2; 50]);
    assert!(cache.get(1).is_some());
    cache.put(3, vec![3; 50]);
    assert!(cache.get(1).is_some(), "recently touched entry must survive");
    assert!(cache.get(2).is_none(), "least recently used entry must go");
    assert!(cache.get(3).is_some());
}

#[test]
fn oversize_put_leaves_store_unchanged() {
    let mut cache = Cache::new(100);
    cache.put(1, vec![1; 40]);
    cache.put(2, vec![2; 40]);
    cache.put(3, vec![3; 101]);
    let stats = cache.stats();
    assert_eq!(stats.entries, 2);
    assert_eq!(stats.total_size, 80);
    assert!(cache.get(1).is_some());
    assert!(cache.get(2).is_some());
    assert!(cache.get(3).is_none());
}

#[test]
fn put_same_key_replaces_entry() {
    let mut cache = Cache::new(100);
    cache.put(7, vec![1; 60]);
    cache.put(7, vec![2; 30]);
    let stats = cache.stats();
    assert_eq!(stats.entries, 1);
    assert_eq!(stats.total_size, 30);
    assert_eq!(cache.get(7), Some(vec![2; 30]));
}

#[test]
fn clear_empties_store() {
    let mut cache = Cache::new(100);
    cache.put(1, vec![1; 10]);
    cache.put(2, vec![2; 10]);
    cache.clear();
    let stats = cache.stats();
    assert_eq!(stats.entries, 0);
    assert_eq!(stats.total_size, 0);
    assert!(cache.get(1).is_none());
}

#[test]
fn make_key_is_deterministic() {
    let a = Cache::make_key("some-file", 4096);
    let b = Cache::make_key("some-file", 4096);
    assert_eq!(a, b);
    assert_ne!(Cache::make_key("some-file", 4096), Cache::make_key("some-file", 4097));
    assert_ne!(Cache::make_key("some-file", 4096), Cache::make_key("other-file", 4096));
}

#[test]
fn make_key_exact_values() {
    // FNV-1a over the identifier's UTF-8 bytes, then the size's eight
    // little-endian bytes.
    assert_eq!(Cache::make_key("abc", 1000), 0xae6bdb7111c23cde);
    assert_eq!(Cache::make_key("abc", 1001), 0x04cc1d53632b4d07);
    assert_eq!(Cache::make_key("", 0), 0xa8c7f832281a39c5);
}

#[test]
fn empty_payload_put_and_get() {
    let mut cache = Cache::new(10);
    cache.put(5, Vec::new());
    assert_eq!(cache.get(5), Some(Vec::new()));
    let stats = cache.stats();
    assert_eq!(stats.entries, 1);
    assert_eq!(stats.total_size, 0);
}
