use tinyportmapper::lru::LruCollector;

#[test]
fn test_new_key() {
    let mut lru: LruCollector<&str, &str> = LruCollector::new();
    lru.new_key("key1", "value1", 1000);
    assert_eq!(lru.len(), 1);
}

#[test]
fn test_update() {
    let mut lru: LruCollector<&str, &str> = LruCollector::new();
    lru.new_key("key1", "value1", 1000);
    lru.update(&"key1", 2000);
    assert_eq!(lru.len(), 1);
}

#[test]
fn test_erase() {
    let mut lru: LruCollector<&str, &str> = LruCollector::new();
    lru.new_key("key1", "value1", 1000);
    lru.erase(&"key1");
    assert!(lru.is_empty());
}

#[test]
fn test_peek_back() {
    let mut lru: LruCollector<&str, &str> = LruCollector::new();
    lru.new_key("key1", "value1", 1000);
    lru.new_key("key2", "value2", 2000);

    let (key, value) = lru.peek_back().expect("Lru peek failed");
    assert_eq!(key, "key1");
    assert_eq!(value, "value1");
}

#[test]
fn test_update_nonexistent() {
    let mut lru: LruCollector<&str, &str> = LruCollector::new();
    lru.update(&"nonexistent", 1000);
}

#[test]
fn test_erase_nonexistent() {
    let mut lru: LruCollector<&str, &str> = LruCollector::new();
    lru.new_key("key1", "value1", 1000);
    lru.erase(&"nonexistent");
    assert_eq!(lru.len(), 1);
}

#[test]
fn test_cleanup_all() {
    let mut lru: LruCollector<&str, &str> = LruCollector::new();
    lru.new_key("key1", "value1", 1000);
    lru.new_key("key2", "value2", 1001);
    lru.new_key("key3", "value3", 1002);

    let removed = lru.cleanup_timeout(10000);
    assert_eq!(removed.len(), 3);
    assert!(lru.is_empty());
}

#[test]
fn cleanup_at_removes_only_stale_entries() {
    let mut lru: LruCollector<&str, &str> = LruCollector::new();
    lru.new_key("key1", "value1", 1000);
    lru.new_key("key2", "value2", 1020);
    let removed = lru.cleanup_timeout_at(1015, 5);
    assert_eq!(removed, vec!["key1"]);
    assert_eq!(lru.len(), 1);
    assert_eq!(lru.ts_of(&"key2"), Some(1020));
    assert_eq!(lru.ts_of(&"key1"), None);
}

#[test]
fn cleanup_at_keeps_entry_exactly_at_timeout() {
    let mut lru: LruCollector<u64, u64> = LruCollector::new();
    lru.new_key(1, 1, 1000);
    let removed = lru.cleanup_timeout_at(1010, 10);
    assert!(removed.is_empty());
    let removed = lru.cleanup_timeout_at(1011, 10);
    assert_eq!(removed, vec![1]);
}

#[test]
fn peek_back_follows_updates() {
    let mut lru: LruCollector<u64, u64> = LruCollector::new();
    lru.new_key(1, 10, 1000);
    lru.new_key(2, 20, 2000);
    lru.new_key(3, 30, 1500);
    assert_eq!(lru.peek_back(), Some((1, 10)));
    assert!(lru.update(&1, 3000));
    assert_eq!(lru.peek_back(), Some((3, 30)));
    assert!(lru.erase(&3));
    assert_eq!(lru.peek_back(), Some((2, 20)));
}

#[test]
fn peek_back_prefers_earliest_inserted_on_ties() {
    let mut lru: LruCollector<u64, u64> = LruCollector::new();
    lru.new_key(7, 70, 500);
    lru.new_key(8, 80, 500);
    assert_eq!(lru.peek_back(), Some((7, 70)));
}

#[test]
fn peek_back_on_empty_is_none() {
    let lru: LruCollector<u64, u64> = LruCollector::new();
    assert_eq!(lru.peek_back(), None);
}

#[test]
fn new_key_twice_replaces() {
    let mut lru: LruCollector<u64, u64> = LruCollector::new();
    lru.new_key(1, 10, 1000);
    lru.new_key(1, 11, 2000);
    assert_eq!(lru.len(), 1);
    assert_eq!(lru.ts_of(&1), Some(2000));
    assert_eq!(lru.peek_back(), Some((1, 11)));
}

#[test]
fn cleanup_returns_oldest_first() {
    let mut lru: LruCollector<u64, u64> = LruCollector::new();
    lru.new_key(1, 10, 500);
    lru.new_key(2, 20, 100);
    lru.new_key(3, 30, 300);
    lru.new_key(4, 40, 9000);
    let removed = lru.cleanup_timeout_at(10_000, 5000);
    assert_eq!(removed, vec![2, 3, 1]);
    assert_eq!(lru.len(), 1);
    assert_eq!(lru.ts_of(&4), Some(9000));
}
