use simple_reader::lru_cache::{LruBytesCache, MAX_CACHE_BYTES};

#[test]
fn new_cache_is_empty_with_the_default_budget() {
    let mut cache = LruBytesCache::new();
    assert_eq!(MAX_CACHE_BYTES, 100 * 1024 * 1024);
    assert_eq!(cache.len(), 0);
    assert_eq!(cache.total_bytes(), 0);
    assert!(!cache.contains("a", 0));
    assert_eq!(cache.get("a", 0), None);
}

#[test]
fn get_returns_what_was_inserted() {
    let mut cache = LruBytesCache::with_budget(100);
    cache.insert("book", 3, vec![1, 2, 3]);
    assert!(cache.contains("book", 3));
    assert!(!cache.contains("book", 4));
    assert!(!cache.contains("boo", 3));
    assert_eq!(cache.get("book", 3), Some(vec![1, 2, 3]));
    assert_eq!(cache.get("book", 3), Some(vec![1, 2, 3]));
    assert_eq!(cache.total_bytes(), 3);
}

#[test]
fn first_writer_wins() {
    let mut cache = LruBytesCache::with_budget(100);
    cache.insert("a", 0, vec![1; 10]);
    cache.insert("a", 0, vec![2; 20]);
    assert_eq!(cache.get("a", 0), Some(vec![1; 10]));
    assert_eq!(cache.total_bytes(), 10);
    assert_eq!(cache.len(), 1);
}

#[test]
fn eviction_takes_the_least_recently_used() {
    let mut cache = LruBytesCache::with_budget(30);
    cache.insert("s", 0, vec![b'A'; 10]);
    cache.insert("s", 1, vec![b'B'; 10]);
    cache.insert("s", 2, vec![b'C'; 10]);
    assert_eq!(cache.len(), 3);
    assert_eq!(cache.get("s", 0), Some(vec![b'A'; 10]));
    cache.insert("s", 3, vec![b'D'; 10]);
    assert!(cache.contains("s", 0));
    assert!(!cache.contains("s", 1));
    assert!(cache.contains("s", 2));
    assert!(cache.contains("s", 3));
    assert_eq!(cache.total_bytes(), 30);
}

#[test]
fn contains_does_not_count_as_use() {
    let mut cache = LruBytesCache::with_budget(20);
    cache.insert("s", 0, vec![0; 10]);
    cache.insert("s", 1, vec![1; 10]);
    assert!(cache.contains("s", 0));
    cache.insert("s", 2, vec![2; 10]);
    assert!(!cache.contains("s", 0));
    assert!(cache.contains("s", 1));
}

#[test]
fn eviction_goes_on_until_the_item_fits() {
    let mut cache = LruBytesCache::with_budget(30);
    for i in 0..3 {
        cache.insert("s", i, vec![i as u8; 10]);
    }
    cache.insert("s", 9, vec![9; 25]);
    assert_eq!(cache.len(), 1);
    assert_eq!(cache.total_bytes(), 25);
    cache.insert("s", 10, vec![1; 5]);
    assert_eq!(cache.len(), 2);
    assert_eq!(cache.total_bytes(), 30);
}

#[test]
fn item_larger_than_the_budget_is_kept_alone() {
    let mut cache = LruBytesCache::with_budget(10);
    cache.insert("s", 0, vec![0; 4]);
    cache.insert("s", 1, vec![1; 50]);
    assert_eq!(cache.len(), 1);
    assert_eq!(cache.total_bytes(), 50);
    assert_eq!(cache.get("s", 1), Some(vec![1; 50]));
    // The next insert drops it again.
    cache.insert("s", 2, vec![2; 1]);
    assert_eq!(cache.len(), 1);
    assert_eq!(cache.total_bytes(), 1);
    assert!(!cache.contains("s", 1));
}

#[test]
fn budget_holds_after_every_insert() {
    let mut cache = LruBytesCache::with_budget(1000);
    let mut largest = 0usize;
    for i in 0..200usize {
        let size = (i * 37) % 1500;
        largest = largest.max(size);
        cache.insert(if i % 2 == 0 { "even" } else { "odd" }, i, vec![0u8; size]);
        assert!(cache.total_bytes() <= 1000usize.max(largest));
        assert!(cache.total_bytes() <= 1000 || cache.len() == 1);
        if i % 5 == 0 {
            cache.get("even", i / 2);
        }
    }
}

#[test]
fn zero_budget_keeps_only_the_newest() {
    let mut cache = LruBytesCache::with_budget(0);
    cache.insert("s", 0, vec![]);
    cache.insert("s", 1, vec![]);
    assert_eq!(cache.len(), 2);
    cache.insert("s", 2, vec![1]);
    assert_eq!(cache.len(), 1);
    assert_eq!(cache.total_bytes(), 1);
}

#[test]
fn remove_file_drops_one_source_only() {
    let mut cache = LruBytesCache::with_budget(100);
    cache.insert("a", 0, vec![0; 10]);
    cache.insert("b", 0, vec![1; 20]);
    cache.insert("a", 1, vec![2; 30]);
    cache.insert("b", 1, vec![3; 5]);
    cache.remove_file("a");
    assert_eq!(cache.len(), 2);
    assert_eq!(cache.total_bytes(), 25);
    assert!(!cache.contains("a", 0));
    assert!(!cache.contains("a", 1));
    assert_eq!(cache.get("b", 0), Some(vec![1; 20]));
    // The order of use of the others is kept: b/1 is now the oldest.
    cache.insert("c", 0, vec![4; 80]);
    assert!(!cache.contains("b", 1));
    assert!(cache.contains("b", 0));
    cache.remove_file("missing");
    assert_eq!(cache.len(), 2);
}
