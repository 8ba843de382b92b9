use lru_cache::lru::LRUCache;

fn recency(c: &LRUCache<&'static str, i32>) -> Vec<(&'static str, i32)> {
    let mut out = Vec::new();
    for i in 0..c.len() {
        out.push((*c.key_at(i), *c.value_at(i)));
    }
    out
}

fn two_entries() -> LRUCache<&'static str, i32> {
    let mut c = LRUCache::new(2);
    c.set("a", 1);
    c.set("b", 2);
    c
}

#[test]
fn set_two_keys_orders_by_recency() {
    let c = two_entries();
    assert_eq!(recency(&c), vec![("b", 2), ("a", 1)]);
    assert_eq!(c.capacity(), 2);
}

#[test]
fn get_promotes_key() {
    let mut c = two_entries();
    assert_eq!(c.get(&"a"), Some(&1));
    assert_eq!(recency(&c), vec![("a", 1), ("b", 2)]);
}

#[test]
fn overflow_evicts_least_recently_used() {
    let mut c = two_entries();
    assert_eq!(c.get(&"a"), Some(&1));
    c.set("c", 3);
    assert_eq!(recency(&c), vec![("c", 3), ("a", 1)]);
}

#[test]
fn get_of_evicted_key_is_absent_and_changes_nothing() {
    let mut c = two_entries();
    c.get(&"a");
    c.set("c", 3);
    assert_eq!(c.get(&"b"), None);
    assert_eq!(recency(&c), vec![("c", 3), ("a", 1)]);
}

#[test]
fn get_of_never_inserted_key_is_absent() {
    let mut c = two_entries();
    assert_eq!(c.get(&"z"), None);
    assert_eq!(recency(&c), vec![("b", 2), ("a", 1)]);
}

#[test]
fn writes_never_exceed_capacity() {
    let keys = ["k0", "k1", "k2", "k3", "k4", "k5", "k6", "k7"];
    let mut c = LRUCache::new(3);
    for (n, k) in keys.iter().enumerate() {
        c.set(*k, n as i32);
        assert!(c.len() <= 3);
    }
    assert_eq!(recency(&c), vec![("k7", 7), ("k6", 6), ("k5", 5)]);
}

#[test]
fn without_reads_eviction_follows_insertion_order() {
    let mut c = LRUCache::new(3);
    c.set("a", 1);
    c.set("b", 2);
    c.set("c", 3);
    c.set("d", 4);
    assert_eq!(c.get(&"a"), None);
    assert_eq!(recency(&c), vec![("d", 4), ("c", 3), ("b", 2)]);
}

#[test]
fn read_key_survives_later_fresh_writes() {
    let mut c = LRUCache::new(4);
    c.set("a", 1);
    c.set("b", 2);
    assert_eq!(c.get(&"a"), Some(&1));
    c.set("x", 10);
    c.set("y", 11);
    c.set("z", 12);
    assert_eq!(c.len(), 4);
    assert_eq!(c.get(&"b"), None);
    assert_eq!(c.get(&"a"), Some(&1));
}

#[test]
fn repeated_write_keeps_value_and_promotes() {
    let mut c = two_entries();
    c.set("a", 1);
    assert_eq!(recency(&c), vec![("a", 1), ("b", 2)]);
    c.set("a", 1);
    assert_eq!(recency(&c), vec![("a", 1), ("b", 2)]);
}

#[test]
fn overwrite_replaces_value_without_eviction() {
    let mut c = two_entries();
    c.set("a", 5);
    assert_eq!(recency(&c), vec![("a", 5), ("b", 2)]);
    assert_eq!(c.get(&"b"), Some(&2));
    assert_eq!(recency(&c), vec![("b", 2), ("a", 5)]);
}

#[test]
fn capacity_one_keeps_only_last_write() {
    let mut c = LRUCache::new(1);
    c.set("a", 1);
    c.set("b", 2);
    assert_eq!(recency(&c), vec![("b", 2)]);
    assert_eq!(c.get(&"a"), None);
    c.update_usage(&"b");
    assert_eq!(recency(&c), vec![("b", 2)]);
}

#[test]
fn update_usage_promotes_present_and_ignores_absent() {
    let mut c = LRUCache::new(3);
    c.set("a", 1);
    c.set("b", 2);
    c.set("c", 3);
    c.update_usage(&"a");
    assert_eq!(recency(&c), vec![("a", 1), ("c", 3), ("b", 2)]);
    c.update_usage(&"q");
    assert_eq!(recency(&c), vec![("a", 1), ("c", 3), ("b", 2)]);
}

#[test]
fn empty_cache_has_no_entries() {
    let mut c: LRUCache<&'static str, i32> = LRUCache::new(5);
    assert_eq!(c.len(), 0);
    assert_eq!(c.get(&"a"), None);
}
