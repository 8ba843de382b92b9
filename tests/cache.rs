use lru_cache::cache::Cache;

#[test]
fn unbounded_overwrite_returns_latest() {
    let mut c = Cache::new();
    c.set("x", "v1");
    c.set("x", "v2");
    assert_eq!(c.get(&"x"), Some(&"v2"));
}

#[test]
fn unbounded_never_evicts() {
    let mut c = Cache::new();
    for n in 0..1000u32 {
        c.set(n, n * 2);
    }
    for n in 0..1000u32 {
        assert_eq!(c.get(&n), Some(&(n * 2)));
    }
}

#[test]
fn unbounded_absent_key() {
    let mut c = Cache::new();
    c.set("key1", "value1");
    c.set("key2", "value2");
    assert_eq!(c.get(&"key1"), Some(&"value1"));
    assert_eq!(c.get(&"key3"), None);
}
