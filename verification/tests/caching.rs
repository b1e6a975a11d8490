use polymath::cache::Cache;

fn value(parts: &[&str]) -> Vec<Vec<u8>> {
    parts.iter().map(|p| p.as_bytes().to_vec()).collect()
}

#[test]
fn cache_round_trip_within_ttl() {
    let mut c = Cache::new();
    let key = b"k1".to_vec();
    let v = value(&["chunk one", "chunk two"]);
    c.set(key.clone(), v.clone(), 3600, 1000);
    assert_eq!(c.get(&key, 1000), Some(&v));
    assert_eq!(c.get(&key, 4599), Some(&v));
}

#[test]
fn cache_miss_after_ttl_expiry() {
    let mut c = Cache::new();
    let key = b"k1".to_vec();
    c.set(key.clone(), value(&["chunk"]), 3600, 1000);
    assert_eq!(c.get(&key, 4600), None);
    assert_eq!(c.get(&key, 9999), None);
}

#[test]
fn cache_miss_on_fresh_cache() {
    let c = Cache::new();
    assert_eq!(c.get(&b"absent".to_vec(), 0), None);
}

#[test]
fn cache_miss_on_other_key() {
    let mut c = Cache::new();
    c.set(b"k1".to_vec(), value(&["chunk"]), 3600, 0);
    assert_eq!(c.get(&b"k2".to_vec(), 0), None);
}

#[test]
fn cache_set_overwrites_existing_key() {
    let mut c = Cache::new();
    let key = b"k".to_vec();
    let v1 = value(&["old"]);
    let v2 = value(&["new"]);
    c.set(key.clone(), v1, 3600, 0);
    c.set(key.clone(), v2.clone(), 3600, 10);
    assert_eq!(c.get(&key, 10), Some(&v2));
}

#[test]
fn cache_expiry_saturates_at_largest_time() {
    let mut c = Cache::new();
    let key = b"k".to_vec();
    let v = value(&["chunk"]);
    c.set(key.clone(), v.clone(), 100, u64::MAX - 5);
    assert_eq!(c.get(&key, u64::MAX - 1), Some(&v));
}
