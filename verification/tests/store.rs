use redis_lite::store::Store;

#[test]
fn get_of_missing_key_is_none() {
    let mut store = Store::new();
    assert_eq!(store.get("k".to_string()), None);
}

#[test]
fn get_after_set_gives_value() {
    let mut store = Store::new();
    store.set("k".to_string(), "v".to_string());
    assert_eq!(store.get("k".to_string()), Some("v".to_string()));
    store.set("k".to_string(), "w".to_string());
    assert_eq!(store.get("k".to_string()), Some("w".to_string()));
}

#[test]
fn set_keeps_other_keys() {
    let mut store = Store::new();
    store.set("a".to_string(), "1".to_string());
    store.set("b".to_string(), "2".to_string());
    assert_eq!(store.get("a".to_string()), Some("1".to_string()));
    assert_eq!(store.get("b".to_string()), Some("2".to_string()));
}

#[test]
fn expiry_is_kept_until_deadline() {
    let mut store = Store::new();
    store.set_with_expiry_at("k".to_string(), "v".to_string(), 2, 1000);
    assert_eq!(store.get_at("k".to_string(), 1000), Some("v".to_string()));
    assert_eq!(store.get_at("k".to_string(), 2999), Some("v".to_string()));
    assert_eq!(store.get_at("k".to_string(), 3000), None);
    assert_eq!(store.get_at("k".to_string(), 0), None);
}

#[test]
fn zero_seconds_expires_at_once() {
    let mut store = Store::new();
    store.set_with_expiry_at("k".to_string(), "v".to_string(), 0, 50);
    assert_eq!(store.get_at("k".to_string(), 50), None);
}

#[test]
fn set_clears_expiry() {
    let mut store = Store::new();
    store.set_with_expiry_at("k".to_string(), "v".to_string(), 1, 0);
    store.set("k".to_string(), "w".to_string());
    assert_eq!(store.get_at("k".to_string(), 10_000), Some("w".to_string()));
}

#[test]
fn deadline_saturates() {
    let mut store = Store::new();
    store.set_with_expiry_at("k".to_string(), "v".to_string(), u64::MAX, u128::MAX - 5);
    assert_eq!(store.get_at("k".to_string(), u128::MAX - 1), Some("v".to_string()));
    assert_eq!(store.get_at("k".to_string(), u128::MAX), None);
}

#[test]
fn long_expiry_is_live_now() {
    let mut store = Store::new();
    store.set_with_expiry("k".to_string(), "v".to_string(), 3600);
    assert_eq!(store.get("k".to_string()), Some("v".to_string()));
}
