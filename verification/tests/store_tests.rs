use key_store_lite::Store;

#[test]
fn put_then_get_round_trip() {
    let mut store = Store::new();
    store.put("k".to_string(), "v".to_string());
    assert_eq!(store.get(&"k".to_string()), Some(&"v".to_string()));
}

#[test]
fn get_missing_key_is_none() {
    let store = Store::new();
    assert_eq!(store.get(&"k".to_string()), None);
}

#[test]
fn overwrite_leaves_only_the_second_value() {
    let mut store = Store::new();
    store.put("k".to_string(), "v1".to_string());
    store.put("k".to_string(), "v2".to_string());
    assert_eq!(store.get(&"k".to_string()), Some(&"v2".to_string()));
}

#[test]
fn idempotent_re_put_leaves_the_same_state() {
    let mut store = Store::new();
    store.put("k".to_string(), "v".to_string());
    store.put("k".to_string(), "v".to_string());
    assert_eq!(store.get(&"k".to_string()), Some(&"v".to_string()));
    assert_eq!(store.get(&"other".to_string()), None);
}

#[test]
fn distinct_keys_are_all_present() {
    let mut store = Store::new();
    for i in 0..16 {
        store.put(format!("k{}", i), format!("v{}", i));
    }
    for i in 0..16 {
        assert_eq!(store.get(&format!("k{}", i)), Some(&format!("v{}", i)));
    }
}

#[test]
fn empty_key_and_value_are_plain_entries() {
    let mut store = Store::new();
    store.put(String::new(), String::new());
    assert_eq!(store.get(&String::new()), Some(&String::new()));
}
