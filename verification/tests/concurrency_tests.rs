use std::sync::{Arc, Mutex};

use key_store_lite::Store;

#[test]
fn concurrent_distinct_keys_all_present() {
    let store = Arc::new(Mutex::new(Store::new()));
    let pool = rayon::ThreadPoolBuilder::new().num_threads(8).build().unwrap();
    pool.scope(|s| {
        for i in 0..32 {
            let shared = Arc::clone(&store);
            s.spawn(move |_| {
                let mut guard = shared.lock().unwrap();
                guard.put(format!("k{}", i), format!("v{}", i));
            });
        }
    });
    let guard = store.lock().unwrap();
    for i in 0..32 {
        assert_eq!(guard.get(&format!("k{}", i)), Some(&format!("v{}", i)));
    }
}

#[test]
fn concurrent_same_key_holds_exactly_one_submitted_value() {
    let store = Arc::new(Mutex::new(Store::new()));
    let pool = rayon::ThreadPoolBuilder::new().num_threads(8).build().unwrap();
    pool.scope(|s| {
        for i in 0..32 {
            let shared = Arc::clone(&store);
            s.spawn(move |_| {
                let mut guard = shared.lock().unwrap();
                guard.put("k".to_string(), format!("v{}", i));
            });
        }
    });
    let guard = store.lock().unwrap();
    let held = guard.get(&"k".to_string()).expect("the key must be present");
    let submitted: Vec<String> = (0..32).map(|i| format!("v{}", i)).collect();
    assert!(submitted.contains(held));
}
