use kv_core::error::KVError;
use kv_core::ttl::{TTLManager, TTLSupport};
use kv_core::types::{Entry, Value};
use std::time::Duration;

#[test]
fn test_ttl_set_and_get() {
    let mut ttl_manager = TTLManager::new(Duration::from_secs(1));

    ttl_manager.set_ttl("test_key".to_string(), 60).unwrap();

    let ttl = ttl_manager.get_ttl(&"test_key".to_string()).unwrap();
    assert!(ttl.is_some());
    assert!(ttl.unwrap() <= 60);

    let expired = ttl_manager.is_expired(&"test_key".to_string()).unwrap();
    assert!(!expired);
}

#[test]
fn test_ttl_removal() {
    let mut ttl_manager = TTLManager::new(Duration::from_secs(1));

    ttl_manager.set_ttl("test_key".to_string(), 60).unwrap();

    let removed = ttl_manager.remove_ttl(&"test_key".to_string()).unwrap();
    assert!(removed);

    let ttl = ttl_manager.get_ttl(&"test_key".to_string()).unwrap();
    assert!(ttl.is_none());
}

#[test]
fn test_expiration_cleanup() {
    // The cleanup round that runs after the key's one-second TTL has passed
    // hands it to the callback.
    let mut ttl_manager = TTLManager::new(Duration::from_millis(100));
    ttl_manager.set_ttl_at("short_ttl_key".to_string(), 1, 10_000).unwrap();
    let mut cleanup_count = 0usize;
    for round in 1..=15i64 {
        let keys = ttl_manager.collect_expired(10_000 + round * 100);
        cleanup_count += keys.len();
    }
    assert!(cleanup_count > 0);
}

#[test]
fn test_ttl_stats() {
    let mut ttl_manager = TTLManager::new(Duration::from_secs(1));

    ttl_manager.set_ttl("key1".to_string(), 60).unwrap();
    ttl_manager.set_ttl("key2".to_string(), 120).unwrap();

    let stats = ttl_manager.get_stats().unwrap();
    assert_eq!(stats.total_keys_with_ttl, 2);
    assert_eq!(stats.active_keys, 2);
    assert_eq!(stats.expired_keys, 0);
    assert!(stats.next_expiration.is_some());
}

#[test]
fn ttl_collect_expired_takes_keys_before_now_in_order() {
    let mut m = TTLManager::new(Duration::from_secs(1));
    m.set_ttl_at("c".to_string(), 3, 0).unwrap();
    m.set_ttl_at("a".to_string(), 1, 0).unwrap();
    m.set_ttl_at("b".to_string(), 1, 0).unwrap();
    m.set_ttl_at("d".to_string(), 9, 0).unwrap();
    // expiry exactly at `now` is not yet expired
    assert!(m.collect_expired(1_000).is_empty());
    assert_eq!(m.collect_expired(3_001), vec!["a".to_string(), "b".to_string(), "c".to_string()]);
    assert_eq!(m.get_ttl_at(&"d".to_string(), 3_001).unwrap(), Some(5));
    assert_eq!(m.get_ttl_at(&"a".to_string(), 3_001).unwrap(), None);
}

#[test]
fn ttl_reset_moves_the_key() {
    let mut m = TTLManager::new(Duration::from_secs(1));
    m.set_ttl_at("k".to_string(), 1, 0).unwrap();
    m.set_ttl_at("k".to_string(), 100, 0).unwrap();
    assert!(m.collect_expired(50_000).is_empty());
    assert_eq!(m.get_ttl_at(&"k".to_string(), 50_000).unwrap(), Some(50));
    assert!(!m.is_expired_at(&"k".to_string(), 100_000).unwrap());
    assert!(m.is_expired_at(&"k".to_string(), 100_001).unwrap());
}

#[test]
fn ttl_expiring_window_includes_both_ends() {
    let mut m = TTLManager::new(Duration::from_secs(1));
    m.set_ttl_at("a".to_string(), 1, 0).unwrap();
    m.set_ttl_at("b".to_string(), 2, 0).unwrap();
    m.set_ttl_at("c".to_string(), 3, 0).unwrap();
    let keys = m.get_expiring_keys_at(Duration::from_secs(1), 1_000).unwrap();
    assert_eq!(keys, vec!["a".to_string(), "b".to_string()]);
    match m.get_expiring_keys_at(Duration::from_secs(u64::MAX), 0) {
        Err(KVError::TTL(msg)) => assert!(msg.starts_with("Invalid duration")),
        other => panic!("unexpected {:?}", other),
    }
}

#[test]
fn ttl_stats_at_count_passed_keys() {
    let mut m = TTLManager::new(Duration::from_secs(1));
    m.set_ttl_at("a".to_string(), 1, 0).unwrap();
    m.set_ttl_at("b".to_string(), 5, 0).unwrap();
    let st = m.get_stats_at(1_000).unwrap();
    assert_eq!(st.total_keys_with_ttl, 2);
    assert_eq!(st.expired_keys, 1);
    assert_eq!(st.active_keys, 1);
    assert_eq!(st.next_expiration, Some(1_000));
    m.clear_all();
    assert_eq!(m.get_stats_at(0).unwrap().next_expiration, None);
}

#[test]
fn ttl_support_on_entries() {
    let mut e = Entry::new(Value::String("v".to_string()), None);
    assert!(!TTLSupport::is_expired(&e));
    assert_eq!(TTLSupport::remaining_ttl(&e), None);
    TTLSupport::set_ttl(&mut e, 100);
    let left = TTLSupport::remaining_ttl(&e).unwrap();
    assert!(left <= 100 && left >= 98);
    TTLSupport::remove_ttl(&mut e);
    assert!(e.expires_at.is_none());
}

#[test]
fn entry_expiry_boundaries() {
    let e = Entry::new_at(Value::String("v".to_string()), Some(2), 1_000);
    assert_eq!(e.expires_at, Some(3_000));
    assert!(!e.is_expired_at(3_000));
    assert!(e.is_expired_at(3_001));
    assert_eq!(e.remaining_ttl_at(1_500), Some(1));
    assert_eq!(e.remaining_ttl_at(5_000), Some(0));
    assert_eq!(e.access_count, 0);
    assert_eq!(e.created_at, 1_000);
}
