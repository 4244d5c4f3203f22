use kv_core::engine::KVEngine;
use kv_core::error::KVError;
use kv_core::storage::aof::AOFOperation;
use kv_core::storage::backend::PendingWrites;
use kv_core::types::{KVConfig, PersistenceMode, Value};

fn test_config(mode: PersistenceMode) -> KVConfig {
    let mut config = KVConfig::default();
    config.master_key = String::new();
    config.persistence_mode = mode;
    config.data_dir = "./unused-test-data".to_string();
    config
}

fn create_test_engine() -> KVEngine {
    KVEngine::new(test_config(PersistenceMode::Memory)).unwrap()
}

#[test]
fn test_basic_operations() {
    let mut engine = create_test_engine();
    let database_id = 0;

    let value = Value::String("test_value".to_string());
    engine.set(database_id, "test_key".to_string(), value.clone(), None).unwrap();

    let retrieved = engine.get(database_id, &"test_key".to_string()).unwrap();
    assert!(retrieved.is_some());
    assert_eq!(retrieved.unwrap().as_string().unwrap(), "test_value");

    let exists = engine.key_exists(database_id, &"test_key".to_string()).unwrap();
    assert!(exists);

    let deleted = engine.delete(database_id, &"test_key".to_string()).unwrap();
    assert!(deleted);

    let exists_after = engine.key_exists(database_id, &"test_key".to_string()).unwrap();
    assert!(!exists_after);
}

#[test]
fn test_ttl_operations() {
    let mut engine = create_test_engine();
    let database_id = 0;

    let value = Value::String("ttl_value".to_string());
    engine.set(database_id, "ttl_key".to_string(), value, Some(60)).unwrap();

    let ttl = engine.ttl(database_id, &"ttl_key".to_string()).unwrap();
    assert!(ttl.is_some());
    assert!(ttl.unwrap() <= 60);

    let set_ttl = engine.expire(database_id, &"ttl_key".to_string(), 120).unwrap();
    assert!(set_ttl);

    let new_ttl = engine.ttl(database_id, &"ttl_key".to_string()).unwrap();
    assert!(new_ttl.is_some());
    assert!(new_ttl.unwrap() <= 120);
}

#[test]
fn test_keys_operations() {
    let mut engine = create_test_engine();
    let database_id = 0;

    let value = Value::String("value".to_string());
    engine.set(database_id, "key1".to_string(), value.clone(), None).unwrap();
    engine.set(database_id, "key2".to_string(), value.clone(), None).unwrap();
    engine.set(database_id, "test_key".to_string(), value, None).unwrap();

    let keys = engine.keys(database_id).unwrap();
    assert_eq!(keys.len(), 3);
    assert!(keys.contains(&"key1".to_string()));
    assert!(keys.contains(&"key2".to_string()));
    assert!(keys.contains(&"test_key".to_string()));

    let test_keys = engine.keys_pattern(database_id, "key*").unwrap();
    assert_eq!(test_keys.len(), 2);
    assert!(test_keys.contains(&"key1".to_string()));
    assert!(test_keys.contains(&"key2".to_string()));
}

#[test]
fn test_clear_database() {
    let mut engine = create_test_engine();
    let database_id = 0;

    let value = Value::String("value".to_string());
    engine.set(database_id, "key1".to_string(), value.clone(), None).unwrap();
    engine.set(database_id, "key2".to_string(), value, None).unwrap();

    engine.clear_database(database_id).unwrap();

    let keys = engine.keys(database_id).unwrap();
    assert!(keys.is_empty());
}

#[test]
fn engine_test_stats() {
    let mut engine = create_test_engine();
    let database_id = 0;

    let value = Value::String("value".to_string());
    engine.set(database_id, "key1".to_string(), value.clone(), None).unwrap();
    engine.set(database_id, "key2".to_string(), value, None).unwrap();

    let stats = engine.get_stats().unwrap();
    assert_eq!(stats.total_keys, 2);
    assert!(stats.total_operations > 0);
    let uptime: u64 = stats.uptime;
    assert!(uptime < u64::MAX);
}

#[test]
fn engine_counts_operations_exactly() {
    let mut engine = create_test_engine();
    let value = Value::String("v".to_string());
    engine.set(0, "a".to_string(), value.clone(), None).unwrap();
    engine.get(0, &"a".to_string()).unwrap();
    engine.key_exists(0, &"a".to_string()).unwrap();
    engine.keys(0).unwrap();
    assert_eq!(engine.get_stats().unwrap().total_operations, 4);
    // expire on a present key counts its lookup and itself
    assert!(engine.expire(0, &"a".to_string(), 5).unwrap());
    assert_eq!(engine.get_stats().unwrap().total_operations, 6);
    // expire on a missing key counts the lookup only
    assert!(!engine.expire(0, &"missing".to_string(), 5).unwrap());
    assert_eq!(engine.get_stats().unwrap().total_operations, 7);
}

#[test]
fn engine_get_counts_accesses_in_the_entry() {
    let mut engine = create_test_engine();
    engine.set(0, "k".to_string(), Value::String("v".to_string()), None).unwrap();
    for _ in 0..3 {
        assert_eq!(engine.get(0, &"k".to_string()).unwrap(), Some(Value::String("v".to_string())));
    }
    let missing = engine.get(0, &"other".to_string()).unwrap();
    assert!(missing.is_none());
}

#[test]
fn engine_read_after_write_and_delete() {
    let mut engine = create_test_engine();
    engine.set(3, "k".to_string(), Value::Bytes(vec![1, 2, 3]), None).unwrap();
    assert_eq!(engine.get(3, &"k".to_string()).unwrap(), Some(Value::Bytes(vec![1, 2, 3])));
    // other databases do not see it
    assert_eq!(engine.get(4, &"k".to_string()).unwrap(), None);
    assert!(engine.delete(3, &"k".to_string()).unwrap());
    assert_eq!(engine.get(3, &"k".to_string()).unwrap(), None);
    // deleting again reports absence
    assert!(!engine.delete(3, &"k".to_string()).unwrap());
}

#[test]
fn engine_expired_key_reads_as_missing_and_is_removed() {
    let mut engine = create_test_engine();
    engine.set_at(0, "k".to_string(), Value::String("v".to_string()), Some(10), 1_000).unwrap();
    // expiry is 11_000 ms; up to it the value is there
    assert_eq!(engine.get_at(0, &"k".to_string(), 11_000).unwrap(), Some(Value::String("v".to_string())));
    assert_eq!(engine.get_at(0, &"k".to_string(), 11_001).unwrap(), None);
    assert!(!engine.key_exists(0, &"k".to_string()).unwrap());
    assert_eq!(engine.ttl_at(0, &"k".to_string(), 11_001).unwrap(), None);
}

#[test]
fn engine_ttl_counts_whole_seconds() {
    let mut engine = create_test_engine();
    engine.set_at(0, "k".to_string(), Value::String("v".to_string()), Some(60), 5_000).unwrap();
    assert_eq!(engine.ttl_at(0, &"k".to_string(), 5_000).unwrap(), Some(60));
    assert_eq!(engine.ttl_at(0, &"k".to_string(), 5_001).unwrap(), Some(59));
    assert_eq!(engine.ttl_at(0, &"k".to_string(), 65_000).unwrap(), Some(0));
    assert_eq!(engine.ttl_at(0, &"none".to_string(), 5_000).unwrap(), None);
}

#[test]
fn engine_expire_at_sets_the_entry_and_index() {
    let mut engine = create_test_engine();
    engine.set_at(0, "k".to_string(), Value::String("v".to_string()), None, 0).unwrap();
    assert_eq!(engine.ttl_at(0, &"k".to_string(), 0).unwrap(), None);
    assert!(engine.expire_at(0, &"k".to_string(), 2, 1_000).unwrap());
    assert_eq!(engine.ttl_at(0, &"k".to_string(), 1_000).unwrap(), Some(2));
    assert_eq!(engine.get_at(0, &"k".to_string(), 3_001).unwrap(), None);
}

#[test]
fn engine_sweep_removes_expired_keys_everywhere() {
    let mut engine = create_test_engine();
    engine.set_at(0, "short".to_string(), Value::String("a".to_string()), Some(1), 0).unwrap();
    engine.set_at(1, "short".to_string(), Value::String("b".to_string()), None, 0).unwrap();
    engine.set_at(0, "long".to_string(), Value::String("c".to_string()), Some(100), 0).unwrap();
    let expired = engine.remove_expired_at(1_001);
    assert_eq!(expired, vec!["short".to_string()]);
    // the TTL index is shared: the key goes from every open database
    assert!(!engine.key_exists(0, &"short".to_string()).unwrap());
    assert!(!engine.key_exists(1, &"short".to_string()).unwrap());
    assert!(engine.key_exists(0, &"long".to_string()).unwrap());
    // a key expiring exactly now stays until later
    let none = engine.remove_expired_at(100_000);
    assert!(none.is_empty());
    assert_eq!(engine.remove_expired_at(100_001), vec!["long".to_string()]);
}

#[test]
fn engine_clear_keeps_other_databases_ttls() {
    let mut engine = create_test_engine();
    engine.set_at(0, "a".to_string(), Value::String("x".to_string()), Some(50), 0).unwrap();
    engine.set_at(1, "b".to_string(), Value::String("y".to_string()), Some(50), 0).unwrap();
    engine.clear_database(0).unwrap();
    assert_eq!(engine.ttl_at(1, &"b".to_string(), 0).unwrap(), Some(50));
    assert!(engine.key_exists(1, &"b".to_string()).unwrap());
    // the cleared key's TTL is gone: setting it again without a TTL leaves none
    engine.set_at(0, "a".to_string(), Value::String("x".to_string()), None, 0).unwrap();
    assert_eq!(engine.ttl_at(0, &"a".to_string(), 0).unwrap(), None);
}

#[test]
fn engine_invalidation_events_are_published() {
    let mut engine = create_test_engine();
    let mut receiver = engine.subscribe_to_invalidations().unwrap();
    engine.set(0, "user:1".to_string(), Value::String("x".to_string()), None).unwrap();
    let msg = receiver.try_recv().unwrap();
    assert_eq!(msg.channel, "cache:invalidate:user:1");
    assert_eq!(msg.message, Value::String("invalidate:user:1".to_string()));
    // deleting a missing key publishes nothing
    assert!(!engine.delete(0, &"nope".to_string()).unwrap());
    assert!(receiver.try_recv().is_err());
    assert!(engine.delete(0, &"user:1".to_string()).unwrap());
    assert_eq!(receiver.try_recv().unwrap().channel, "cache:invalidate:user:1");
}

#[test]
fn engine_full_mode_refuses_databases_past_fifteen() {
    let mut engine = KVEngine::new(test_config(PersistenceMode::Full)).unwrap();
    let r = engine.set(16, "k".to_string(), Value::String("v".to_string()), None);
    match r {
        Err(KVError::InvalidKey(msg)) => assert_eq!(msg, "Database ID 16 out of range (0-15)"),
        other => panic!("unexpected {:?}", other),
    }
    assert!(engine.get(16, &"k".to_string()).is_err());
    engine.set(15, "k".to_string(), Value::String("v".to_string()), None).unwrap();
    assert_eq!(engine.get(15, &"k".to_string()).unwrap(), Some(Value::String("v".to_string())));
}

#[test]
fn engine_rejects_a_master_key_that_is_not_base64() {
    let mut config = test_config(PersistenceMode::Memory);
    config.master_key = "not base64!".to_string();
    match KVEngine::new(config) {
        Err(KVError::Encryption(msg)) => assert!(msg.starts_with("Invalid base64 master key: ")),
        Err(e) => panic!("unexpected error {:?}", e),
        Ok(_) => panic!("accepted an invalid key"),
    }
}

#[test]
fn engine_opens_storage_on_first_use() {
    let mut engine = create_test_engine();
    assert!(!engine.storage_open(0));
    assert!(!engine.storage_open(7));
    engine.keys(7).unwrap();
    assert!(engine.storage_open(7));
}

#[test]
fn engine_aof_mode_queues_writes_for_the_file() {
    let mut engine = KVEngine::new(test_config(PersistenceMode::AOF)).unwrap();
    engine.set(0, "k".to_string(), Value::String("v".to_string()), None).unwrap();
    engine.delete(0, &"k".to_string()).unwrap();
    match engine.take_pending(0) {
        PendingWrites::Aof(ops) => {
            assert_eq!(ops.len(), 2);
            assert!(matches!(&ops[0], AOFOperation::Store { key, .. } if key == "k"));
            assert!(matches!(&ops[1], AOFOperation::Delete { key } if key == "k"));
        },
        _ => panic!("expected append-only writes"),
    }
    assert!(matches!(engine.take_pending(0), PendingWrites::Aof(ops) if ops.is_empty()));
}

#[test]
fn engine_disk_usage_sums_the_append_only_files() {
    let mut memory = create_test_engine();
    memory.set(0, "k".to_string(), Value::String("v".to_string()), None).unwrap();
    assert_eq!(memory.get_stats().unwrap().disk_usage, 0);

    let mut aof = KVEngine::new(test_config(PersistenceMode::Hybrid)).unwrap();
    aof.set(0, "k".to_string(), Value::String("v".to_string()), None).unwrap();
    aof.set(2, "k".to_string(), Value::String("v".to_string()), None).unwrap();
    aof.keys(5).unwrap();
    aof.record_file_size(0, 100);
    aof.record_file_size(2, 20);
    // database 5 was opened but never written: its file counts as empty
    aof.record_file_size(5, 7);
    let st = aof.get_stats().unwrap();
    assert_eq!(st.disk_usage, 120);
    assert_eq!(st.total_keys, 2);
}

#[test]
fn engine_memory_usage_sums_the_tables() {
    let mut engine = create_test_engine();
    assert_eq!(engine.get_stats().unwrap().memory_usage, 0);
    engine.set(0, "k".to_string(), Value::String("v".to_string()), None).unwrap();
    let one = engine.get_stats().unwrap().memory_usage;
    assert!(one > 0);
    engine.set(3, "k".to_string(), Value::String("v".to_string()), None).unwrap();
    assert_eq!(engine.get_stats().unwrap().memory_usage, 2 * one);
}

#[test]
fn engine_sweeps_hand_each_expired_key_once() {
    let mut engine = create_test_engine();
    engine.set_at(0, "a".to_string(), Value::String("x".to_string()), Some(1), 0).unwrap();
    engine.set_at(0, "b".to_string(), Value::String("y".to_string()), Some(5), 0).unwrap();
    assert!(engine.remove_expired_at(500).is_empty());
    assert_eq!(engine.remove_expired_at(2_000), vec!["a".to_string()]);
    assert!(engine.remove_expired_at(3_000).is_empty());
    assert_eq!(engine.remove_expired_at(6_000), vec!["b".to_string()]);
    assert!(engine.remove_expired_at(7_000).is_empty());
    assert_eq!(engine.ttl_at(0, &"a".to_string(), 7_000).unwrap(), None);
    assert!(!engine.key_exists(0, &"a".to_string()).unwrap());
}
