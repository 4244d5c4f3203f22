use kv_core::error::KVError;
use kv_core::storage::aof::{AOFOperation, AOFStorage, decode_lines, frame_lines};
use kv_core::storage::backend::{StorageBackend, StorageFactory};
use kv_core::storage::disk::DiskStorage;
use kv_core::storage::memory::{MemoryStorage, filter_keys};
use kv_core::pattern::matches_pattern;
use kv_core::types::{Entry, PersistenceMode, Value};

fn string_entry(text: &str) -> Entry {
    Entry::new(Value::String(text.to_string()), None)
}

#[test]
fn test_memory_storage_basic_operations() {
    let mut storage = MemoryStorage::new();
    let database_id = 0;

    let entry = string_entry("test_value");
    storage.set(database_id, "test_key".to_string(), entry.clone()).unwrap();

    let retrieved = storage.get(database_id, &"test_key".to_string()).unwrap();
    assert!(retrieved.is_some());
    assert_eq!(retrieved.unwrap().value.as_string().unwrap(), "test_value");

    let exists = storage.key_exists(database_id, &"test_key".to_string()).unwrap();
    assert!(exists);

    let deleted = storage.delete(database_id, &"test_key".to_string()).unwrap();
    assert!(deleted);

    let exists_after = storage.key_exists(database_id, &"test_key".to_string()).unwrap();
    assert!(!exists_after);
}

#[test]
fn test_memory_storage_keys() {
    let mut storage = MemoryStorage::new();
    let database_id = 0;

    let entry = string_entry("value");
    storage.set(database_id, "key1".to_string(), entry.clone()).unwrap();
    storage.set(database_id, "key2".to_string(), entry.clone()).unwrap();
    storage.set(database_id, "test_key".to_string(), entry.clone()).unwrap();

    let keys = storage.keys(database_id).unwrap();
    assert_eq!(keys.len(), 3);
    assert!(keys.contains(&"key1".to_string()));
    assert!(keys.contains(&"key2".to_string()));
    assert!(keys.contains(&"test_key".to_string()));

    let test_keys = storage.keys_pattern(database_id, "key*").unwrap();
    assert_eq!(test_keys.len(), 2);
    assert!(test_keys.contains(&"key1".to_string()));
    assert!(test_keys.contains(&"key2".to_string()));
}

#[test]
fn test_memory_storage_clear() {
    let mut storage = MemoryStorage::new();
    let database_id = 0;

    let entry = string_entry("value");
    storage.set(database_id, "key1".to_string(), entry.clone()).unwrap();
    storage.set(database_id, "key2".to_string(), entry.clone()).unwrap();

    storage.clear_database(database_id).unwrap();

    let keys = storage.keys(database_id).unwrap();
    assert!(keys.is_empty());
}

#[test]
fn test_memory_storage_stats() {
    let mut storage = MemoryStorage::new();
    let database_id = 0;

    let entry = string_entry("value");
    storage.set(database_id, "key1".to_string(), entry.clone()).unwrap();
    storage.set(database_id, "key2".to_string(), entry.clone()).unwrap();

    let stats = storage.get_stats(database_id).unwrap();
    assert_eq!(stats.total_keys, 2);
    assert!(stats.memory_usage > 0);
    assert!(stats.disk_usage.is_none());
}

#[test]
fn memory_storage_keys_in_first_write_order() {
    let mut storage = MemoryStorage::new();
    storage.set(2, "b".to_string(), string_entry("1")).unwrap();
    storage.set(2, "a".to_string(), string_entry("2")).unwrap();
    storage.set(2, "b".to_string(), string_entry("3")).unwrap();
    assert_eq!(storage.keys(2).unwrap(), vec!["b".to_string(), "a".to_string()]);
    assert_eq!(storage.get(2, &"b".to_string()).unwrap().unwrap().value, Value::String("3".to_string()));
    assert!(!storage.has_database(3));
    assert!(storage.has_database(2));
}

#[test]
fn memory_storage_pattern_forms() {
    let keys = vec!["user:1".to_string(), "user:2:name".to_string(), "session".to_string(), "name".to_string()];
    assert_eq!(filter_keys(keys.clone(), "*"), keys.clone());
    assert_eq!(filter_keys(keys.clone(), "session"), vec!["session".to_string()]);
    assert_eq!(filter_keys(keys.clone(), "user:*"), vec!["user:1".to_string(), "user:2:name".to_string()]);
    assert_eq!(filter_keys(keys.clone(), "*name"), vec!["user:2:name".to_string(), "name".to_string()]);
    assert_eq!(filter_keys(keys.clone(), "user:*:name"), vec!["user:2:name".to_string()]);
    // more than one star: each literal part in order
    assert_eq!(filter_keys(keys.clone(), "*ser*"), vec!["user:1".to_string(), "user:2:name".to_string()]);
    assert_eq!(filter_keys(keys.clone(), "u*:*e"), vec!["user:2:name".to_string()]);
}

#[test]
fn key_patterns_are_globs() {
    assert!(matches_pattern("key1", "key*"));
    assert!(!matches_pattern("test_key", "key*"));
    // the parts around one star do not overlap
    assert!(!matches_pattern("ab", "ab*b"));
    assert!(matches_pattern("abb", "ab*b"));
    // several stars: every literal part, in order
    assert!(matches_pattern("axbyc", "a*b*c"));
    assert!(!matches_pattern("axx", "a*b*c"));
    assert!(matches_pattern("xfooy", "*foo*"));
    assert!(!matches_pattern("xfoy", "*foo*"));
    assert!(matches_pattern("", "*"));
    assert!(matches_pattern("", "**"));
    assert!(!matches_pattern("", "a*"));
}

#[test]
fn test_aof_storage_basic_operations() {
    let mut storage = AOFStorage::new("test.aof");
    let database_id = 0;

    let entry = string_entry("test_value");
    storage.set(database_id, "test_key".to_string(), entry.clone()).unwrap();

    let retrieved = storage.get(database_id, &"test_key".to_string()).unwrap();
    assert!(retrieved.is_some());
    assert_eq!(retrieved.unwrap().value.as_string().unwrap(), "test_value");

    let exists = storage.key_exists(database_id, &"test_key".to_string()).unwrap();
    assert!(exists);

    let deleted = storage.delete(database_id, &"test_key".to_string()).unwrap();
    assert!(deleted);

    let exists_after = storage.key_exists(database_id, &"test_key".to_string()).unwrap();
    assert!(!exists_after);
}

#[test]
fn test_aof_storage_persistence() {
    // What the first storage queues for its file is what the second one
    // replays when it is opened.
    let logged = {
        let mut storage = AOFStorage::new("persistent.aof");
        let entry = string_entry("persistent_value");
        storage.set(0, "persistent_key".to_string(), entry).unwrap();
        storage.take_pending()
    };
    {
        let mut storage = AOFStorage::new("persistent.aof");
        storage.replay(0, logged.into_iter().map(Some).collect());
        let retrieved = storage.get(0, &"persistent_key".to_string()).unwrap();
        assert!(retrieved.is_some());
        assert_eq!(retrieved.unwrap().value.as_string().unwrap(), "persistent_value");
    }
}

#[test]
fn test_aof_storage_stats() {
    let mut storage = AOFStorage::new("stats.aof");

    let entry = string_entry("value");
    storage.set(0, "key1".to_string(), entry.clone()).unwrap();
    storage.set(0, "key2".to_string(), entry).unwrap();

    // The writes go to the file, whose size is then recorded.
    let written = storage.take_pending();
    assert_eq!(written.len(), 2);
    storage.set_file_size(180);

    let stats = storage.get_stats(0).unwrap();
    assert_eq!(stats.total_keys, 2);
    assert!(stats.memory_usage > 0);
    assert!(stats.disk_usage.is_some());
    assert!(stats.disk_usage.unwrap() > 0);
}

#[test]
fn aof_replay_applies_operations_in_order() {
    let mut storage = AOFStorage::new("replay.aof");
    let ops = vec![
        Some(AOFOperation::Store { key: "a".to_string(), entry: string_entry("1") }),
        Some(AOFOperation::Store { key: "b".to_string(), entry: string_entry("2") }),
        None,
        Some(AOFOperation::Delete { key: "a".to_string() }),
        Some(AOFOperation::Store { key: "c".to_string(), entry: string_entry("3") }),
    ];
    storage.replay(0, ops);
    assert_eq!(storage.keys(0).unwrap(), vec!["b".to_string(), "c".to_string()]);
    storage.replay(0, vec![Some(AOFOperation::Clear)]);
    assert!(storage.keys(0).unwrap().is_empty());
    // nothing replayed is queued again
    assert!(storage.take_pending().is_empty());
}

#[test]
fn aof_round_trip_keeps_the_database() {
    let logged = {
        let mut storage = AOFStorage::new("db_5.aof");
        storage.set(5, "k".to_string(), string_entry("v")).unwrap();
        storage.take_pending()
    };
    let mut reopened = AOFStorage::new("db_5.aof");
    reopened.replay(5, logged.into_iter().map(Some).collect());
    assert_eq!(reopened.get(5, &"k".to_string()).unwrap().unwrap().value, Value::String("v".to_string()));
    assert!(reopened.get(0, &"k".to_string()).unwrap().is_none());
}

#[test]
fn aof_delete_of_missing_key_is_not_logged() {
    let mut storage = AOFStorage::new("x.aof");
    assert!(!storage.delete(0, &"nope".to_string()).unwrap());
    assert!(storage.take_pending().is_empty());
    storage.clear_database(0).unwrap();
    let ops = storage.take_pending();
    assert_eq!(ops.len(), 1);
    assert!(matches!(ops[0], AOFOperation::Clear));
}

#[test]
fn aof_lines_are_split_as_buffered_reading_does() {
    let lines = frame_lines(b"one\ntwo\r\n\nthree");
    assert_eq!(lines, vec![b"one".to_vec(), b"two".to_vec(), b"".to_vec(), b"three".to_vec()]);
    assert!(frame_lines(b"").is_empty());
    assert_eq!(frame_lines(b"a\n"), vec![b"a".to_vec()]);
    let text = decode_lines(b"x\ny").unwrap();
    assert_eq!(text, vec!["x".to_string(), "y".to_string()]);
    match decode_lines(b"ok\n\xff\xfe") {
        Err(KVError::Storage(msg)) => assert_eq!(msg, "Failed to read AOF line: stream did not contain valid UTF-8"),
        other => panic!("unexpected {:?}", other),
    }
}

#[test]
fn test_disk_storage_basic_operations() {
    let mut storage = DiskStorage::new("disk-test");
    let database_id = 0;

    let entry = string_entry("test_value");
    storage.set(database_id, "test_key".to_string(), entry.clone()).unwrap();

    let retrieved = storage.get(database_id, &"test_key".to_string()).unwrap();
    assert!(retrieved.is_some());
    assert_eq!(retrieved.unwrap().value.as_string().unwrap(), "test_value");

    let exists = storage.key_exists(database_id, &"test_key".to_string()).unwrap();
    assert!(exists);

    let deleted = storage.delete(database_id, &"test_key".to_string()).unwrap();
    assert!(deleted);

    let exists_after = storage.key_exists(database_id, &"test_key".to_string()).unwrap();
    assert!(!exists_after);
}

#[test]
fn test_disk_storage_persistence() {
    // What the first storage hands to the store is what the second one
    // loads when it is opened.
    let written = {
        let mut storage = DiskStorage::new("disk-persist");
        let entry = string_entry("persistent_value");
        storage.set(0, "persistent_key".to_string(), entry).unwrap();
        storage.take_pending()
    };
    {
        let mut storage = DiskStorage::new("disk-persist");
        let mut entries = Vec::new();
        for (db, op) in written {
            assert_eq!(db, 0);
            if let AOFOperation::Store { key, entry } = op {
                entries.push((key, entry));
            }
        }
        storage.load(0, entries).unwrap();
        let retrieved = storage.get(0, &"persistent_key".to_string()).unwrap();
        assert!(retrieved.is_some());
        assert_eq!(retrieved.unwrap().value.as_string().unwrap(), "persistent_value");
    }
}

#[test]
fn test_disk_storage_multiple_databases() {
    let mut storage = DiskStorage::new("disk-multi");

    let entry1 = string_entry("db0_value");
    let entry2 = string_entry("db1_value");

    storage.set(0, "key".to_string(), entry1).unwrap();
    storage.set(1, "key".to_string(), entry2).unwrap();

    let db0_value = storage.get(0, &"key".to_string()).unwrap().unwrap();
    let db1_value = storage.get(1, &"key".to_string()).unwrap().unwrap();

    assert_eq!(db0_value.value.as_string().unwrap(), "db0_value");
    assert_eq!(db1_value.value.as_string().unwrap(), "db1_value");
}

#[test]
fn disk_storage_refuses_databases_past_fifteen() {
    let mut storage = DiskStorage::new("disk-range");
    match storage.set(16, "k".to_string(), string_entry("v")) {
        Err(KVError::InvalidKey(msg)) => assert_eq!(msg, "Database ID 16 out of range (0-15)"),
        other => panic!("unexpected {:?}", other),
    }
    assert!(storage.get(200, &"k".to_string()).is_err());
    let stats = storage.get_stats(0).unwrap();
    assert_eq!(stats.total_keys, 0);
    assert_eq!(stats.disk_usage, Some(0));
}

#[test]
fn factory_paths_and_kinds() {
    assert_eq!(StorageFactory::aof_path("/data", 3), "/data/db_3.aof");
    assert_eq!(StorageFactory::disk_path("/data", 12), "/data/db_12");
    assert!(matches!(StorageFactory::create(PersistenceMode::Memory, "/d", 0).unwrap(), StorageBackend::Memory(_)));
    assert!(matches!(StorageFactory::create(PersistenceMode::Hybrid, "/d", 0).unwrap(), StorageBackend::Aof(_)));
    assert!(matches!(StorageFactory::create(PersistenceMode::AOF, "/d", 0).unwrap(), StorageBackend::Aof(_)));
    match StorageFactory::create(PersistenceMode::Full, "/d", 5).unwrap() {
        StorageBackend::Disk(d) => assert_eq!(d.path_text(), "/d/db_5"),
        _ => panic!("expected disk storage"),
    }
}

#[test]
fn disk_storage_lists_keys_in_byte_order() {
    let mut storage = DiskStorage::new("disk-order");
    for k in ["b", "é", "ab", "a", "z", "abc"] {
        storage.set(3, k.to_string(), string_entry("v")).unwrap();
    }
    let expected: Vec<String> = vec!["a", "ab", "abc", "b", "z", "é"].into_iter().map(String::from).collect();
    assert_eq!(storage.keys(3).unwrap(), expected);
    let mut by_bytes = expected.clone();
    by_bytes.sort_by(|x, y| x.as_bytes().cmp(y.as_bytes()));
    assert_eq!(by_bytes, expected);
    assert_eq!(storage.keys_pattern(3, "a*").unwrap(), vec!["a".to_string(), "ab".to_string(), "abc".to_string()]);
}

#[test]
fn disk_storage_load_keeps_the_last_entry_of_a_key() {
    let mut storage = DiskStorage::new("disk-load");
    let entries = vec![
        ("k".to_string(), string_entry("1")),
        ("j".to_string(), string_entry("2")),
        ("k".to_string(), string_entry("3")),
    ];
    storage.load(2, entries).unwrap();
    assert_eq!(storage.get(2, &"k".to_string()).unwrap().unwrap().value, Value::String("3".to_string()));
    assert!(storage.take_pending().is_empty());
    assert!(storage.load(16, Vec::new()).is_err());
}

#[test]
fn memory_storage_default_is_empty() {
    let storage = MemoryStorage::default();
    assert!(storage.keys(0).unwrap().is_empty());
}
