use kv_core::encryption::{DatabaseKey, EncryptedData, KeyManager};
use kv_core::error::KVError;

#[test]
fn test_key_derivation() {
    let master_key = b"0123456789abcdef0123456789abcdef";
    let db_key1 = DatabaseKey::derive(master_key, 0).unwrap();
    let db_key2 = DatabaseKey::derive(master_key, 1).unwrap();

    assert_ne!(db_key1.key, db_key2.key);
}

#[test]
fn test_encryption_decryption() {
    let mut key_manager = KeyManager::new("").unwrap();

    let data = b"Hello, encrypted world!";
    let encrypted = key_manager.encrypt(0, data).unwrap();
    let decrypted = key_manager.decrypt(0, &encrypted).unwrap();

    assert_eq!(data, &decrypted[..]);
}

#[test]
fn test_key_rotation() {
    let mut key_manager = KeyManager::new("").unwrap();
    let old_master_key = key_manager.master_key_base64();

    let new_master_key = key_manager.rotate_master_key().unwrap();

    assert_ne!(old_master_key, new_master_key);
    assert!(key_manager.database_keys.is_empty());
}

#[test]
fn test_encrypted_data_wrapper() {
    let mut key_manager = KeyManager::new("").unwrap();
    let data = b"Test data for encryption wrapper";

    let encrypted = EncryptedData::encrypt(data, 0, &mut key_manager).unwrap();
    let decrypted = encrypted.decrypt(&mut key_manager).unwrap();

    assert_eq!(data, &decrypted[..]);
}

#[test]
fn derivation_needs_a_long_master_key() {
    match DatabaseKey::derive(b"short", 0) {
        Err(KVError::Encryption(msg)) => assert_eq!(msg, "Master key must be at least 32 bytes"),
        other => panic!("unexpected {:?}", other),
    }
}

#[test]
fn derivation_depends_on_master_and_database_only() {
    let a = DatabaseKey::derive(b"0123456789abcdef0123456789abcdef", 7).unwrap();
    let b = DatabaseKey::derive(b"0123456789abcdef0123456789abcdef", 7).unwrap();
    assert_eq!(a.key, b.key);
    assert_eq!(a.key.len(), 32);
    assert_eq!(a.database_id, 7);
}

#[test]
fn ciphertext_is_sixteen_bytes_longer_and_tamper_evident() {
    let key = DatabaseKey::derive(b"0123456789abcdef0123456789abcdef", 0).unwrap();
    let mut sealed = key.encrypt(b"payload").unwrap();
    assert_eq!(sealed.len(), b"payload".len() + 16);
    assert_eq!(key.decrypt(&sealed).unwrap(), b"payload".to_vec());
    sealed[0] ^= 1;
    match key.decrypt(&sealed) {
        Err(KVError::Encryption(msg)) => assert_eq!(msg, "Decryption failed: aead::Error"),
        other => panic!("unexpected {:?}", other),
    }
}

#[test]
fn master_key_from_base64_round_trips() {
    let km = KeyManager::new("").unwrap();
    let text = km.master_key_base64();
    let again = KeyManager::new(&text).unwrap();
    assert_eq!(again.master_key_base64(), text);
}

#[test]
fn master_key_must_be_base64() {
    match KeyManager::new("***") {
        Err(KVError::Encryption(msg)) => assert!(msg.starts_with("Invalid base64 master key: ")),
        Err(e) => panic!("unexpected {:?}", e),
        Ok(_) => panic!("accepted"),
    }
}

#[test]
fn a_short_decoded_master_key_fails_on_first_use() {
    // "AAAA" decodes to three bytes: too short to derive from.
    let mut km = KeyManager::new("AAAA").unwrap();
    assert!(km.encrypt(0, b"x").is_err());
}

#[test]
fn keys_of_different_databases_do_not_open_each_other() {
    let mut km = KeyManager::new("").unwrap();
    let sealed = km.encrypt(0, b"secret").unwrap();
    assert!(km.decrypt(1, &sealed).is_err());
}

#[test]
fn derive_with_nonce_uses_the_drawn_nonce_or_reports_its_failure() {
    let master = b"0123456789abcdef0123456789abcdef";
    let nonce = [7u8; 12];
    let k = DatabaseKey::derive_with_nonce(master, 3, Ok(nonce)).unwrap();
    assert_eq!(k.nonce, nonce);
    assert_eq!(k.database_id, 3);
    assert_eq!(k.key, DatabaseKey::derive(master, 3).unwrap().key);
    match DatabaseKey::derive_with_nonce(master, 3, Err("no entropy".to_string())) {
        Err(KVError::Encryption(m)) => assert_eq!(m, "Failed to generate random nonce: no entropy"),
        other => panic!("unexpected: {:?}", other.map(|k| k.database_id)),
    }
    match DatabaseKey::derive_with_nonce(b"short", 3, Ok(nonce)) {
        Err(KVError::Encryption(m)) => assert_eq!(m, "Master key must be at least 32 bytes"),
        other => panic!("unexpected: {:?}", other.map(|k| k.database_id)),
    }
}
