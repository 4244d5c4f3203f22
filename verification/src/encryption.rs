//! Encryption layer: AES-256-GCM for data at rest, with a key per database
//! derived from the master key by HKDF-SHA256.

use vstd::prelude::*;
use std::collections::HashMap;
use vstd::utf8::encode_utf8;
use crate::error::{KVError, KVResult, join_text};
use crate::text::{decimal, decimal_text};
use crate::types::DatabaseId;
use aes_gcm::aead::{Aead, KeyInit};
use base64::Engine;

verus! {

broadcast use vstd::std_specs::hash::group_hash_axioms;

/// The longest plaintext that AES-GCM encrypts, in bytes.
pub const MAX_PLAINTEXT: u64 = 0x10_0000_0000;

/// The length of a master key generated here, and of a database key.
pub const KEY_LEN: usize = 32;

/// The bytes held by an optional vector.
pub open spec fn bytes_of(r: Option<Vec<u8>>) -> Option<Seq<u8>> {
    match r {
        Some(v) => Some(v@),
        None => None,
    }
}

/// The HKDF-SHA256 output of 32 bytes for key material `ikm` and context
/// `info` (no salt).
pub uninterp spec fn hkdf_sha256_32(ikm: Seq<u8>, info: Seq<u8>) -> Seq<u8>;

/// The AES-256-GCM ciphertext (with its tag) of `plaintext` under `key`
/// and `nonce`, without associated data.
pub uninterp spec fn aes256gcm_seal(key: Seq<u8>, nonce: Seq<u8>, plaintext: Seq<u8>) -> Seq<u8>;

/// The plaintext that AES-256-GCM recovers from `ciphertext` under `key`
/// and `nonce` (`None` when the tag does not verify).
pub uninterp spec fn aes256gcm_open(key: Seq<u8>, nonce: Seq<u8>, ciphertext: Seq<u8>) -> Option<Seq<u8>>;

/// The bytes that standard (padded) base64 text `text` encodes, if it is
/// valid base64.
pub uninterp spec fn base64_decoded(text: Seq<char>) -> Option<Seq<u8>>;

/// The standard (padded) base64 encoding of `bytes`.
pub uninterp spec fn base64_encoded(bytes: Seq<u8>) -> Seq<char>;

/// `Hkdf::<Sha256>::new(None, ikm)` followed by `expand(info, &mut okm)`
/// into 32 bytes. `expand` fails only for outputs longer than 255 hash
/// lengths (8160 bytes), so it succeeds here; the output is named
/// `hkdf_sha256_32`.
#[verifier::external_body]
fn hkdf_expand_32(ikm: &[u8], info: &[u8]) -> (okm: Vec<u8>)
    ensures
        okm@ == hkdf_sha256_32(ikm@, info@),
        okm@.len() == 32,
{
    let hk = hkdf::Hkdf::<sha2::Sha256>::new(None, ikm);
    let mut out = [0u8; 32];
    let _ = hk.expand(info, &mut out);
    out.to_vec()
}

/// `getrandom::getrandom` into a buffer of `len` bytes. The bytes, and
/// whether the system's source answers, are left open; on success the
/// buffer has `len` bytes. The error is given as its display text.
#[verifier::external_body]
fn random_bytes(len: usize) -> (r: Result<Vec<u8>, String>)
    ensures
        r matches Ok(v) ==> v@.len() == len,
{
    let mut buf = vec![0u8; len];
    match getrandom::getrandom(&mut buf) {
        Ok(()) => Ok(buf),
        Err(e) => Err(e.to_string()),
    }
}

/// `getrandom::getrandom` into a 12-byte nonce; as for `random_bytes`.
#[verifier::external_body]
fn random_nonce() -> (r: Result<[u8; 12], String>) {
    let mut nonce = [0u8; 12];
    match getrandom::getrandom(&mut nonce) {
        Ok(()) => Ok(nonce),
        Err(e) => Err(e.to_string()),
    }
}

/// `Aes256Gcm::new(key).encrypt(nonce, plaintext)`: fails exactly when the
/// plaintext is longer than `MAX_PLAINTEXT` (the crate's `P_MAX`);
/// otherwise gives the ciphertext with its 16-byte tag, named
/// `aes256gcm_seal`. `Key::from_slice` needs a 32-byte key.
#[verifier::external_body]
fn aes_encrypt(key: &[u8], nonce: &[u8; 12], plaintext: &[u8]) -> (r: Option<Vec<u8>>)
    requires
        key@.len() == 32,
    ensures
        r is Some <==> plaintext@.len() <= MAX_PLAINTEXT,
        r matches Some(c) ==> c@ == aes256gcm_seal(key@, nonce@, plaintext@) && c@.len() == plaintext@.len() + 16,
{
    let cipher = aes_gcm::Aes256Gcm::new(aes_gcm::Key::<aes_gcm::Aes256Gcm>::from_slice(key));
    cipher.encrypt(aes_gcm::Nonce::from_slice(nonce), plaintext).ok()
}

/// `Aes256Gcm::new(key).decrypt(nonce, ciphertext)`: the plaintext when the
/// tag verifies, named `aes256gcm_open`. As an authenticated cipher it
/// gives back the plaintext of every ciphertext that `encrypt` made with the
/// same key and nonce.
#[verifier::external_body]
fn aes_decrypt(key: &[u8], nonce: &[u8; 12], ciphertext: &[u8]) -> (r: Option<Vec<u8>>)
    requires
        key@.len() == 32,
    ensures
        bytes_of(r) == aes256gcm_open(key@, nonce@, ciphertext@),
        forall|p: Seq<u8>|
            p.len() <= MAX_PLAINTEXT && ciphertext@ == #[trigger] aes256gcm_seal(key@, nonce@, p) ==> bytes_of(r) == Some(p),
{
    let cipher = aes_gcm::Aes256Gcm::new(aes_gcm::Key::<aes_gcm::Aes256Gcm>::from_slice(key));
    cipher.decrypt(aes_gcm::Nonce::from_slice(nonce), ciphertext).ok()
}

/// `general_purpose::STANDARD.decode(text)`: the bytes that `text` encodes,
/// named `base64_decoded`; the error is given as its display text.
#[verifier::external_body]
fn base64_decode(text: &str) -> (r: Result<Vec<u8>, String>)
    ensures
        bytes_of(r.ok()) == base64_decoded(text@),
{
    base64::engine::general_purpose::STANDARD.decode(text).map_err(|e| e.to_string())
}

/// `general_purpose::STANDARD.encode(bytes)`, named `base64_encoded`;
/// decoding the result gives `bytes` back.
#[verifier::external_body]
fn base64_encode(bytes: &[u8]) -> (r: String)
    ensures
        r@ == base64_encoded(bytes@),
        base64_decoded(r@) == Some(bytes@),
{
    base64::engine::general_purpose::STANDARD.encode(bytes)
}

/// The HKDF context of database `db`: the bytes of `kv-database-` and its
/// number.
pub open spec fn key_info(db: DatabaseId) -> Seq<u8> {
    encode_utf8("kv-database-"@ + decimal(db as nat))
}

/// The key of database `db` under `master`.
pub open spec fn database_key_bytes(master: Seq<u8>, db: DatabaseId) -> Seq<u8> {
    hkdf_sha256_32(master, key_info(db))
}

/// `e` is an encryption error with message `msg`.
pub open spec fn is_encryption_error(e: KVError, msg: Seq<char>) -> bool {
    e matches KVError::Encryption(m) && m@ == msg
}

/// `Encryption` error with message `prefix` followed by `detail`.
fn encryption_error(prefix: &str, detail: &str) -> (e: KVError)
    ensures
        is_encryption_error(e, prefix@ + detail@),
{
    KVError::Encryption(join_text(prefix, detail))
}

/// `r` is what encrypting `data` with `key` and `nonce` gives: the sealed
/// text, or an error for data longer than `MAX_PLAINTEXT`.
pub open spec fn sealed(key: Seq<u8>, nonce: Seq<u8>, data: Seq<u8>, r: KVResult<Vec<u8>>) -> bool {
    match r {
        Ok(c) => data.len() <= MAX_PLAINTEXT && c@ == aes256gcm_seal(key, nonce, data),
        Err(e) => data.len() > MAX_PLAINTEXT && is_encryption_error(e, "Encryption failed: aead::Error"@),
    }
}

/// `r` is what decrypting `c` with `key` and `nonce` gives: the opened
/// text, or an error when the tag does not verify; text sealed with the
/// same key and nonce opens to what was sealed.
pub open spec fn opened(key: Seq<u8>, nonce: Seq<u8>, c: Seq<u8>, r: KVResult<Vec<u8>>) -> bool {
    &&& match r {
        Ok(p) => aes256gcm_open(key, nonce, c) == Some(p@),
        Err(e) => aes256gcm_open(key, nonce, c) is None && is_encryption_error(e, "Decryption failed: aead::Error"@),
    }
    &&& forall|p: Seq<u8>| p.len() <= MAX_PLAINTEXT && c == #[trigger] aes256gcm_seal(key, nonce, p) ==> bytes_of(r.ok()) == Some(p)
}

/// `e` reports that the random source gave no nonce.
pub open spec fn is_nonce_error(e: KVError) -> bool {
    e matches KVError::Encryption(m) && "Failed to generate random nonce: "@.is_prefix_of(m@)
}

/// `e` is the error of deriving a key from `master`: the short-key error
/// for a master key under 32 bytes, else the nonce error.
pub open spec fn key_refused(master: Seq<u8>, e: KVError) -> bool {
    if master.len() < 32 {
        is_encryption_error(e, "Master key must be at least 32 bytes"@)
    } else {
        is_nonce_error(e)
    }
}

/// Encryption key for a specific database.
#[derive(Debug)]
pub struct DatabaseKey {
    pub database_id: DatabaseId,
    pub key: Vec<u8>,
    pub nonce: [u8; 12],
}

impl DatabaseKey {
    /// Derives the key of database `database_id` from `master_key`, with a
    /// fresh random nonce. Fails for a master key shorter than 32 bytes,
    /// or when the random source fails.
    pub fn derive(master_key: &[u8], database_id: DatabaseId) -> (r: KVResult<Self>)
        ensures
            master_key@.len() < 32 ==> (r matches Err(e) && is_encryption_error(e, "Master key must be at least 32 bytes"@)),
            r matches Ok(k) ==> master_key@.len() >= 32 && k.database_id == database_id
                && k.key@ == database_key_bytes(master_key@, database_id) && k.key@.len() == 32,
            r matches Err(e) ==> key_refused(master_key@, e),
    {
        if master_key.len() < 32 {
            return Err(KVError::Encryption("Master key must be at least 32 bytes".to_owned()));
        }
        let nonce = random_nonce();
        Self::derive_with_nonce(master_key, database_id, nonce)
    }

    /// Derives the key of database `database_id` from `master_key` with the
    /// nonce that the random source gave (`nonce`), or fails with its error.
    pub fn derive_with_nonce(master_key: &[u8], database_id: DatabaseId, nonce: Result<[u8; 12], String>) -> (r: KVResult<Self>)
        ensures
            master_key@.len() < 32 ==> (r matches Err(e) && is_encryption_error(e, "Master key must be at least 32 bytes"@)),
            master_key@.len() >= 32 ==> match nonce {
                Ok(n) => r matches Ok(k) && k.database_id == database_id
                    && k.key@ == database_key_bytes(master_key@, database_id) && k.key@.len() == 32 && k.nonce == n,
                Err(d) => r matches Err(e) && is_encryption_error(e, "Failed to generate random nonce: "@ + d@),
            },
            r matches Err(e) ==> key_refused(master_key@, e),
    {
        if master_key.len() < 32 {
            return Err(KVError::Encryption("Master key must be at least 32 bytes".to_owned()));
        }
        let info = join_text("kv-database-", decimal_text(database_id as u64).as_str());
        let key = hkdf_expand_32(master_key, info.as_str().as_bytes());
        match nonce {
            Ok(n) => Ok(DatabaseKey { database_id, key, nonce: n }),
            Err(d) => {
                let e = encryption_error("Failed to generate random nonce: ", d.as_str());
                proof {
                    let m = "Failed to generate random nonce: "@ + d@;
                    assert(m.subrange(0, "Failed to generate random nonce: "@.len() as int) =~= "Failed to generate random nonce: "@);
                }
                Err(e)
            },
        }
    }

    /// Encrypts `data` with this key and nonce; fails for data longer than
    /// `MAX_PLAINTEXT`.
    pub fn encrypt(&self, data: &[u8]) -> (r: KVResult<Vec<u8>>)
        requires
            self.key@.len() == 32,
        ensures
            sealed(self.key@, self.nonce@, data@, r),
    {
        match aes_encrypt(self.key.as_slice(), &self.nonce, data) {
            Some(c) => Ok(c),
            None => Err(KVError::Encryption("Encryption failed: aead::Error".to_owned())),
        }
    }

    /// Decrypts `encrypted_data` with this key and nonce; fails when its tag
    /// does not verify.
    pub fn decrypt(&self, encrypted_data: &[u8]) -> (r: KVResult<Vec<u8>>)
        requires
            self.key@.len() == 32,
        ensures
            opened(self.key@, self.nonce@, encrypted_data@, r),
    {
        match aes_decrypt(self.key.as_slice(), &self.nonce, encrypted_data) {
            Some(p) => Ok(p),
            None => Err(KVError::Encryption("Decryption failed: aead::Error".to_owned())),
        }
    }
}

/// Key manager: the master key and the keys derived from it so far.
pub struct KeyManager {
    master_key: Vec<u8>,
    pub database_keys: HashMap<DatabaseId, DatabaseKey>,
}

impl KeyManager {
    /// The master key.
    pub closed spec fn master(&self) -> Seq<u8> {
        self.master_key@
    }

    /// The keys derived so far, by database.
    pub closed spec fn derived(&self) -> Map<DatabaseId, DatabaseKey> {
        self.database_keys@
    }

    /// Every derived key belongs to its database and comes from the
    /// current master key.
    pub closed spec fn wf(&self) -> bool {
        forall|db: DatabaseId| #[trigger] self.derived().contains_key(db) ==> {
            let k = self.derived()[db];
            &&& k.database_id == db
            &&& k.key@ == database_key_bytes(self.master(), db)
            &&& k.key@.len() == 32
        }
    }

    /// A key manager for the base64 master key `master_key`, or for a fresh
    /// random 32-byte key when it is empty. Fails for text that is not
    /// base64, or when the random source fails.
    pub fn new(master_key: &str) -> (r: KVResult<Self>)
        ensures
            r matches Ok(km) ==> km.wf() && km.derived() == Map::<DatabaseId, DatabaseKey>::empty()
                && (master_key@.len() == 0 ==> km.master().len() == 32)
                && (master_key@.len() > 0 ==> base64_decoded(master_key@) == Some(km.master())),
            r matches Err(e) ==> e is Encryption,
            master_key@.len() > 0 ==> (r is Ok <==> base64_decoded(master_key@) is Some),
    {
        let master = if master_key.is_empty() {
            match random_bytes(KEY_LEN) {
                Ok(k) => k,
                Err(e) => return Err(encryption_error("Failed to generate random key: ", e.as_str())),
            }
        } else {
            match base64_decode(master_key) {
                Ok(k) => k,
                Err(e) => return Err(encryption_error("Invalid base64 master key: ", e.as_str())),
            }
        };
        Ok(KeyManager { master_key: master, database_keys: HashMap::new() })
    }

    /// The key of database `database_id`, derived now if it was not yet.
    pub fn get_database_key(&mut self, database_id: DatabaseId) -> (r: KVResult<&DatabaseKey>)
        requires
            old(self).wf(),
        ensures
            final(self).wf(),
            final(self).master() == old(self).master(),
            old(self).derived().contains_key(database_id) ==> final(self).derived() == old(self).derived(),
            !old(self).derived().contains_key(database_id) ==> final(self).derived().remove(database_id)
                == old(self).derived(),
            r matches Ok(k) ==> final(self).derived().contains_key(database_id)
                && *k == final(self).derived()[database_id],
            old(self).master().len() < 32 && !old(self).derived().contains_key(database_id) ==> (r matches Err(e)
                && is_encryption_error(e, "Master key must be at least 32 bytes"@)),
            old(self).derived().contains_key(database_id) ==> r is Ok,
            r is Err ==> final(self).derived() == old(self).derived(),
            r matches Err(e) ==> !old(self).derived().contains_key(database_id) && key_refused(old(self).master(), e),
    {
        if !self.database_keys.contains_key(&database_id) {
            let db_key = match DatabaseKey::derive(self.master_key.as_slice(), database_id) {
                Ok(k) => k,
                Err(e) => return Err(e),
            };
            let ghost inserted = db_key;
            assert(inserted.key@ == database_key_bytes(self.master_key@, database_id));
            self.database_keys.insert(database_id, db_key);
            assert(self.database_keys@ == old(self).database_keys@.insert(database_id, inserted));
            assert(self.database_keys@.remove(database_id) =~= old(self).database_keys@);
            assert forall|db: DatabaseId| #[trigger] self.derived().contains_key(db) implies ({
                let k = self.derived()[db];
                &&& k.database_id == db
                &&& k.key@ == database_key_bytes(self.master_key@, db)
                &&& k.key@.len() == 32
            }) by {
                if db != database_id {
                    assert(old(self).derived().contains_key(db));
                } else {
                    assert(self.database_keys@[db] == inserted);
                }
            }
        }
        match self.database_keys.get(&database_id) {
            Some(k) => Ok(k),
            None => Err(KVError::Encryption("Failed to get database key".to_owned())),
        }
    }

    /// The master key in base64.
    pub fn master_key_base64(&self) -> (s: String)
        ensures
            s@ == base64_encoded(self.master()),
            base64_decoded(s@) == Some(self.master()),
    {
        base64_encode(self.master_key.as_slice())
    }

    /// Replaces the master key by a fresh random 32-byte key and forgets
    /// every derived key; gives back the new key in base64.
    pub fn rotate_master_key(&mut self) -> (r: KVResult<String>)
        requires
            old(self).wf(),
        ensures
            final(self).wf(),
            match r {
                Ok(s) => final(self).master().len() == 32 && final(self).derived() == Map::<DatabaseId, DatabaseKey>::empty()
                    && s@ == base64_encoded(final(self).master()),
                Err(e) => e is Encryption && final(self).master() == old(self).master()
                    && final(self).derived() == old(self).derived(),
            },
    {
        let new_key = match random_bytes(KEY_LEN) {
            Ok(k) => k,
            Err(e) => return Err(encryption_error("Failed to generate random key: ", e.as_str())),
        };
        self.master_key = new_key;
        self.database_keys.clear();
        Ok(self.master_key_base64())
    }

    /// Encrypts `data` with the key of database `database_id`.
    pub fn encrypt(&mut self, database_id: DatabaseId, data: &[u8]) -> (r: KVResult<Vec<u8>>)
        requires
            old(self).wf(),
        ensures
            final(self).wf(),
            final(self).master() == old(self).master(),
            old(self).derived().contains_key(database_id) ==> final(self).derived() == old(self).derived(),
            !old(self).derived().contains_key(database_id) ==> final(self).derived().remove(database_id)
                == old(self).derived(),
            r is Ok ==> final(self).derived().contains_key(database_id),
            final(self).derived().contains_key(database_id) ==> sealed(
                final(self).derived()[database_id].key@,
                final(self).derived()[database_id].nonce@,
                data@,
                r,
            ),
            !final(self).derived().contains_key(database_id) ==> (r matches Err(e) && key_refused(old(self).master(), e)),
            old(self).master().len() < 32 && !old(self).derived().contains_key(database_id) ==> (r matches Err(e)
                && is_encryption_error(e, "Master key must be at least 32 bytes"@)),
            r matches Err(e) ==> e is Encryption,
    {
        let db_key = match self.get_database_key(database_id) {
            Ok(k) => k,
            Err(e) => return Err(e),
        };
        db_key.encrypt(data)
    }

    /// Decrypts `encrypted_data` with the key of database `database_id`.
    pub fn decrypt(&mut self, database_id: DatabaseId, encrypted_data: &[u8]) -> (r: KVResult<Vec<u8>>)
        requires
            old(self).wf(),
        ensures
            final(self).wf(),
            final(self).master() == old(self).master(),
            old(self).derived().contains_key(database_id) ==> final(self).derived() == old(self).derived(),
            !old(self).derived().contains_key(database_id) ==> final(self).derived().remove(database_id)
                == old(self).derived(),
            r is Ok ==> final(self).derived().contains_key(database_id),
            final(self).derived().contains_key(database_id) ==> opened(
                final(self).derived()[database_id].key@,
                final(self).derived()[database_id].nonce@,
                encrypted_data@,
                r,
            ),
            !final(self).derived().contains_key(database_id) ==> (r matches Err(e) && key_refused(old(self).master(), e)),
    {
        let db_key = match self.get_database_key(database_id) {
            Ok(k) => k,
            Err(e) => return Err(e),
        };
        db_key.decrypt(encrypted_data)
    }
}

/// Encrypted data of a database.
#[derive(Debug)]
pub struct EncryptedData {
    pub database_id: DatabaseId,
    pub encrypted_data: Vec<u8>,
    pub nonce: [u8; 12],
}

impl EncryptedData {
    /// Encrypts `data` with the key of database `database_id`.
    pub fn encrypt(data: &[u8], database_id: DatabaseId, key_manager: &mut KeyManager) -> (r: KVResult<Self>)
        requires
            old(key_manager).wf(),
        ensures
            final(key_manager).wf(),
            final(key_manager).master() == old(key_manager).master(),
            old(key_manager).derived().contains_key(database_id) ==> final(key_manager).derived()
                == old(key_manager).derived(),
            r matches Ok(d) ==> d.database_id == database_id && final(key_manager).derived().contains_key(database_id)
                && data@.len() <= MAX_PLAINTEXT && d.encrypted_data@ == aes256gcm_seal(
                    final(key_manager).derived()[database_id].key@,
                    final(key_manager).derived()[database_id].nonce@,
                    data@,
                ) && d.nonce@ == seq![0u8, 0u8, 0u8, 0u8, 0u8, 0u8, 0u8, 0u8, 0u8, 0u8, 0u8, 0u8],
            old(key_manager).derived().contains_key(database_id) ==> (r is Ok <==> data@.len() <= MAX_PLAINTEXT),
            data@.len() > MAX_PLAINTEXT ==> r is Err,
            old(key_manager).derived().contains_key(database_id) && data@.len() > MAX_PLAINTEXT ==> (r matches Err(e)
                && is_encryption_error(e, "Encryption failed: aead::Error"@)),
            old(key_manager).master().len() < 32 && !old(key_manager).derived().contains_key(database_id) ==> (r matches Err(e)
                && is_encryption_error(e, "Master key must be at least 32 bytes"@)),
            !final(key_manager).derived().contains_key(database_id) ==> (r matches Err(e)
                && key_refused(old(key_manager).master(), e)),
            final(key_manager).derived().contains_key(database_id) ==> (r is Ok <==> data@.len() <= MAX_PLAINTEXT),
            r matches Err(e) ==> e is Encryption,
    {
        let encrypted_data = match key_manager.encrypt(database_id, data) {
            Ok(c) => c,
            Err(e) => return Err(e),
        };
        let nonce: [u8; 12] = [0u8, 0u8, 0u8, 0u8, 0u8, 0u8, 0u8, 0u8, 0u8, 0u8, 0u8, 0u8];
        assert(nonce@ =~= seq![0u8, 0u8, 0u8, 0u8, 0u8, 0u8, 0u8, 0u8, 0u8, 0u8, 0u8, 0u8]);
        Ok(EncryptedData { database_id, encrypted_data, nonce })
    }

    /// Decrypts this data with the key of its database.
    pub fn decrypt(&self, key_manager: &mut KeyManager) -> (r: KVResult<Vec<u8>>)
        requires
            old(key_manager).wf(),
        ensures
            final(key_manager).wf(),
            final(key_manager).master() == old(key_manager).master(),
            old(key_manager).derived().contains_key(self.database_id) ==> final(key_manager).derived()
                == old(key_manager).derived(),
            old(key_manager).derived().contains_key(self.database_id) ==> forall|p: Seq<u8>|
                p.len() <= MAX_PLAINTEXT && self.encrypted_data@ == #[trigger] aes256gcm_seal(
                    old(key_manager).derived()[self.database_id].key@,
                    old(key_manager).derived()[self.database_id].nonce@,
                    p,
                ) ==> bytes_of(r.ok()) == Some(p),
    {
        key_manager.decrypt(self.database_id, self.encrypted_data.as_slice())
    }
}

} // verus!
