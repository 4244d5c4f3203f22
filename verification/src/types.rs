//! Core types: values, entries with expiry metadata, and the list, set and
//! hash data structures.

use vstd::prelude::*;
use crate::collections::{List, ValueSet};
use crate::sorted_set::SortedSet;
use crate::text::{lossy_text, utf8_lossy};
use vstd::utf8::encode_utf8;
use crate::time::{Timestamp, MAX_TIMESTAMP, now_millis, expiry_after, expiry_time, seconds_until, remaining_seconds};

verus! {

/// Database identifier (0-15 for compatibility with Redis).
pub type DatabaseId = u8;

/// Key type.
pub type Key = String;

/// TTL (time to live) in seconds.
pub type TTL = u64;

/// A stored value. A JSON value is held as its serialized text.
#[derive(Debug, PartialEq, Eq, Hash)]
pub enum Value {
    String(String),
    Bytes(Vec<u8>),
    Json(String),
}

/// What a value holds, as mathematical sequences.
pub enum ValueView {
    String(Seq<char>),
    Bytes(Seq<u8>),
    Json(Seq<char>),
}

impl View for Value {
    type V = ValueView;

    open spec fn view(&self) -> ValueView {
        match self {
            Value::String(s) => ValueView::String(s@),
            Value::Bytes(b) => ValueView::Bytes(b@),
            Value::Json(j) => ValueView::Json(j@),
        }
    }
}

impl From<String> for Value {
    fn from(s: String) -> (v: Self) {
        Value::String(s)
    }
}

impl vstd::std_specs::convert::FromSpecImpl<String> for Value {
    open spec fn obeys_from_spec() -> bool {
        true
    }

    open spec fn from_spec(s: String) -> Value {
        Value::String(s)
    }
}

impl From<Vec<u8>> for Value {
    fn from(b: Vec<u8>) -> (v: Self) {
        Value::Bytes(b)
    }
}

impl vstd::std_specs::convert::FromSpecImpl<Vec<u8>> for Value {
    open spec fn obeys_from_spec() -> bool {
        true
    }

    open spec fn from_spec(b: Vec<u8>) -> Value {
        Value::Bytes(b)
    }
}

/// A copy of a byte vector.
pub fn copy_bytes(b: &Vec<u8>) -> (r: Vec<u8>)
    ensures
        r@ == b@,
{
    let mut r: Vec<u8> = Vec::new();
    let mut i: usize = 0;
    while i < b.len()
        invariant
            i <= b.len(),
            r@ == b@.take(i as int),
        decreases b.len() - i,
    {
        r.push(b[i]);
        i = i + 1;
        assert(r@ =~= b@.take(i as int));
    }
    assert(r@ =~= b@);
    r
}

/// Whether two byte vectors hold the same bytes.
pub fn bytes_eq(a: &Vec<u8>, b: &Vec<u8>) -> (r: bool)
    ensures
        r == (a@ == b@),
{
    if a.len() != b.len() {
        return false;
    }
    let mut i: usize = 0;
    while i < a.len()
        invariant
            a.len() == b.len(),
            i <= a.len(),
            a@.take(i as int) == b@.take(i as int),
        decreases a.len() - i,
    {
        if a[i] != b[i] {
            assert(a@[i as int] != b@[i as int]);
            return false;
        }
        i = i + 1;
        assert(a@.take(i as int) =~= b@.take(i as int));
    }
    assert(a@ =~= a@.take(a.len() as int));
    assert(b@ =~= b@.take(b.len() as int));
    true
}

impl Clone for Value {
    fn clone(&self) -> (r: Self)
        ensures
            r@ == self@,
    {
        match self {
            Value::String(s) => Value::String(s.clone()),
            Value::Bytes(b) => Value::Bytes(copy_bytes(b)),
            Value::Json(j) => Value::Json(j.clone()),
        }
    }
}

impl Value {
    /// The value as text: a string as it is, JSON as its text, bytes read
    /// as UTF-8 with each invalid sequence replaced by U+FFFD.
    pub fn to_text(&self) -> (r: String)
        ensures
            match self {
                Value::String(s) => r@ == s@,
                Value::Json(j) => r@ == j@,
                Value::Bytes(b) => encode_utf8(r@) == utf8_lossy(b@),
            },
    {
        match self {
            Value::String(s) => s.clone(),
            Value::Json(j) => j.clone(),
            Value::Bytes(b) => lossy_text(b.as_slice()),
        }
    }

    /// The text of a string value.
    pub fn as_string(&self) -> (r: Option<&String>)
        ensures
            match self {
                Value::String(s) => r == Some(s),
                _ => r is None,
            },
    {
        match self {
            Value::String(s) => Some(s),
            _ => None,
        }
    }

    /// The bytes of a bytes value.
    pub fn as_bytes(&self) -> (r: Option<&Vec<u8>>)
        ensures
            match self {
                Value::Bytes(b) => r == Some(b),
                _ => r is None,
            },
    {
        match self {
            Value::Bytes(b) => Some(b),
            _ => None,
        }
    }

    /// The serialized text of a JSON value.
    pub fn as_json(&self) -> (r: Option<&String>)
        ensures
            match self {
                Value::Json(j) => r == Some(j),
                _ => r is None,
            },
    {
        match self {
            Value::Json(j) => Some(j),
            _ => None,
        }
    }

    /// Whether two values are equal: the same variant with the same contents.
    pub fn equals(&self, other: &Value) -> (r: bool)
        ensures
            r == (self@ == other@),
    {
        match (self, other) {
            (Value::String(a), Value::String(b)) => *a == *b,
            (Value::Bytes(a), Value::Bytes(b)) => bytes_eq(a, b),
            (Value::Json(a), Value::Json(b)) => *a == *b,
            _ => false,
        }
    }
}

/// The metadata-carrying view of an entry.
pub struct EntryView {
    pub value: ValueView,
    pub created_at: Timestamp,
    pub expires_at: Option<Timestamp>,
    pub access_count: u64,
    pub last_accessed: Timestamp,
}

/// A stored value with its metadata.
#[derive(Debug)]
pub struct Entry {
    pub value: Value,
    pub created_at: Timestamp,
    pub expires_at: Option<Timestamp>,
    pub access_count: u64,
    pub last_accessed: Timestamp,
}

impl View for Entry {
    type V = EntryView;

    open spec fn view(&self) -> EntryView {
        EntryView {
            value: self.value@,
            created_at: self.created_at,
            expires_at: self.expires_at,
            access_count: self.access_count,
            last_accessed: self.last_accessed,
        }
    }
}

impl Clone for Entry {
    fn clone(&self) -> (r: Self)
        ensures
            r@ == self@,
    {
        Entry {
            value: self.value.clone(),
            created_at: self.created_at,
            expires_at: self.expires_at,
            access_count: self.access_count,
            last_accessed: self.last_accessed,
        }
    }
}

/// Whether an entry with expiry `expires_at` has expired at `now`.
pub open spec fn expired_at(expires_at: Option<Timestamp>, now: Timestamp) -> bool {
    match expires_at {
        Some(t) => now > t,
        None => false,
    }
}

/// The remaining TTL at `now` of an entry with expiry `expires_at`.
pub open spec fn remaining_at(expires_at: Option<Timestamp>, now: Timestamp) -> Option<TTL> {
    match expires_at {
        Some(t) => Some(seconds_until(now, t)),
        None => None,
    }
}

impl Entry {
    /// The entry that `new` builds at time `now`.
    pub open spec fn spec_new(value: Value, ttl: Option<TTL>, now: Timestamp) -> Entry {
        Entry {
            value,
            created_at: now,
            expires_at: match ttl {
                Some(t) => Some(expiry_after(now, t)),
                None => None,
            },
            access_count: 0,
            last_accessed: now,
        }
    }

    /// A new entry created at `now`, expiring `ttl` seconds later if a TTL
    /// is given.
    pub fn new_at(value: Value, ttl: Option<TTL>, now: Timestamp) -> (e: Self)
        requires
            0 <= now <= MAX_TIMESTAMP,
        ensures
            e == Self::spec_new(value, ttl, now),
    {
        let expires_at = match ttl {
            Some(t) => Some(expiry_time(now, t)),
            None => None,
        };
        Entry { value, created_at: now, expires_at, access_count: 0, last_accessed: now }
    }

    /// A new entry created now, expiring `ttl` seconds later if a TTL is
    /// given.
    pub fn new(value: Value, ttl: Option<TTL>) -> (e: Self)
        ensures
            exists|now: Timestamp| 0 <= now <= MAX_TIMESTAMP && e == Self::spec_new(value, ttl, now),
    {
        let now = now_millis();
        Self::new_at(value, ttl, now)
    }

    /// Whether the entry has expired at `now`.
    pub fn is_expired_at(&self, now: Timestamp) -> (r: bool)
        ensures
            r == expired_at(self.expires_at, now),
    {
        match self.expires_at {
            Some(t) => now > t,
            None => false,
        }
    }

    /// Whether the entry has expired now.
    pub fn is_expired(&self) -> (r: bool)
        ensures
            exists|now: Timestamp| 0 <= now <= MAX_TIMESTAMP && r == expired_at(self.expires_at, now),
    {
        let now = now_millis();
        self.is_expired_at(now)
    }

    /// The whole seconds left at `now` before the entry expires: `None`
    /// without a TTL, `Some(0)` once expired.
    pub fn remaining_ttl_at(&self, now: Timestamp) -> (r: Option<TTL>)
        requires
            0 <= now,
        ensures
            r == remaining_at(self.expires_at, now),
    {
        match self.expires_at {
            Some(t) => Some(remaining_seconds(now, t)),
            None => None,
        }
    }

    /// The whole seconds left now before the entry expires.
    pub fn remaining_ttl(&self) -> (r: Option<TTL>)
        ensures
            exists|now: Timestamp| 0 <= now <= MAX_TIMESTAMP && r == remaining_at(self.expires_at, now),
    {
        let now = now_millis();
        self.remaining_ttl_at(now)
    }

    /// Records an access at `now`.
    pub fn touch_at(&mut self, now: Timestamp)
        requires
            old(self).access_count < u64::MAX,
        ensures
            final(self).access_count == old(self).access_count + 1,
            final(self).last_accessed == now,
            final(self).value == old(self).value,
            final(self).created_at == old(self).created_at,
            final(self).expires_at == old(self).expires_at,
    {
        self.access_count = self.access_count + 1;
        self.last_accessed = now;
    }

    /// Records an access now.
    pub fn touch(&mut self)
        requires
            old(self).access_count < u64::MAX,
        ensures
            final(self).access_count == old(self).access_count + 1,
            0 <= final(self).last_accessed <= MAX_TIMESTAMP,
            final(self).value == old(self).value,
            final(self).created_at == old(self).created_at,
            final(self).expires_at == old(self).expires_at,
    {
        let now = now_millis();
        self.touch_at(now);
    }

    /// Sets the expiry to `ttl` seconds after `now`.
    pub fn set_ttl_at(&mut self, ttl: TTL, now: Timestamp)
        requires
            0 <= now <= MAX_TIMESTAMP,
        ensures
            final(self).expires_at == Some(expiry_after(now, ttl)),
            final(self).value == old(self).value,
            final(self).created_at == old(self).created_at,
            final(self).access_count == old(self).access_count,
            final(self).last_accessed == old(self).last_accessed,
    {
        self.expires_at = Some(expiry_time(now, ttl));
    }
}


/// Data structure types.
pub enum DataStructure {
    String(Value),
    List(List),
    ValueSet(ValueSet),
    SortedSet(SortedSet),
    Hash(crate::collections::Hash),
}

impl DataStructure {
    /// The value of a string structure.
    pub fn as_string(&self) -> (r: Option<&Value>)
        ensures
            match self {
                DataStructure::String(v) => r == Some(v),
                _ => r is None,
            },
    {
        match self {
            DataStructure::String(v) => Some(v),
            _ => None,
        }
    }

    /// The list of a list structure.
    pub fn as_list(&self) -> (r: Option<&List>)
        ensures
            match self {
                DataStructure::List(l) => r == Some(l),
                _ => r is None,
            },
    {
        match self {
            DataStructure::List(l) => Some(l),
            _ => None,
        }
    }

    /// The list of a list structure, for changing.
    pub fn as_list_mut(&mut self) -> (r: Option<&mut List>)
        ensures
            match *old(self) {
                DataStructure::List(l) => r matches Some(x) && *x == l && *final(self) == DataStructure::List(*final(x)),
                _ => r is None && *final(self) == *old(self),
            },
    {
        match self {
            DataStructure::List(l) => Some(l),
            _ => None,
        }
    }

    /// The set of a set structure.
    pub fn as_set(&self) -> (r: Option<&ValueSet>)
        ensures
            match self {
                DataStructure::ValueSet(s) => r == Some(s),
                _ => r is None,
            },
    {
        match self {
            DataStructure::ValueSet(s) => Some(s),
            _ => None,
        }
    }

    /// The set of a set structure, for changing.
    pub fn as_set_mut(&mut self) -> (r: Option<&mut ValueSet>)
        ensures
            match *old(self) {
                DataStructure::ValueSet(s) => r matches Some(x) && *x == s && *final(self) == DataStructure::ValueSet(*final(x)),
                _ => r is None && *final(self) == *old(self),
            },
    {
        match self {
            DataStructure::ValueSet(s) => Some(s),
            _ => None,
        }
    }

    /// The sorted set of a sorted-set structure.
    pub fn as_sorted_set(&self) -> (r: Option<&SortedSet>)
        ensures
            match self {
                DataStructure::SortedSet(s) => r == Some(s),
                _ => r is None,
            },
    {
        match self {
            DataStructure::SortedSet(s) => Some(s),
            _ => None,
        }
    }

    /// The sorted set of a sorted-set structure, for changing.
    pub fn as_sorted_set_mut(&mut self) -> (r: Option<&mut SortedSet>)
        ensures
            match *old(self) {
                DataStructure::SortedSet(s) => r matches Some(x) && *x == s && *final(self) == DataStructure::SortedSet(*final(x)),
                _ => r is None && *final(self) == *old(self),
            },
    {
        match self {
            DataStructure::SortedSet(s) => Some(s),
            _ => None,
        }
    }

    /// The hash of a hash structure.
    pub fn as_hash(&self) -> (r: Option<&crate::collections::Hash>)
        ensures
            match self {
                DataStructure::Hash(h) => r == Some(h),
                _ => r is None,
            },
    {
        match self {
            DataStructure::Hash(h) => Some(h),
            _ => None,
        }
    }

    /// The hash of a hash structure, for changing.
    pub fn as_hash_mut(&mut self) -> (r: Option<&mut crate::collections::Hash>)
        ensures
            match *old(self) {
                DataStructure::Hash(h) => r matches Some(x) && *x == h && *final(self) == DataStructure::Hash(*final(x)),
                _ => r is None && *final(self) == *old(self),
            },
    {
        match self {
            DataStructure::Hash(h) => Some(h),
            _ => None,
        }
    }
}

/// Persistence mode.
#[derive(Debug, Clone, Copy, PartialEq, Eq, Structural)]
pub enum PersistenceMode {
    /// In-memory only (no persistence).
    Memory,
    /// Append-only file.
    AOF,
    /// Full durability (synchronous writes).
    Full,
    /// Hybrid (memory + AOF).
    Hybrid,
}

impl PersistenceMode {
    /// The mode named `name`: "memory", "aof", "full" or "hybrid".
    pub open spec fn spec_from_name(name: Seq<char>) -> Option<PersistenceMode> {
        if name == "memory"@ {
            Some(PersistenceMode::Memory)
        } else if name == "aof"@ {
            Some(PersistenceMode::AOF)
        } else if name == "full"@ {
            Some(PersistenceMode::Full)
        } else if name == "hybrid"@ {
            Some(PersistenceMode::Hybrid)
        } else {
            None
        }
    }

    /// Parses a mode name; `None` for any other text.
    pub fn from_name(name: &str) -> (r: Option<PersistenceMode>)
        ensures
            r == Self::spec_from_name(name@),
    {
        let n = name.to_owned();
        if n == "memory".to_owned() {
            Some(PersistenceMode::Memory)
        } else if n == "aof".to_owned() {
            Some(PersistenceMode::AOF)
        } else if n == "full".to_owned() {
            Some(PersistenceMode::Full)
        } else if n == "hybrid".to_owned() {
            Some(PersistenceMode::Hybrid)
        } else {
            None
        }
    }
}

/// Configuration for the KV engine.
#[derive(Debug)]
pub struct KVConfig {
    /// Master encryption key (base64 encoded; empty for a random key).
    pub master_key: String,
    /// Persistence mode.
    pub persistence_mode: PersistenceMode,
    /// Data directory for persistence.
    pub data_dir: String,
    /// Snapshot interval in seconds.
    pub snapshot_interval: u64,
    /// AOF sync interval in seconds.
    pub aof_sync_interval: u64,
    /// Maximum memory usage in bytes.
    pub max_memory: Option<u64>,
    /// Enable compression.
    pub enable_compression: bool,
    /// Key expiration check interval in seconds.
    pub expiration_check_interval: u64,
}

impl Clone for KVConfig {
    fn clone(&self) -> (r: Self)
        ensures
            r.master_key@ == self.master_key@,
            r.persistence_mode == self.persistence_mode,
            r.data_dir@ == self.data_dir@,
            r.snapshot_interval == self.snapshot_interval,
            r.aof_sync_interval == self.aof_sync_interval,
            r.max_memory == self.max_memory,
            r.enable_compression == self.enable_compression,
            r.expiration_check_interval == self.expiration_check_interval,
    {
        KVConfig {
            master_key: self.master_key.clone(),
            persistence_mode: self.persistence_mode,
            data_dir: self.data_dir.clone(),
            snapshot_interval: self.snapshot_interval,
            aof_sync_interval: self.aof_sync_interval,
            max_memory: self.max_memory,
            enable_compression: self.enable_compression,
            expiration_check_interval: self.expiration_check_interval,
        }
    }
}

impl Default for KVConfig {
    fn default() -> (c: Self)
        ensures
            c.master_key@ == Seq::<char>::empty(),
            c.persistence_mode == PersistenceMode::Hybrid,
            c.data_dir@ == "./data"@,
            c.snapshot_interval == 300,
            c.aof_sync_interval == 1,
            c.max_memory is None,
            c.enable_compression,
            c.expiration_check_interval == 60,
    {
        KVConfig {
            master_key: String::new(),
            persistence_mode: PersistenceMode::Hybrid,
            data_dir: "./data".to_owned(),
            snapshot_interval: 300,
            aof_sync_interval: 1,
            max_memory: None,
            enable_compression: true,
            expiration_check_interval: 60,
        }
    }
}

/// Statistics for the KV engine (the operation rate, a ratio, is computed
/// by the caller from `total_operations` and `uptime`).
#[derive(Debug, Clone, Copy)]
pub struct KVStats {
    /// Total number of keys.
    pub total_keys: u64,
    /// Number of expired keys.
    pub expired_keys: u64,
    /// Memory usage in bytes.
    pub memory_usage: u64,
    /// Disk usage in bytes.
    pub disk_usage: u64,
    /// Total operations performed.
    pub total_operations: u64,
    /// Uptime in seconds.
    pub uptime: u64,
    /// Number of active connections.
    pub active_connections: u32,
}

/// A published message.
#[derive(Debug)]
pub struct PubSubMessage {
    pub channel: String,
    pub message: Value,
    pub timestamp: Timestamp,
}

impl Clone for PubSubMessage {
    fn clone(&self) -> (r: Self)
        ensures
            r.channel@ == self.channel@,
            r.message@ == self.message@,
            r.timestamp == self.timestamp,
    {
        PubSubMessage { channel: self.channel.clone(), message: self.message.clone(), timestamp: self.timestamp }
    }
}

} // verus!
