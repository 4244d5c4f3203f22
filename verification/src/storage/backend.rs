//! The storage backends behind one interface, and the factory that picks
//! one for a persistence mode.

use vstd::prelude::*;
use crate::error::{KVError, KVResult, join_text};
use crate::storage::aof::{AOFOperation, AOFOperationView, AOFStorage, op_views};
use crate::storage::key_sort::{lemma_sorted_keys, sorted_keys};
use crate::storage::disk::{DiskStorage, DISK_DATABASES, range_err, write_views};
use crate::storage::memory::{MemoryStorage, StorageStats, keys_matching, string_views};
use crate::text::{decimal, decimal_text};
use crate::types::{DatabaseId, Entry, Key, PersistenceMode};

verus! {

/// The writes a backend has queued for its files.
pub enum PendingWrites {
    /// Memory storage keeps nothing elsewhere.
    Nothing,
    /// Operations to append to the append-only file, oldest first.
    Aof(Vec<AOFOperation>),
    /// Writes to apply to the disk store, oldest first.
    Disk(Vec<(DatabaseId, AOFOperation)>),
}

/// A storage backend.
pub enum StorageBackend {
    Memory(MemoryStorage),
    Aof(AOFStorage),
    Disk(DiskStorage),
}

impl StorageBackend {
    /// The entries of database `db`.
    pub open spec fn data(&self, db: DatabaseId) -> Map<Seq<char>, Entry> {
        match self {
            StorageBackend::Memory(m) => m.db(db),
            StorageBackend::Aof(a) => a.cache().db(db),
            StorageBackend::Disk(d) => d.cache().db(db),
        }
    }

    /// The keys of database `db`, in listing order.
    pub open spec fn order(&self, db: DatabaseId) -> Seq<Seq<char>> {
        match self {
            StorageBackend::Memory(m) => m.key_order(db),
            StorageBackend::Aof(a) => a.cache().key_order(db),
            StorageBackend::Disk(d) => sorted_keys(d.cache().key_order(db)),
        }
    }

    /// The backend is well formed.
    pub open spec fn wf(&self) -> bool {
        match self {
            StorageBackend::Memory(m) => m.wf(),
            StorageBackend::Aof(a) => a.wf(),
            StorageBackend::Disk(d) => d.wf(),
        }
    }

    /// Whether the backend serves database `db` (the disk holds sixteen).
    pub open spec fn accepts(&self, db: DatabaseId) -> bool {
        !(self is Disk) || db < DISK_DATABASES
    }

    /// The backend is of the same kind as `other` and its databases other
    /// than `db` hold the same entries in the same order.
    pub open spec fn same_except(&self, other: &Self, db: DatabaseId) -> bool {
        &&& (self is Memory <==> other is Memory)
        &&& (self is Aof <==> other is Aof)
        &&& (self is Disk <==> other is Disk)
        &&& forall|d: DatabaseId| d != db ==> #[trigger] self.data(d) == other.data(d) && self.order(d) == other.order(d)
    }

    /// The keys of a database list each of its keys once.
    pub proof fn lemma_order(&self, db: DatabaseId)
        requires
            self.wf(),
        ensures
            self.order(db).no_duplicates(),
            self.order(db).to_set() == self.data(db).dom(),
            self.order(db).len() == self.data(db).len(),
    {
        match self {
            StorageBackend::Memory(m) => m.lemma_key_order(db),
            StorageBackend::Aof(a) => a.cache().lemma_key_order(db),
            StorageBackend::Disk(d) => {
                d.cache().lemma_key_order(db);
                lemma_sorted_keys(d.cache().key_order(db));
            },
        }
    }

    /// The disk usage that the backend reports for database `db`: the size
    /// of its append-only file once the database has been written, nothing
    /// for memory, 0 for the disk store.
    pub open spec fn disk_usage(&self, db: DatabaseId) -> Option<u64> {
        match self {
            StorageBackend::Memory(_) => None,
            StorageBackend::Aof(a) => Some(if a.cache().has_db(db) { a.spec_file_size() } else { 0 }),
            StorageBackend::Disk(_) => Some(0u64),
        }
    }

    /// The memory usage that the backend reports for database `db`: the
    /// size of its table for memory and append-only storage, 0 for the disk
    /// store.
    pub open spec fn memory_usage(&self, db: DatabaseId) -> nat {
        match self {
            StorageBackend::Memory(m) => m.table_bytes(db),
            StorageBackend::Aof(a) => a.cache().table_bytes(db),
            StorageBackend::Disk(_) => 0,
        }
    }

    /// The backend holds the same entries as `other`, in the same order.
    pub open spec fn same_data(&self, other: &Self) -> bool {
        forall|d: DatabaseId| #[trigger] self.data(d) == other.data(d) && self.order(d) == other.order(d)
    }

    /// Backends that hold the same data agree on each database.
    pub proof fn lemma_same_data_at(&self, other: &Self, db: DatabaseId)
        requires
            self.same_data(other),
        ensures
            self.data(db) == other.data(db),
            self.order(db) == other.order(db),
    {
        assert(self.data(db) == other.data(db) && self.order(db) == other.order(db));
    }

    /// Hands out the writes queued for the files and forgets them.
    pub fn take_pending(&mut self) -> (w: PendingWrites)
        requires
            old(self).wf(),
        ensures
            final(self).wf(),
            final(self).same_data(&*old(self)),
            match *old(self) {
                StorageBackend::Memory(_) => w is Nothing && (*final(self)) is Memory,
                StorageBackend::Aof(a) => {
                    &&& w matches PendingWrites::Aof(ops) && op_views(ops@) == a.pending()
                    &&& (*final(self)) matches StorageBackend::Aof(a2) && a2.pending() == Seq::<AOFOperationView>::empty()
                        && a2.path() == a.path() && a2.spec_file_size() == a.spec_file_size()
                },
                StorageBackend::Disk(d) => {
                    &&& w matches PendingWrites::Disk(ws) && write_views(ws@) == d.pending()
                    &&& (*final(self)) matches StorageBackend::Disk(d2) && d2.pending().len() == 0 && d2.path() == d.path()
                },
            },
    {
        match self {
            StorageBackend::Memory(_) => PendingWrites::Nothing,
            StorageBackend::Aof(a) => PendingWrites::Aof(a.take_pending()),
            StorageBackend::Disk(d) => PendingWrites::Disk(d.take_pending()),
        }
    }

    /// Records the size of the append-only file (other backends have none).
    pub fn record_file_size(&mut self, bytes: u64)
        requires
            old(self).wf(),
        ensures
            final(self).wf(),
            final(self).same_data(&*old(self)),
            ((*final(self)) is Memory <==> (*old(self)) is Memory) && ((*final(self)) is Aof <==> (*old(self)) is Aof)
                && ((*final(self)) is Disk <==> (*old(self)) is Disk),
            (*final(self)) matches StorageBackend::Aof(a2) ==> a2.spec_file_size() == bytes,
    {
        match self {
            StorageBackend::Aof(a) => a.set_file_size(bytes),
            _ => {},
        }
    }

    /// The entry under `key` in database `db`.
    pub fn get(&self, db: DatabaseId, key: &Key) -> (r: KVResult<Option<Entry>>)
        requires
            self.wf(),
        ensures
            !self.accepts(db) ==> range_err(r, db),
            self.accepts(db) ==> (r matches Ok(found) && match found {
                Some(e) => self.data(db).contains_key(key@) && e@ == self.data(db)[key@]@,
                None => !self.data(db).contains_key(key@),
            }),
    {
        match self {
            StorageBackend::Memory(m) => m.get(db, key),
            StorageBackend::Aof(a) => a.get(db, key),
            StorageBackend::Disk(d) => d.get(db, key),
        }
    }

    /// Stores `entry` under `key` in database `db`.
    pub fn set(&mut self, db: DatabaseId, key: Key, entry: Entry) -> (r: KVResult<()>)
        requires
            old(self).wf(),
        ensures
            final(self).wf(),
            final(self).accepts(db) == old(self).accepts(db),
            final(self).same_except(&*old(self), db),
            !old(self).accepts(db) ==> range_err(r, db) && final(self).data(db) == old(self).data(db)
                && final(self).order(db) == old(self).order(db),
            old(self).accepts(db) ==> r is Ok && final(self).data(db) == old(self).data(db).insert(key@, entry),
    {
        match self {
            StorageBackend::Memory(m) => m.set(db, key, entry),
            StorageBackend::Aof(a) => a.set(db, key, entry),
            StorageBackend::Disk(d) => d.set(db, key, entry),
        }
    }

    /// Deletes `key` from database `db`; true if it was there.
    pub fn delete(&mut self, db: DatabaseId, key: &Key) -> (r: KVResult<bool>)
        requires
            old(self).wf(),
        ensures
            final(self).wf(),
            final(self).accepts(db) == old(self).accepts(db),
            final(self).same_except(&*old(self), db),
            !old(self).accepts(db) ==> range_err(r, db) && final(self).data(db) == old(self).data(db)
                && final(self).order(db) == old(self).order(db),
            old(self).accepts(db) ==> r == Ok::<bool, KVError>(old(self).data(db).contains_key(key@))
                && final(self).data(db) == old(self).data(db).remove(key@),
    {
        match self {
            StorageBackend::Memory(m) => m.delete(db, key),
            StorageBackend::Aof(a) => a.delete(db, key),
            StorageBackend::Disk(d) => d.delete(db, key),
        }
    }

    /// Whether `key` is in database `db`.
    pub fn key_exists(&self, db: DatabaseId, key: &Key) -> (r: KVResult<bool>)
        requires
            self.wf(),
        ensures
            !self.accepts(db) ==> range_err(r, db),
            self.accepts(db) ==> r == Ok::<bool, KVError>(self.data(db).contains_key(key@)),
    {
        match self {
            StorageBackend::Memory(m) => m.key_exists(db, key),
            StorageBackend::Aof(a) => a.key_exists(db, key),
            StorageBackend::Disk(d) => d.key_exists(db, key),
        }
    }

    /// The keys of database `db`.
    pub fn keys(&self, db: DatabaseId) -> (r: KVResult<Vec<Key>>)
        requires
            self.wf(),
        ensures
            !self.accepts(db) ==> range_err(r, db),
            self.accepts(db) ==> (r matches Ok(ks) && string_views(ks@) == self.order(db)),
    {
        match self {
            StorageBackend::Memory(m) => m.keys(db),
            StorageBackend::Aof(a) => a.keys(db),
            StorageBackend::Disk(d) => d.keys(db),
        }
    }

    /// The keys of database `db` that match `pattern`.
    pub fn keys_pattern(&self, db: DatabaseId, pattern: &str) -> (r: KVResult<Vec<Key>>)
        requires
            self.wf(),
        ensures
            !self.accepts(db) ==> range_err(r, db),
            self.accepts(db) ==> (r matches Ok(ks) && string_views(ks@) == keys_matching(self.order(db), pattern@)),
    {
        match self {
            StorageBackend::Memory(m) => m.keys_pattern(db, pattern),
            StorageBackend::Aof(a) => a.keys_pattern(db, pattern),
            StorageBackend::Disk(d) => d.keys_pattern(db, pattern),
        }
    }

    /// Removes every key of database `db`.
    pub fn clear_database(&mut self, db: DatabaseId) -> (r: KVResult<()>)
        requires
            old(self).wf(),
        ensures
            final(self).wf(),
            final(self).accepts(db) == old(self).accepts(db),
            final(self).same_except(&*old(self), db),
            !old(self).accepts(db) ==> range_err(r, db) && final(self).data(db) == old(self).data(db)
                && final(self).order(db) == old(self).order(db),
            old(self).accepts(db) ==> r is Ok && final(self).data(db) == Map::<Seq<char>, Entry>::empty(),
    {
        match self {
            StorageBackend::Memory(m) => m.clear_database(db),
            StorageBackend::Aof(a) => a.clear_database(db),
            StorageBackend::Disk(d) => d.clear_database(db),
        }
    }

    /// Statistics of database `db`.
    pub fn get_stats(&self, db: DatabaseId) -> (r: KVResult<StorageStats>)
        requires
            self.wf(),
        ensures
            !self.accepts(db) ==> range_err(r, db),
            self.accepts(db) ==> (r matches Ok(st) && st.total_keys == self.data(db).len()
                && st.memory_usage == self.memory_usage(db) && st.disk_usage == self.disk_usage(db)),
    {
        match self {
            StorageBackend::Memory(m) => m.get_stats(db),
            StorageBackend::Aof(a) => a.get_stats(db),
            StorageBackend::Disk(d) => d.get_stats(db),
        }
    }
}

/// The path of the append-only file of database `db` under `data_dir`.
pub open spec fn aof_file_path(data_dir: Seq<char>, db: DatabaseId) -> Seq<char> {
    data_dir + "/db_"@ + decimal(db as nat) + ".aof"@
}

/// The directory of the disk store of database `db` under `data_dir`.
pub open spec fn disk_store_path(data_dir: Seq<char>, db: DatabaseId) -> Seq<char> {
    data_dir + "/db_"@ + decimal(db as nat)
}

/// Storage factory: picks the backend for a persistence mode.
pub struct StorageFactory;

impl StorageFactory {
    /// The append-only file path of database `database_id`.
    pub fn aof_path(data_dir: &str, database_id: DatabaseId) -> (p: String)
        ensures
            p@ == aof_file_path(data_dir@, database_id),
    {
        let a = join_text(data_dir, "/db_");
        let b = join_text(a.as_str(), decimal_text(database_id as u64).as_str());
        join_text(b.as_str(), ".aof")
    }

    /// The disk store directory of database `database_id`.
    pub fn disk_path(data_dir: &str, database_id: DatabaseId) -> (p: String)
        ensures
            p@ == disk_store_path(data_dir@, database_id),
    {
        let a = join_text(data_dir, "/db_");
        join_text(a.as_str(), decimal_text(database_id as u64).as_str())
    }

    /// An empty backend for `mode`: memory for `Memory`, an append-only
    /// file for `AOF` and `Hybrid`, the disk store for `Full`.
    pub fn create(mode: PersistenceMode, data_dir: &str, database_id: DatabaseId) -> (r: KVResult<StorageBackend>)
        ensures
            r matches Ok(b) && b.wf() && (forall|d: DatabaseId| #[trigger] b.data(d) == Map::<Seq<char>, Entry>::empty()
                && b.order(d) == Seq::<Seq<char>>::empty()) && match mode {
                PersistenceMode::Memory => b is Memory,
                PersistenceMode::AOF | PersistenceMode::Hybrid => b matches StorageBackend::Aof(a)
                    && a.path() == aof_file_path(data_dir@, database_id),
                PersistenceMode::Full => b matches StorageBackend::Disk(d)
                    && d.path() == disk_store_path(data_dir@, database_id),
            },
    {
        match mode {
            PersistenceMode::Memory => Ok(StorageBackend::Memory(MemoryStorage::new())),
            PersistenceMode::AOF | PersistenceMode::Hybrid => {
                let p = Self::aof_path(data_dir, database_id);
                Ok(StorageBackend::Aof(AOFStorage::new(p.as_str())))
            },
            PersistenceMode::Full => {
                let p = Self::disk_path(data_dir, database_id);
                Ok(StorageBackend::Disk(DiskStorage::new(p.as_str())))
            },
        }
    }
}

} // verus!
