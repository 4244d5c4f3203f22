//! Disk storage: sixteen databases, each a tree of the on-disk store.
//!
//! This is the part of the disk storage that decides: which databases
//! exist, what each holds, and which writes reach the disk, in order. The
//! entries written so far are kept here; the writes are queued for the
//! caller, which applies them to the on-disk store, and the store's
//! contents are handed in once, when it is opened.

use vstd::prelude::*;
use crate::error::{KVError, KVResult, join_text};
use crate::storage::aof::{AOFOperation, AOFOperationView, op_views};
use crate::storage::key_sort::{sort_keys, sorted_keys};
use crate::storage::memory::{MemoryStorage, StorageStats, filter_keys, keys_matching, string_views};
use crate::text::{decimal, decimal_text};
use crate::types::{DatabaseId, Entry, Key};

verus! {

/// The number of databases (trees) of the disk storage.
pub const DISK_DATABASES: u8 = 16;

/// The message for a database id past the last tree.
pub open spec fn out_of_range_text(db: DatabaseId) -> Seq<char> {
    "Database ID "@ + decimal(db as nat) + " out of range (0-15)"@
}

/// The error for a database id past the last tree.
pub fn out_of_range_error(db: DatabaseId) -> (e: KVError)
    ensures
        e matches KVError::InvalidKey(msg) && msg@ == out_of_range_text(db),
{
    let head = join_text("Database ID ", decimal_text(db as u64).as_str());
    let msg = join_text(head.as_str(), " out of range (0-15)");
    KVError::InvalidKey(msg)
}

/// `r` is the error for a database id past the last tree.
pub open spec fn range_err<T>(r: KVResult<T>, db: DatabaseId) -> bool {
    r matches Err(e) && e matches KVError::InvalidKey(msg) && msg@ == out_of_range_text(db)
}

/// `m` with `entries` stored one after the other (a later entry under a
/// key replaces an earlier one).
pub open spec fn loaded(m: Map<Seq<char>, Entry>, entries: Seq<(Key, Entry)>) -> Map<Seq<char>, Entry>
    decreases entries.len(),
{
    if entries.len() == 0 {
        m
    } else {
        loaded(m, entries.drop_last()).insert(entries.last().0@, entries.last().1)
    }
}

/// The name of the tree of database `db`: `db_` and its number.
pub open spec fn tree_name(db: nat) -> Seq<char> {
    "db_"@ + decimal(db)
}

/// Computes `tree_name`.
pub fn tree_name_text(db: u8) -> (s: String)
    ensures
        s@ == tree_name(db as nat),
{
    join_text("db_", decimal_text(db as u64).as_str())
}

/// The decisions and contents of the disk storage.
pub struct DiskStorage {
    /// What each database holds.
    cache: MemoryStorage,
    /// Directory of the on-disk store.
    path: String,
    /// Writes not yet applied to the store, oldest first.
    pending: Vec<(DatabaseId, AOFOperation)>,
}

/// The views of the queued writes.
pub open spec fn write_views(w: Seq<(DatabaseId, AOFOperation)>) -> Seq<(DatabaseId, AOFOperationView)> {
    w.map_values(|x: (DatabaseId, AOFOperation)| (x.0, x.1@))
}

impl DiskStorage {
    /// What each database holds.
    pub closed spec fn cache(&self) -> MemoryStorage {
        self.cache
    }

    /// The writes not yet applied to the store, oldest first.
    pub closed spec fn pending(&self) -> Seq<(DatabaseId, AOFOperationView)> {
        write_views(self.pending@)
    }

    /// The store's directory.
    pub closed spec fn path(&self) -> Seq<char> {
        self.path@
    }

    /// The cache is well formed.
    pub open spec fn wf(&self) -> bool {
        self.cache().wf()
    }

    /// A disk storage for the store at `path`, holding nothing yet.
    pub fn new(path: &str) -> (s: Self)
        ensures
            s.wf(),
            s.path() == path@,
            forall|db: DatabaseId| #[trigger] s.cache().db(db) == Map::<Seq<char>, Entry>::empty(),
            forall|db: DatabaseId| #[trigger] s.cache().key_order(db) == Seq::<Seq<char>>::empty(),
            s.pending() == Seq::<(DatabaseId, AOFOperationView)>::empty(),
    {
        let s = DiskStorage { cache: MemoryStorage::new(), path: path.to_owned(), pending: Vec::new() };
        assert(s.pending() =~= Seq::<(DatabaseId, AOFOperationView)>::empty());
        s
    }

    /// The store's directory.
    pub fn path_text(&self) -> (p: &String)
        ensures
            p@ == self.path(),
    {
        &self.path
    }

    /// Records what the store held when it was opened: `entries` of
    /// database `db`, in the store's order. Nothing is queued.
    pub fn load(&mut self, db: DatabaseId, entries: Vec<(Key, Entry)>) -> (r: KVResult<()>)
        requires
            old(self).wf(),
        ensures
            final(self).wf(),
            db < DISK_DATABASES ==> r is Ok && final(self).cache().db(db) == loaded(old(self).cache().db(db), entries@),
            db >= DISK_DATABASES ==> range_err(r, db)
                && final(self).cache() == old(self).cache(),
            final(self).cache().same_except(&old(self).cache(), db),
            final(self).pending() == old(self).pending(),
            final(self).path() == old(self).path(),
    {
        if db >= DISK_DATABASES {
            return Err(out_of_range_error(db));
        }
        let ghost all = entries@;
        let mut entries = entries;
        let ghost start = self.cache;
        let ghost mut done: int = 0;
        while entries.len() > 0
            invariant
                self.wf(),
                0 <= done <= all.len(),
                entries@ == all.skip(done),
                self.cache().db(db) == loaded(start.db(db), all.take(done)),
                self.cache().same_except(&start, db),
                self.pending() == old(self).pending(),
                self.path() == old(self).path(),
            decreases entries@.len(),
        {
            let (k, e) = entries.remove(0);
            proof {
                assert(all.skip(done)[0] == (k, e));
                assert(all.take(done + 1).drop_last() =~= all.take(done));
                assert(all.take(done + 1).last() == (k, e));
                assert(all.skip(done + 1) =~= all.skip(done).drop_first());
            }
            let ghost before = self.cache;
            let _ = self.cache.set(db, k, e);
            proof {
                MemoryStorage::lemma_same_except_trans(&self.cache, &before, &start, db);
                done = done + 1;
            }
        }
        assert(all.take(all.len() as int) =~= all);
        Ok(())
    }

    /// Takes the writes not yet applied, oldest first.
    pub fn take_pending(&mut self) -> (w: Vec<(DatabaseId, AOFOperation)>)
        requires
            old(self).wf(),
        ensures
            final(self).wf(),
            write_views(w@) == old(self).pending(),
            final(self).pending() == Seq::<(DatabaseId, AOFOperationView)>::empty(),
            final(self).cache() == old(self).cache(),
            final(self).path() == old(self).path(),
    {
        let mut w: Vec<(DatabaseId, AOFOperation)> = Vec::new();
        std::mem::swap(&mut w, &mut self.pending);
        assert(self.pending() =~= Seq::<(DatabaseId, AOFOperationView)>::empty());
        w
    }

    /// The entry under `key` in database `db`.
    pub fn get(&self, db: DatabaseId, key: &Key) -> (r: KVResult<Option<Entry>>)
        requires
            self.wf(),
        ensures
            db >= DISK_DATABASES ==> range_err(r, db),
            db < DISK_DATABASES ==> (r matches Ok(found) && match found {
                Some(e) => self.cache().db(db).contains_key(key@) && e@ == self.cache().db(db)[key@]@,
                None => !self.cache().db(db).contains_key(key@),
            }),
    {
        if db >= DISK_DATABASES {
            return Err(out_of_range_error(db));
        }
        self.cache.get(db, key)
    }

    /// Stores `entry` under `key` and queues the write.
    pub fn set(&mut self, db: DatabaseId, key: Key, entry: Entry) -> (r: KVResult<()>)
        requires
            old(self).wf(),
        ensures
            final(self).wf(),
            final(self).path() == old(self).path(),
            db >= DISK_DATABASES ==> range_err(r, db)
                && final(self).cache() == old(self).cache() && final(self).pending() == old(self).pending(),
            db < DISK_DATABASES ==> r is Ok
                && final(self).cache().db(db) == old(self).cache().db(db).insert(key@, entry)
                && final(self).cache().same_except(&old(self).cache(), db)
                && final(self).pending() == old(self).pending().push((db, AOFOperationView::Store { key: key@, entry: entry@ })),
    {
        if db >= DISK_DATABASES {
            return Err(out_of_range_error(db));
        }
        let logged = AOFOperation::Store { key: key.clone(), entry: entry.clone() };
        let _ = self.cache.set(db, key, entry);
        self.pending.push((db, logged));
        assert(self.pending() =~= old(self).pending().push((db, logged@)));
        Ok(())
    }

    /// Deletes `key`; the deletion is queued only if it was there.
    pub fn delete(&mut self, db: DatabaseId, key: &Key) -> (r: KVResult<bool>)
        requires
            old(self).wf(),
        ensures
            final(self).wf(),
            final(self).path() == old(self).path(),
            db >= DISK_DATABASES ==> range_err(r, db)
                && final(self).cache() == old(self).cache() && final(self).pending() == old(self).pending(),
            db < DISK_DATABASES ==> r == Ok::<bool, KVError>(old(self).cache().db(db).contains_key(key@))
                && final(self).cache().db(db) == old(self).cache().db(db).remove(key@)
                && final(self).cache().same_except(&old(self).cache(), db)
                && final(self).pending() == if old(self).cache().db(db).contains_key(key@) {
                    old(self).pending().push((db, AOFOperationView::Delete { key: key@ }))
                } else {
                    old(self).pending()
                },
    {
        if db >= DISK_DATABASES {
            return Err(out_of_range_error(db));
        }
        let existed = match self.cache.delete(db, key) {
            Ok(b) => b,
            Err(e) => return Err(e),
        };
        if existed {
            let logged = AOFOperation::Delete { key: key.clone() };
            self.pending.push((db, logged));
            assert(self.pending() =~= old(self).pending().push((db, logged@)));
        }
        Ok(existed)
    }

    /// Whether `key` is in database `db`.
    pub fn key_exists(&self, db: DatabaseId, key: &Key) -> (r: KVResult<bool>)
        requires
            self.wf(),
        ensures
            db >= DISK_DATABASES ==> range_err(r, db),
            db < DISK_DATABASES ==> r == Ok::<bool, KVError>(self.cache().db(db).contains_key(key@)),
    {
        if db >= DISK_DATABASES {
            return Err(out_of_range_error(db));
        }
        self.cache.key_exists(db, key)
    }

    /// The keys of database `db`, in the store's order (by their bytes).
    pub fn keys(&self, db: DatabaseId) -> (r: KVResult<Vec<Key>>)
        requires
            self.wf(),
        ensures
            db >= DISK_DATABASES ==> range_err(r, db),
            db < DISK_DATABASES ==> (r matches Ok(ks) && string_views(ks@) == sorted_keys(self.cache().key_order(db))),
    {
        if db >= DISK_DATABASES {
            return Err(out_of_range_error(db));
        }
        match self.cache.keys(db) {
            Ok(ks) => Ok(sort_keys(ks)),
            Err(e) => Err(e),
        }
    }

    /// The keys of database `db` that match `pattern`, in the store's order.
    pub fn keys_pattern(&self, db: DatabaseId, pattern: &str) -> (r: KVResult<Vec<Key>>)
        requires
            self.wf(),
        ensures
            db >= DISK_DATABASES ==> range_err(r, db),
            db < DISK_DATABASES ==> (r matches Ok(ks) && string_views(ks@) == keys_matching(sorted_keys(self.cache().key_order(db)), pattern@)),
    {
        match self.keys(db) {
            Ok(ks) => Ok(filter_keys(ks, pattern)),
            Err(e) => Err(e),
        }
    }

    /// Clears database `db` and queues the clear.
    pub fn clear_database(&mut self, db: DatabaseId) -> (r: KVResult<()>)
        requires
            old(self).wf(),
        ensures
            final(self).wf(),
            final(self).path() == old(self).path(),
            db >= DISK_DATABASES ==> range_err(r, db)
                && final(self).cache() == old(self).cache() && final(self).pending() == old(self).pending(),
            db < DISK_DATABASES ==> r is Ok
                && final(self).cache().db(db) == Map::<Seq<char>, Entry>::empty()
                && final(self).cache().same_except(&old(self).cache(), db)
                && final(self).pending() == old(self).pending().push((db, AOFOperationView::Clear)),
    {
        if db >= DISK_DATABASES {
            return Err(out_of_range_error(db));
        }
        let _ = self.cache.clear_database(db);
        self.pending.push((db, AOFOperation::Clear));
        assert(self.pending() =~= old(self).pending().push((db, AOFOperationView::Clear)));
        Ok(())
    }

    /// Statistics of database `db`: its number of keys; the store reports
    /// no sizes, so both usages are 0.
    pub fn get_stats(&self, db: DatabaseId) -> (r: KVResult<StorageStats>)
        requires
            self.wf(),
        ensures
            db >= DISK_DATABASES ==> range_err(r, db),
            db < DISK_DATABASES ==> (r matches Ok(st) && st.total_keys == self.cache().db(db).len()
                && st.memory_usage == 0 && st.disk_usage == Some(0u64) && st.last_flush is None),
    {
        if db >= DISK_DATABASES {
            return Err(out_of_range_error(db));
        }
        let st = match self.cache.get_stats(db) {
            Ok(st) => st,
            Err(e) => return Err(e),
        };
        Ok(StorageStats { total_keys: st.total_keys, memory_usage: 0, disk_usage: Some(0), last_flush: None })
    }
}

} // verus!
