//! In-memory storage: one table of entries per database.

use vstd::prelude::*;
use crate::error::KVResult;
use crate::pattern::{key_matches, matches_pattern};
use crate::table::Table;
use crate::types::{DatabaseId, Entry, Key};

verus! {

/// Statistics for storage usage.
#[derive(Debug, Clone, Copy)]
pub struct StorageStats {
    pub total_keys: u64,
    pub memory_usage: u64,
    pub disk_usage: Option<u64>,
    pub last_flush: Option<i64>,
}

/// The keys of `ks` that match `pattern`, in order.
pub open spec fn keys_matching(ks: Seq<Seq<char>>, pattern: Seq<char>) -> Seq<Seq<char>> {
    ks.filter(|k: Seq<char>| key_matches(k, pattern))
}

/// The views of a sequence of keys.
pub open spec fn string_views(s: Seq<String>) -> Seq<Seq<char>> {
    s.map_values(|k: String| k@)
}

/// A database slot is empty or holds a well-formed table.
pub open spec fn slot_wf(o: Option<Table<Entry>>) -> bool {
    match o {
        Some(t) => t.wf(),
        None => true,
    }
}

/// The number of database ids.
pub const DATABASE_SLOTS: usize = 256;

/// In-memory storage: database id -> (key -> entry).
pub struct MemoryStorage {
    /// One slot per database id; `None` until the database is first written.
    databases: Vec<Option<Table<Entry>>>,
}

impl MemoryStorage {
    /// Whether database `db` has been created (by a write).
    pub closed spec fn has_db(&self, db: DatabaseId) -> bool {
        self.databases@[db as int] is Some
    }

    /// The entries of database `db` (none for a database never written).
    pub closed spec fn db(&self, db: DatabaseId) -> Map<Seq<char>, Entry> {
        match self.databases@[db as int] {
            Some(t) => t@,
            None => Map::empty(),
        }
    }

    /// What `std::mem::size_of_val` gives for the table of database `db`
    /// (0 for a database never written).
    pub closed spec fn table_bytes(&self, db: DatabaseId) -> nat {
        match self.databases@[db as int] {
            Some(t) => vstd::layout::spec_size_of_val::<Table<Entry>>(&t),
            None => 0,
        }
    }

    /// The keys of database `db`, in the order they were first written.
    pub closed spec fn key_order(&self, db: DatabaseId) -> Seq<Seq<char>> {
        match self.databases@[db as int] {
            Some(t) => t.key_seq(),
            None => Seq::empty(),
        }
    }

    /// One slot per database id and every table well formed.
    pub closed spec fn wf(&self) -> bool {
        &&& self.databases@.len() == DATABASE_SLOTS
        &&& forall|i: int| 0 <= i < DATABASE_SLOTS ==> slot_wf(#[trigger] self.databases@[i])
    }

    /// The key order of a database lists each of its keys once.
    pub proof fn lemma_key_order(&self, db: DatabaseId)
        requires
            self.wf(),
        ensures
            self.key_order(db).no_duplicates(),
            self.key_order(db).to_set() == self.db(db).dom(),
            self.key_order(db).len() == self.db(db).len(),
            self.db(db).dom().finite(),
    {
        match self.databases@[db as int] {
            Some(t) => {
                t.lemma_keys();
            },
            None => {
                assert(Seq::<Seq<char>>::empty().to_set() =~= Set::<Seq<char>>::empty());
            },
        }
    }

    /// A new, empty storage.
    pub fn new() -> (s: Self)
        ensures
            s.wf(),
            forall|db: DatabaseId| #[trigger] s.db(db) == Map::<Seq<char>, Entry>::empty(),
            forall|db: DatabaseId| #[trigger] s.key_order(db) == Seq::<Seq<char>>::empty(),
            forall|db: DatabaseId| !#[trigger] s.has_db(db),
    {
        let mut databases: Vec<Option<Table<Entry>>> = Vec::new();
        let mut i: usize = 0;
        while i < DATABASE_SLOTS
            invariant
                i <= DATABASE_SLOTS,
                databases@.len() == i,
                forall|j: int| 0 <= j < i ==> (#[trigger] databases@[j]) is None,
            decreases DATABASE_SLOTS - i,
        {
            databases.push(None);
            i = i + 1;
        }
        MemoryStorage { databases }
    }

    /// Runs on the table of database `db`, created empty if needed.
    fn take_table(&mut self, db: DatabaseId) -> (t: Table<Entry>)
        requires
            old(self).wf(),
        ensures
            t.wf(),
            t@ == old(self).db(db),
            t.key_seq() == old(self).key_order(db),
            final(self).databases@ == old(self).databases@.update(db as int, None),
    {
        let mut slot: Option<Table<Entry>> = None;
        std::mem::swap(&mut slot, &mut self.databases[db as usize]);
        match slot {
            Some(t) => t,
            None => Table::new(),
        }
    }

    /// Databases other than `db` are as in `other`.
    pub open spec fn same_except(&self, other: &Self, db: DatabaseId) -> bool {
        forall|d: DatabaseId| d != db ==> #[trigger] self.db(d) == other.db(d) && self.key_order(d) == other.key_order(d)
            && self.has_db(d) == other.has_db(d)
    }

    /// `same_except` composes.
    pub proof fn lemma_same_except_trans(a: &Self, b: &Self, c: &Self, db: DatabaseId)
        requires
            a.same_except(b, db),
            b.same_except(c, db),
        ensures
            a.same_except(c, db),
    {
        assert forall|d: DatabaseId| d != db implies #[trigger] a.db(d) == c.db(d) && a.key_order(d) == c.key_order(d)
            && a.has_db(d) == c.has_db(d) by {
            assert(a.db(d) == b.db(d));
            assert(b.db(d) == c.db(d));
        }
    }

    /// Puts `t` back as the table of database `db`.
    fn put_table(&mut self, db: DatabaseId, t: Table<Entry>)
        requires
            old(self).databases@.len() == DATABASE_SLOTS,
            forall|i: int| 0 <= i < DATABASE_SLOTS && i != db ==> slot_wf(#[trigger] old(self).databases@[i]),
            t.wf(),
        ensures
            final(self).wf(),
            final(self).databases@ == old(self).databases@.update(db as int, Some(t)),
            final(self).db(db) == t@,
            final(self).key_order(db) == t.key_seq(),
            final(self).has_db(db),
    {
        let mut slot = Some(t);
        std::mem::swap(&mut slot, &mut self.databases[db as usize]);
    }
}

impl Default for MemoryStorage {
    /// A new, empty storage.
    fn default() -> (s: Self)
        ensures
            s.wf(),
            forall|db: DatabaseId| #[trigger] s.db(db) == Map::<Seq<char>, Entry>::empty(),
    {
        Self::new()
    }
}

impl MemoryStorage {
    /// Whether database `db` has been created.
    pub fn has_database(&self, db: DatabaseId) -> (r: bool)
        requires
            self.wf(),
        ensures
            r == self.has_db(db),
    {
        self.databases[db as usize].is_some()
    }

    /// The entry under `key` in database `db`, copied.
    pub fn get(&self, db: DatabaseId, key: &Key) -> (r: KVResult<Option<Entry>>)
        requires
            self.wf(),
        ensures
            r matches Ok(found) && match found {
                Some(e) => self.db(db).contains_key(key@) && e@ == self.db(db)[key@]@,
                None => !self.db(db).contains_key(key@),
            },
    {
        match &self.databases[db as usize] {
            Some(t) => match t.get(key.as_str()) {
                Some(e) => Ok(Some(e.clone())),
                None => Ok(None),
            },
            None => Ok(None),
        }
    }

    /// Stores `entry` under `key` in database `db`, creating the database.
    pub fn set(&mut self, db: DatabaseId, key: Key, entry: Entry) -> (r: KVResult<()>)
        requires
            old(self).wf(),
        ensures
            final(self).wf(),
            r is Ok,
            final(self).db(db) == old(self).db(db).insert(key@, entry),
            final(self).key_order(db) == if old(self).db(db).contains_key(key@) {
                old(self).key_order(db)
            } else {
                old(self).key_order(db).push(key@)
            },
            final(self).has_db(db),
            final(self).same_except(&*old(self), db),
    {
        let mut t = self.take_table(db);
        t.insert(key, entry);
        self.put_table(db, t);
        Ok(())
    }

    /// Deletes `key` from database `db`; true if it was there.
    pub fn delete(&mut self, db: DatabaseId, key: &Key) -> (r: KVResult<bool>)
        requires
            old(self).wf(),
        ensures
            final(self).wf(),
            r == Ok::<bool, crate::error::KVError>(old(self).db(db).contains_key(key@)),
            final(self).db(db) == old(self).db(db).remove(key@),
            final(self).has_db(db) == old(self).has_db(db),
            final(self).same_except(&*old(self), db),
            !old(self).db(db).contains_key(key@) ==> final(self).key_order(db) == old(self).key_order(db),
    {
        if self.databases[db as usize].is_none() {
            return Ok(false);
        }
        let mut t = self.take_table(db);
        let removed = t.remove(key.as_str());
        self.put_table(db, t);
        Ok(removed.is_some())
    }

    /// Whether `key` is in database `db`.
    pub fn key_exists(&self, db: DatabaseId, key: &Key) -> (r: KVResult<bool>)
        requires
            self.wf(),
        ensures
            r == Ok::<bool, crate::error::KVError>(self.db(db).contains_key(key@)),
    {
        match &self.databases[db as usize] {
            Some(t) => Ok(t.contains_key(key.as_str())),
            None => Ok(false),
        }
    }

    /// The keys of database `db`, in the order they were first written.
    pub fn keys(&self, db: DatabaseId) -> (r: KVResult<Vec<Key>>)
        requires
            self.wf(),
        ensures
            r matches Ok(ks) && string_views(ks@) == self.key_order(db),
    {
        match &self.databases[db as usize] {
            Some(t) => {
                let ks = t.keys();
                assert(string_views(ks@) =~= t.key_seq());
                Ok(ks)
            },
            None => {
                let ks: Vec<Key> = Vec::new();
                assert(string_views(ks@) =~= Seq::<Seq<char>>::empty());
                Ok(ks)
            },
        }
    }

    /// The keys of database `db` that match `pattern`, in key order.
    pub fn keys_pattern(&self, db: DatabaseId, pattern: &str) -> (r: KVResult<Vec<Key>>)
        requires
            self.wf(),
        ensures
            r matches Ok(ks) && string_views(ks@) == keys_matching(self.key_order(db), pattern@),
    {
        let all = match self.keys(db) {
            Ok(ks) => ks,
            Err(e) => return Err(e),
        };
        Ok(filter_keys(all, pattern))
    }

    /// Removes every key of database `db` (a database never written stays so).
    pub fn clear_database(&mut self, db: DatabaseId) -> (r: KVResult<()>)
        requires
            old(self).wf(),
        ensures
            final(self).wf(),
            r is Ok,
            final(self).db(db) == Map::<Seq<char>, Entry>::empty(),
            final(self).key_order(db) == Seq::<Seq<char>>::empty(),
            final(self).has_db(db) == old(self).has_db(db),
            final(self).same_except(&*old(self), db),
    {
        if self.databases[db as usize].is_none() {
            return Ok(());
        }
        let mut t = self.take_table(db);
        t.clear();
        self.put_table(db, t);
        Ok(())
    }

    /// Statistics of database `db`: its number of keys and the size of its
    /// table (both 0 for a database never written).
    pub fn get_stats(&self, db: DatabaseId) -> (r: KVResult<StorageStats>)
        requires
            self.wf(),
        ensures
            r matches Ok(st) && st.total_keys == self.db(db).len()
                && st.memory_usage == self.table_bytes(db)
                && (!self.has_db(db) ==> st.memory_usage == 0)
                && st.disk_usage is None && st.last_flush is None,
    {
        match &self.databases[db as usize] {
            Some(t) => {
                let n = t.len();
                let size = std::mem::size_of_val(t);
                Ok(StorageStats { total_keys: n as u64, memory_usage: size as u64, disk_usage: None, last_flush: None })
            },
            None => Ok(StorageStats { total_keys: 0, memory_usage: 0, disk_usage: None, last_flush: None }),
        }
    }

    /// Writes nothing: memory storage keeps nothing elsewhere.
    pub fn flush(&self) -> (r: KVResult<()>)
        ensures
            r is Ok,
    {
        Ok(())
    }

    /// Nothing to release.
    pub fn close(&self) -> (r: KVResult<()>)
        ensures
            r is Ok,
    {
        Ok(())
    }
}

/// The keys of `keys` that match `pattern`, in order.
pub fn filter_keys(keys: Vec<Key>, pattern: &str) -> (r: Vec<Key>)
    ensures
        string_views(r@) == keys_matching(string_views(keys@), pattern@),
{
    let ghost all = string_views(keys@);
    let mut r: Vec<Key> = Vec::new();
    let mut i: usize = 0;
    while i < keys.len()
        invariant
            i <= keys@.len(),
            all == string_views(keys@),
            string_views(r@) == keys_matching(all.take(i as int), pattern@),
        decreases keys@.len() - i,
    {
        proof {
            reveal(Seq::filter);
            assert(all.take(i + 1).drop_last() =~= all.take(i as int));
            assert(all.take(i + 1).last() == keys@[i as int]@);
        }
        if matches_pattern(keys[i].as_str(), pattern) {
            let ghost before = r@;
            r.push(keys[i].clone());
            assert(string_views(r@) =~= string_views(before).push(keys@[i as int]@));
        }
        i = i + 1;
    }
    assert(all.take(keys@.len() as int) =~= all);
    r
}

} // verus!
