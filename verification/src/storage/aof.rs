//! Append-only file (AOF) storage: entries are served from memory and every
//! change is recorded as an operation to append to the file.
//!
//! The file holds one operation per line. Reading it back is split in
//! three: `decode_lines` frames the file's bytes into text lines, each line
//! is parsed into an `AOFOperation` (or found unreadable) by the caller,
//! and `replay` applies the readable operations in order.

use vstd::prelude::*;
use vstd::utf8::{valid_utf8, decode_utf8};
use crate::error::{KVError, KVResult};
use crate::storage::memory::{MemoryStorage, StorageStats, keys_matching, string_views};
use crate::types::{DatabaseId, Entry, EntryView, Key};

verus! {

/// An operation recorded in the append-only file.
#[derive(Debug)]
pub enum AOFOperation {
    Store { key: Key, entry: Entry },
    Delete { key: Key },
    Clear,
}

/// An operation, as seen by specifications.
pub enum AOFOperationView {
    Store { key: Seq<char>, entry: EntryView },
    Delete { key: Seq<char> },
    Clear,
}

impl View for AOFOperation {
    type V = AOFOperationView;

    open spec fn view(&self) -> AOFOperationView {
        match self {
            AOFOperation::Store { key, entry } => AOFOperationView::Store { key: key@, entry: entry@ },
            AOFOperation::Delete { key } => AOFOperationView::Delete { key: key@ },
            AOFOperation::Clear => AOFOperationView::Clear,
        }
    }
}

/// The views of a sequence of operations.
pub open spec fn op_views(ops: Seq<AOFOperation>) -> Seq<AOFOperationView> {
    ops.map_values(|o: AOFOperation| o@)
}

/// The entries of a database after applying `op`. Deleting and clearing
/// leave a database that was never written as it is.
pub open spec fn apply_op(m: Map<Seq<char>, Entry>, op: AOFOperation) -> Map<Seq<char>, Entry> {
    match op {
        AOFOperation::Store { key, entry } => m.insert(key@, entry),
        AOFOperation::Delete { key } => m.remove(key@),
        AOFOperation::Clear => Map::empty(),
    }
}

/// The entries after applying the readable operations of `ops` in order
/// (unreadable lines, `None`, are skipped).
pub open spec fn replay_ops(m: Map<Seq<char>, Entry>, ops: Seq<Option<AOFOperation>>) -> Map<Seq<char>, Entry>
    decreases ops.len(),
{
    if ops.len() == 0 {
        m
    } else {
        let before = replay_ops(m, ops.drop_last());
        match ops.last() {
            Some(op) => apply_op(before, op),
            None => before,
        }
    }
}

/// `line` without one trailing carriage return.
pub open spec fn strip_cr(line: Seq<u8>) -> Seq<u8> {
    if line.len() > 0 && line.last() == 13u8 {
        line.drop_last()
    } else {
        line
    }
}

/// The position of the first newline of `s` (its length if none).
pub open spec fn newline_at(s: Seq<u8>) -> int
    decreases s.len(),
{
    if s.len() == 0 || s[0] == 10u8 {
        0
    } else {
        1 + newline_at(s.drop_first())
    }
}

/// The lines of `content` as `BufRead::lines` gives them: split at each
/// newline, a carriage return right before a newline dropped, and no empty
/// line after a final newline.
pub open spec fn split_lines(content: Seq<u8>) -> Seq<Seq<u8>>
    decreases content.len(),
{
    if content.len() == 0 {
        Seq::empty()
    } else {
        let i = newline_at(content);
        proof {
            lemma_newline_bound(content);
        }
        if i == content.len() {
            seq![content]
        } else {
            seq![strip_cr(content.take(i))] + split_lines(content.skip(i + 1))
        }
    }
}

/// The first newline lies within the sequence (or at its end).
pub proof fn lemma_newline_bound(s: Seq<u8>)
    ensures
        0 <= newline_at(s) <= s.len(),
    decreases s.len(),
{
    if s.len() > 0 && s[0] != 10u8 {
        lemma_newline_bound(s.drop_first());
    }
}

/// Whether every line is valid UTF-8.
pub open spec fn all_utf8(lines: Seq<Seq<u8>>) -> bool {
    forall|i: int| 0 <= i < lines.len() ==> valid_utf8(#[trigger] lines[i])
}

/// `std::str::from_utf8`: the text that `bytes` encode when they are valid
/// UTF-8, as its documentation states; `None` otherwise.
#[verifier::external_body]
fn text_from_utf8(bytes: &[u8]) -> (r: Option<String>)
    ensures
        r is Some <==> valid_utf8(bytes@),
        r matches Some(s) ==> s@ == decode_utf8(bytes@),
{
    match std::str::from_utf8(bytes) {
        Ok(s) => Some(s.to_owned()),
        Err(_) => None,
    }
}

proof fn lemma_newline_at(s: Seq<u8>, i: int)
    requires
        0 <= i <= s.len(),
        forall|j: int| 0 <= j < i ==> s[j] != 10u8,
        i == s.len() || s[i] == 10u8,
    ensures
        newline_at(s) == i,
    decreases i,
{
    if i > 0 {
        assert forall|j: int| 0 <= j < i - 1 implies s.drop_first()[j] != 10u8 by {
            assert(s.drop_first()[j] == s[j + 1]);
        }
        if i < s.len() {
            assert(s.drop_first()[i - 1] == s[i]);
        }
        lemma_newline_at(s.drop_first(), i - 1);
    }
}

/// Splits `content` into lines (see `split_lines`).
pub fn frame_lines(content: &[u8]) -> (r: Vec<Vec<u8>>)
    ensures
        r@.len() == split_lines(content@).len(),
        forall|i: int| 0 <= i < r@.len() ==> (#[trigger] r@[i])@ == split_lines(content@)[i],
{
    let mut r: Vec<Vec<u8>> = Vec::new();
    let mut start: usize = 0;
    let n = content.len();
    assert(content@.skip(0) =~= content@);
    while start < n
        invariant
            n == content@.len(),
            start <= n,
            split_lines(content@).len() == r@.len() + split_lines(content@.skip(start as int)).len(),
            forall|i: int| 0 <= i < r@.len() ==> (#[trigger] r@[i])@ == split_lines(content@)[i],
            forall|i: int| 0 <= i < split_lines(content@.skip(start as int)).len() ==>
                split_lines(content@)[r@.len() + i] == #[trigger] split_lines(content@.skip(start as int))[i],
        decreases n - start,
    {
        let ghost rest = content@.skip(start as int);
        let mut end: usize = start;
        while end < n && content[end] != 10u8
            invariant
                start <= end <= n,
                n == content@.len(),
                rest == content@.skip(start as int),
                forall|j: int| start <= j < end ==> content@[j] != 10u8,
            decreases n - end,
        {
            end = end + 1;
        }
        proof {
            assert forall|j: int| 0 <= j < end - start implies rest[j] != 10u8 by {
                assert(rest[j] == content@[start + j]);
            }
            if end < n {
                assert(rest[end - start] == content@[end as int]);
            }
            lemma_newline_at(rest, end - start);
        }
        let mut line: Vec<u8> = Vec::new();
        let stop: usize = if end < n && end > start && content[end - 1] == 13u8 { end - 1 } else { end };
        let mut k: usize = start;
        while k < stop
            invariant
                start <= k <= stop <= end <= n,
                n == content@.len(),
                line@ == content@.subrange(start as int, k as int),
            decreases stop - k,
        {
            line.push(content[k]);
            k = k + 1;
            assert(line@ =~= content@.subrange(start as int, k as int));
        }
        proof {
            let i = end - start;
            if end < n {
                assert(rest.take(i) =~= content@.subrange(start as int, end as int));
                assert(line@ =~= strip_cr(rest.take(i)));
                assert(rest.skip(i + 1) =~= content@.skip(end + 1));
                let sl = split_lines(rest);
                assert(sl == seq![strip_cr(rest.take(i))] + split_lines(rest.skip(i + 1)));
            } else {
                assert(line@ =~= rest);
                assert(content@.skip(n as int) =~= Seq::<u8>::empty());
            }
        }
        let ghost old_len = r@.len();
        r.push(line);
        proof {
            let i = end - start;
            let sl = split_lines(rest);
            assert(sl[0] == line@);
            if end < n {
                assert forall|q: int| 0 <= q < split_lines(content@.skip(end + 1)).len() implies
                    split_lines(content@)[r@.len() + q] == #[trigger] split_lines(content@.skip(end + 1))[q] by {
                    assert(sl[q + 1] == split_lines(rest.skip(i + 1))[q]);
                }
            } else {
                assert(split_lines(content@.skip(n as int)) =~= Seq::<Seq<u8>>::empty());
            }
        }
        start = if end < n { end + 1 } else { n };
    }
    assert(content@.skip(start as int) =~= Seq::<u8>::empty());
    r
}

/// The file's lines as text; an error if one of them is not valid UTF-8.
pub fn decode_lines(content: &[u8]) -> (r: KVResult<Vec<String>>)
    ensures
        match r {
            Ok(lines) => all_utf8(split_lines(content@)) && lines@.len() == split_lines(content@).len()
                && forall|i: int| 0 <= i < lines@.len() ==> (#[trigger] lines@[i])@ == decode_utf8(split_lines(content@)[i]),
            Err(e) => !all_utf8(split_lines(content@)) && (e matches KVError::Storage(msg)
                && msg@ == "Failed to read AOF line: stream did not contain valid UTF-8"@),
        },
{
    let framed = frame_lines(content);
    let ghost sl = split_lines(content@);
    let mut lines: Vec<String> = Vec::new();
    let mut i: usize = 0;
    while i < framed.len()
        invariant
            sl == split_lines(content@),
            framed@.len() == sl.len(),
            forall|q: int| 0 <= q < framed@.len() ==> (#[trigger] framed@[q])@ == sl[q],
            i <= framed@.len(),
            lines@.len() == i,
            forall|q: int| 0 <= q < i ==> #[trigger] valid_utf8(sl[q]),
            forall|q: int| 0 <= q < i ==> (#[trigger] lines@[q])@ == decode_utf8(sl[q]),
        decreases framed@.len() - i,
    {
        let bytes = framed[i].as_slice();
        assert(bytes@ == sl[i as int]);
        match text_from_utf8(bytes) {
            Some(s) => {
                lines.push(s);
            },
            None => {
                return Err(KVError::Storage("Failed to read AOF line: stream did not contain valid UTF-8".to_owned()));
            },
        }
        i = i + 1;
    }
    assert forall|q: int| 0 <= q < sl.len() implies valid_utf8(#[trigger] sl[q]) by {}
    Ok(lines)
}

/// `after` is `before` with database `db` holding `entries` and `logged`,
/// if any, queued for the file; nothing else changes.
pub open spec fn aof_write_effect(
    before: AOFStorage,
    after: AOFStorage,
    db: DatabaseId,
    entries: Map<Seq<char>, Entry>,
    logged: Option<AOFOperationView>,
) -> bool {
    &&& after.wf()
    &&& after.cache().db(db) == entries
    &&& after.cache().same_except(&before.cache(), db)
    &&& after.pending() == match logged {
        Some(op) => before.pending().push(op),
        None => before.pending(),
    }
    &&& after.path() == before.path()
    &&& after.spec_file_size() == before.spec_file_size()
    &&& match logged {
        Some(op) => entry_views(entries) == apply_view(entry_views(before.cache().db(db)), op),
        None => entries == before.cache().db(db),
    }
}

/// `after` is `before` with `ops` replayed into database `db`.
pub open spec fn aof_replay_effect(before: AOFStorage, after: AOFStorage, db: DatabaseId, ops: Seq<Option<AOFOperation>>) -> bool {
    &&& after.wf()
    &&& after.cache().db(db) == replay_ops(before.cache().db(db), ops)
    &&& after.cache().same_except(&before.cache(), db)
    &&& after.pending() == before.pending()
    &&& after.path() == before.path()
    &&& after.spec_file_size() == before.spec_file_size()
}

/// Replaying operations replays their views.
pub proof fn lemma_replay_views(m: Map<Seq<char>, Entry>, ops: Seq<AOFOperation>)
    ensures
        entry_views(replay_ops(m, ops.map_values(|o: AOFOperation| Some(o))))
            == replay_views(entry_views(m), op_views(ops)),
    decreases ops.len(),
{
    let wrapped = ops.map_values(|o: AOFOperation| Some(o));
    if ops.len() == 0 {
        assert(wrapped.len() == 0);
        assert(op_views(ops).len() == 0);
    } else {
        let p = ops.drop_last();
        lemma_replay_views(m, p);
        assert(wrapped.drop_last() =~= p.map_values(|o: AOFOperation| Some(o)));
        assert(op_views(ops).drop_last() =~= op_views(p));
        assert(wrapped.last() == Some(ops.last()));
        assert(op_views(ops).last() == ops.last()@);
        let before = replay_ops(m, p.map_values(|o: AOFOperation| Some(o)));
        match ops.last() {
            AOFOperation::Store { key, entry } => {
                assert(entry_views(before.insert(key@, entry)) =~= entry_views(before).insert(key@, entry@));
            },
            AOFOperation::Delete { key } => {
                assert(entry_views(before.remove(key@)) =~= entry_views(before).remove(key@));
            },
            AOFOperation::Clear => {
                assert(entry_views(Map::<Seq<char>, Entry>::empty()) =~= Map::<Seq<char>, EntryView>::empty());
            },
        }
    }
}

/// The views of the entries of a database.
pub open spec fn entry_views(m: Map<Seq<char>, Entry>) -> Map<Seq<char>, EntryView> {
    m.map_values(|e: Entry| e@)
}

/// The entries, as views, after applying `op`.
pub open spec fn apply_view(m: Map<Seq<char>, EntryView>, op: AOFOperationView) -> Map<Seq<char>, EntryView> {
    match op {
        AOFOperationView::Store { key, entry } => m.insert(key, entry),
        AOFOperationView::Delete { key } => m.remove(key),
        AOFOperationView::Clear => Map::empty(),
    }
}

/// The entries, as views, after applying `ops` in order.
pub open spec fn replay_views(m: Map<Seq<char>, EntryView>, ops: Seq<AOFOperationView>) -> Map<Seq<char>, EntryView>
    decreases ops.len(),
{
    if ops.len() == 0 {
        m
    } else {
        apply_view(replay_views(m, ops.drop_last()), ops.last())
    }
}

/// The in-memory half of the AOF storage: the cached entries and the
/// operations not yet appended to the file.
pub struct AOFStorage {
    /// In-memory cache of data.
    cache: MemoryStorage,
    /// AOF file path.
    aof_path: String,
    /// Sync interval in seconds.
    sync_interval: u64,
    /// Operations to append to the file, oldest first.
    pending: Vec<AOFOperation>,
    /// Size of the file in bytes, as last measured.
    file_size: u64,
}

impl AOFStorage {
    /// The cached entries.
    pub closed spec fn cache(&self) -> MemoryStorage {
        self.cache
    }

    /// The operations not yet appended, oldest first.
    pub closed spec fn pending(&self) -> Seq<AOFOperationView> {
        op_views(self.pending@)
    }

    /// The file path.
    pub closed spec fn path(&self) -> Seq<char> {
        self.aof_path@
    }

    /// The interval, in seconds, at which the file is synced.
    pub closed spec fn spec_sync_interval(&self) -> u64 {
        self.sync_interval
    }

    /// The measured file size.
    pub closed spec fn spec_file_size(&self) -> u64 {
        self.file_size
    }

    /// The cache is well formed.
    pub open spec fn wf(&self) -> bool {
        self.cache().wf()
    }

    /// A storage for the file at `aof_path`, with nothing cached yet.
    pub fn new(aof_path: &str) -> (s: Self)
        ensures
            s.wf(),
            s.path() == aof_path@,
            forall|db: DatabaseId| #[trigger] s.cache().db(db) == Map::<Seq<char>, Entry>::empty(),
            forall|db: DatabaseId| #[trigger] s.cache().key_order(db) == Seq::<Seq<char>>::empty(),
            s.pending() == Seq::<AOFOperationView>::empty(),
            s.spec_file_size() == 0,
            s.spec_sync_interval() == 1,
    {
        let s = AOFStorage {
            cache: MemoryStorage::new(),
            aof_path: aof_path.to_owned(),
            sync_interval: 1,
            pending: Vec::new(),
            file_size: 0,
        };
        assert(s.pending() =~= Seq::<AOFOperationView>::empty());
        s
    }

    /// The file path.
    pub fn aof_path(&self) -> (p: &String)
        ensures
            p@ == self.path(),
    {
        &self.aof_path
    }

    /// The sync interval in seconds.
    pub fn sync_interval(&self) -> (secs: u64)
        ensures
            secs == self.spec_sync_interval(),
    {
        self.sync_interval
    }

    /// Applies the operations read back from the file of database `db`, in
    /// order, to that database (the file holds one database and does not
    /// name it); `None` marks a line that could not be read, which is
    /// skipped. Nothing is queued.
    pub fn replay(&mut self, db: DatabaseId, ops: Vec<Option<AOFOperation>>)
        requires
            old(self).wf(),
        ensures
            aof_replay_effect(*old(self), *final(self), db, ops@),
    {
        let ghost all = ops@;
        let mut ops = ops;
        let ghost mut done: int = 0;
        let ghost start = self.cache;
        while ops.len() > 0
            invariant
                self.wf(),
                0 <= done <= all.len(),
                ops@ == all.skip(done),
                self.cache().db(db) == replay_ops(start.db(db), all.take(done)),
                self.cache().same_except(&start, db),
                self.pending() == old(self).pending(),
                self.path() == old(self).path(),
                self.spec_file_size() == old(self).spec_file_size(),
            decreases ops@.len(),
        {
            let op = ops.remove(0);
            proof {
                assert(all.skip(done)[0] == op);
                assert(all.take(done + 1).drop_last() =~= all.take(done));
                assert(all.take(done + 1).last() == op);
                assert(all.skip(done + 1) =~= all.skip(done).drop_first());
            }
            let ghost before = self.cache;
            match op {
                Some(AOFOperation::Store { key, entry }) => {
                    let _ = self.cache.set(db, key, entry);
                },
                Some(AOFOperation::Delete { key }) => {
                    let _ = self.cache.delete(db, &key);
                },
                Some(AOFOperation::Clear) => {
                    let _ = self.cache.clear_database(db);
                },
                None => {},
            }
            proof {
                MemoryStorage::lemma_same_except_trans(&self.cache, &before, &start, db);
                done = done + 1;
            }
        }
        assert(all.take(all.len() as int) =~= all);
    }

    /// Takes the operations not yet appended, oldest first.
    pub fn take_pending(&mut self) -> (ops: Vec<AOFOperation>)
        requires
            old(self).wf(),
        ensures
            final(self).wf(),
            op_views(ops@) == old(self).pending(),
            final(self).pending() == Seq::<AOFOperationView>::empty(),
            final(self).cache() == old(self).cache(),
            final(self).path() == old(self).path(),
            final(self).spec_file_size() == old(self).spec_file_size(),
    {
        let mut ops: Vec<AOFOperation> = Vec::new();
        std::mem::swap(&mut ops, &mut self.pending);
        assert(self.pending() =~= Seq::<AOFOperationView>::empty());
        ops
    }

    /// Records the size of the file.
    pub fn set_file_size(&mut self, bytes: u64)
        ensures
            final(self).spec_file_size() == bytes,
            final(self).cache() == old(self).cache(),
            final(self).pending() == old(self).pending(),
            final(self).path() == old(self).path(),
            final(self).wf() == old(self).wf(),
    {
        self.file_size = bytes;
    }

    /// The cached entry under `key` in database `db`.
    pub fn get(&self, db: DatabaseId, key: &Key) -> (r: KVResult<Option<Entry>>)
        requires
            self.wf(),
        ensures
            r matches Ok(found) && match found {
                Some(e) => self.cache().db(db).contains_key(key@) && e@ == self.cache().db(db)[key@]@,
                None => !self.cache().db(db).contains_key(key@),
            },
    {
        self.cache.get(db, key)
    }

    /// Caches `entry` under `key` and queues the write.
    pub fn set(&mut self, db: DatabaseId, key: Key, entry: Entry) -> (r: KVResult<()>)
        requires
            old(self).wf(),
        ensures
            r is Ok,
            aof_write_effect(*old(self), *final(self), db, apply_op(old(self).cache().db(db), AOFOperation::Store { key, entry }),
                Some(AOFOperationView::Store { key: key@, entry: entry@ })),
    {
        let logged = AOFOperation::Store { key: key.clone(), entry: entry.clone() };
        let ghost m = old(self).cache().db(db);
        assert(entry_views(m.insert(key@, entry)) =~= entry_views(m).insert(key@, entry@));
        let _ = self.cache.set(db, key, entry);
        self.pending.push(logged);
        assert(self.pending() =~= old(self).pending().push(logged@));
        Ok(())
    }

    /// Deletes `key`; the deletion is queued only if the key was there.
    pub fn delete(&mut self, db: DatabaseId, key: &Key) -> (r: KVResult<bool>)
        requires
            old(self).wf(),
        ensures
            r == Ok::<bool, KVError>(old(self).cache().db(db).contains_key(key@)),
            aof_write_effect(*old(self), *final(self), db, old(self).cache().db(db).remove(key@),
                if old(self).cache().db(db).contains_key(key@) {
                    Some(AOFOperationView::Delete { key: key@ })
                } else {
                    None
                }),
    {
        let ghost m = old(self).cache().db(db);
        assert(entry_views(m.remove(key@)) =~= entry_views(m).remove(key@));
        assert(!m.contains_key(key@) ==> m.remove(key@) =~= m);
        let existed = match self.cache.delete(db, key) {
            Ok(b) => b,
            Err(e) => return Err(e),
        };
        if existed {
            let logged = AOFOperation::Delete { key: key.clone() };
            self.pending.push(logged);
            assert(self.pending() =~= old(self).pending().push(logged@));
        }
        Ok(existed)
    }

    /// Whether `key` is cached in database `db`.
    pub fn key_exists(&self, db: DatabaseId, key: &Key) -> (r: KVResult<bool>)
        requires
            self.wf(),
        ensures
            r == Ok::<bool, KVError>(self.cache().db(db).contains_key(key@)),
    {
        self.cache.key_exists(db, key)
    }

    /// The keys of database `db`.
    pub fn keys(&self, db: DatabaseId) -> (r: KVResult<Vec<Key>>)
        requires
            self.wf(),
        ensures
            r matches Ok(ks) && string_views(ks@) == self.cache().key_order(db),
    {
        self.cache.keys(db)
    }

    /// The keys of database `db` that match `pattern`.
    pub fn keys_pattern(&self, db: DatabaseId, pattern: &str) -> (r: KVResult<Vec<Key>>)
        requires
            self.wf(),
        ensures
            r matches Ok(ks) && string_views(ks@) == keys_matching(self.cache().key_order(db), pattern@),
    {
        self.cache.keys_pattern(db, pattern)
    }

    /// Clears database `db` and queues a clear (always).
    pub fn clear_database(&mut self, db: DatabaseId) -> (r: KVResult<()>)
        requires
            old(self).wf(),
        ensures
            r is Ok,
            aof_write_effect(*old(self), *final(self), db, Map::<Seq<char>, Entry>::empty(), Some(AOFOperationView::Clear)),
    {
        assert(entry_views(Map::<Seq<char>, Entry>::empty()) =~= Map::<Seq<char>, EntryView>::empty());
        let _ = self.cache.clear_database(db);
        self.pending.push(AOFOperation::Clear);
        assert(self.pending() =~= old(self).pending().push(AOFOperationView::Clear));
        Ok(())
    }

    /// Statistics of database `db`: its number of keys, the size of its
    /// table, and the file size (0 for a database never written).
    pub fn get_stats(&self, db: DatabaseId) -> (r: KVResult<StorageStats>)
        requires
            self.wf(),
        ensures
            r matches Ok(st) && st.total_keys == self.cache().db(db).len()
                && st.disk_usage == Some(if self.cache().has_db(db) { self.spec_file_size() } else { 0 })
                && st.memory_usage == self.cache().table_bytes(db)
                && (!self.cache().has_db(db) ==> st.memory_usage == 0)
                && st.last_flush is None,
    {
        let st = match self.cache.get_stats(db) {
            Ok(st) => st,
            Err(e) => return Err(e),
        };
        let disk = if self.cache.has_database(db) { self.file_size } else { 0 };
        Ok(StorageStats { total_keys: st.total_keys, memory_usage: st.memory_usage, disk_usage: Some(disk), last_flush: None })
    }
}

} // verus!
