//! The KV engine: storage per database, TTLs, cache invalidation events
//! and statistics, behind one set of operations.

use vstd::prelude::*;
use crate::encryption::{KeyManager, base64_decoded};
use crate::error::{KVError, KVResult, join_text};
use crate::pubsub::{ChannelPattern, ChannelPatternView, MessageView, PatternSubscriptions, PubSubManager, PubSubStats, Subscription, add_subscription,
    exact_groups, group_position, has_group, prune_inactive, publish_effect, total_subscriptions};
use crate::ttl::duration_subsec_nanos;
use crate::types::PubSubMessage;
use crate::storage::aof::{AOFOperationView, op_views};
use crate::storage::backend::{PendingWrites, StorageBackend, StorageFactory};
use crate::storage::disk::{DISK_DATABASES, range_err, write_views};
use crate::storage::memory::{DATABASE_SLOTS, keys_matching, string_views};
use crate::time::{Timestamp, MAX_TIMESTAMP, expiry_after, now_millis};
use crate::ttl::{TTLManager, duration_as_secs, duration_from_secs, duration_secs, key_views, ttl_at, unexpired};
use crate::types::{DatabaseId, Entry, EntryView, Key, KVConfig, KVStats, PersistenceMode, TTL, Value, ValueView, expired_at};

verus! {

/// A moment of the monotonic clock.
#[verifier::external_type_specification]
#[verifier::external_body]
pub struct ExInstant(std::time::Instant);

/// `Instant::now`: the current moment of the monotonic clock. Nothing is
/// stated of it.
#[verifier::external_body]
fn instant_now() -> (t: std::time::Instant) {
    std::time::Instant::now()
}

/// `Instant::elapsed`: the time since `start`. It depends on the clock and
/// nothing is stated of it.
#[verifier::external_body]
fn elapsed_since(start: &std::time::Instant) -> (d: std::time::Duration) {
    start.elapsed()
}

/// One more than `n`, staying at `u64::MAX`.
pub open spec fn bump(n: u64) -> u64 {
    if n < u64::MAX {
        (n + 1) as u64
    } else {
        n
    }
}

/// The channel on which changes of `key` are announced.
pub open spec fn invalidation_channel(key: Seq<char>) -> Seq<char> {
    "cache:invalidate:"@ + key
}

/// An entry after one more access at `now`.
pub open spec fn touched(e: EntryView, now: Timestamp) -> EntryView {
    EntryView {
        value: e.value,
        created_at: e.created_at,
        expires_at: e.expires_at,
        access_count: bump(e.access_count),
        last_accessed: now,
    }
}

/// The message announcing a change of `key`.
pub open spec fn invalidation_message(key: Seq<char>) -> ValueView {
    ValueView::String("invalidate:"@ + key)
}

/// `after` is what publishing `message` on `channel` at some time leaves
/// of the subscriptions `before`, `made` being the offers it made (see
/// `publish_effect`).
pub open spec fn published(
    before: Seq<PatternSubscriptions>,
    after: Seq<PatternSubscriptions>,
    made: Seq<(Subscription, bool)>,
    channel: Seq<char>,
    message: ValueView,
) -> bool {
    exists|now: Timestamp, r: KVResult<usize>| #![trigger publish_effect(before, after, made, channel, message, now, r)]
        publish_effect(before, after, made, channel, message, now, r)
}

/// An entry whose expiry becomes `expires_at`.
pub open spec fn with_expiry(e: EntryView, expires_at: Option<Timestamp>) -> EntryView {
    EntryView {
        value: e.value,
        created_at: e.created_at,
        expires_at,
        access_count: e.access_count,
        last_accessed: e.last_accessed,
    }
}

/// `after` differs from `before` at most by the storage of database `db`
/// having been opened: the same entries, TTLs and subscriptions.
pub open spec fn same_contents(before: KVEngine, after: KVEngine, db: DatabaseId) -> bool {
    &&& after.wf()
    &&& after.same_settings(&before)
    &&& after.has_storage(db)
    &&& forall|d: DatabaseId| #[trigger] after.store(d) == before.store(d) && after.key_order(d) == before.key_order(d)
    &&& forall|d: DatabaseId| d != db ==> #[trigger] after.has_storage(d) == before.has_storage(d)
    &&& after.ttls() == before.ttls()
    &&& after.subscriptions() == before.subscriptions()
}

/// `after` is `before` after one counted operation that changed nothing
/// else (but opened the storage of `db`).
pub open spec fn counted_only(before: KVEngine, after: KVEngine, db: DatabaseId) -> bool {
    &&& same_contents(before, after, db)
    &&& after.operations() == bump(before.operations())
}

/// The storage of `db` refused the request because it does not serve
/// database `db`, and nothing changed but the storage being opened.
pub open spec fn refused<T>(before: KVEngine, after: KVEngine, db: DatabaseId, r: KVResult<T>) -> bool {
    &&& !before.serves(db)
    &&& range_err(r, db)
    &&& same_contents(before, after, db)
    &&& after.operations() == before.operations()
}

/// The frame of an operation that changes database `db` of `before`.
pub open spec fn changes_db(before: KVEngine, after: KVEngine, db: DatabaseId) -> bool {
    &&& after.wf()
    &&& after.same_settings(&before)
    &&& after.has_storage(db)
    &&& after.same_other_databases(&before, db)
}

/// What storing `entry` under `key` in database `db` does, with the TTL
/// `ttl` counted from `now`.
pub open spec fn set_effect(before: KVEngine, after: KVEngine, db: DatabaseId, key: Seq<char>, entry: Entry, ttl: Option<TTL>, now: Timestamp, r: KVResult<()>) -> bool {
    if before.serves(db) {
        &&& r is Ok
        &&& changes_db(before, after, db)
        &&& after.store(db) == before.store(db).insert(key, entry)
        &&& after.ttls() == match ttl {
            Some(t) => before.ttls().insert(key, expiry_after(now, t)),
            None => before.ttls(),
        }
        &&& published(before.subscriptions(), after.subscriptions(), after.last_offers(), invalidation_channel(key), invalidation_message(key))
        &&& after.operations() == bump(before.operations())
    } else {
        refused(before, after, db, r)
    }
}

/// What deleting `key` from database `db` does.
pub open spec fn delete_effect(before: KVEngine, after: KVEngine, db: DatabaseId, key: Seq<char>, r: KVResult<bool>) -> bool {
    if before.serves(db) {
        let present = before.store(db).contains_key(key);
        &&& r == Ok::<bool, KVError>(present)
        &&& changes_db(before, after, db)
        &&& after.store(db) == before.store(db).remove(key)
        &&& present ==> after.ttls() == before.ttls().remove(key)
            && published(before.subscriptions(), after.subscriptions(), after.last_offers(), invalidation_channel(key), invalidation_message(key))
        &&& !present ==> after.ttls() == before.ttls() && after.subscriptions() == before.subscriptions()
        &&& after.operations() == bump(before.operations())
    } else {
        refused(before, after, db, r)
    }
}

/// What reading `key` from database `db` at `now` does: a missing key
/// reads as `None`; an expired one is deleted and reads as `None`; any
/// other is counted as accessed and its value read.
pub open spec fn get_effect(before: KVEngine, after: KVEngine, db: DatabaseId, key: Seq<char>, now: Timestamp, r: KVResult<Option<Value>>) -> bool {
    if !before.serves(db) {
        refused(before, after, db, r)
    } else if !before.store(db).contains_key(key) {
        r == Ok::<Option<Value>, KVError>(None) && counted_only(before, after, db)
    } else if expired_at(before.store(db)[key].expires_at, now) {
        &&& r == Ok::<Option<Value>, KVError>(None)
        &&& delete_effect(before, after, db, key, Ok(true))
    } else {
        &&& r matches Ok(Some(v)) && v@ == before.store(db)[key].value@
        &&& changes_db(before, after, db)
        &&& after.entries(db) == before.entries(db).insert(key, touched(before.entries(db)[key], now))
        &&& after.ttls() == before.ttls()
        &&& after.subscriptions() == before.subscriptions()
        &&& after.operations() == bump(before.operations())
    }
}

/// What setting the TTL of `key` in database `db` to `ttl` seconds after
/// `now` does: nothing for a missing key (but count the lookup); else the
/// entry and the TTL index get the new expiry, and two operations count.
pub open spec fn expire_effect(before: KVEngine, after: KVEngine, db: DatabaseId, key: Seq<char>, ttl: TTL, now: Timestamp, r: KVResult<bool>) -> bool {
    if !before.serves(db) {
        refused(before, after, db, r)
    } else if !before.store(db).contains_key(key) {
        r == Ok::<bool, KVError>(false) && counted_only(before, after, db)
    } else {
        &&& r == Ok::<bool, KVError>(true)
        &&& changes_db(before, after, db)
        &&& after.entries(db) == before.entries(db).insert(key, with_expiry(before.entries(db)[key], Some(expiry_after(now, ttl))))
        &&& after.ttls() == before.ttls().insert(key, expiry_after(now, ttl))
        &&& after.subscriptions() == before.subscriptions()
        &&& after.operations() == bump(bump(before.operations()))
    }
}

/// What clearing database `db` does: its keys go, and so do the TTLs of
/// those keys.
pub open spec fn clear_effect(before: KVEngine, after: KVEngine, db: DatabaseId, r: KVResult<()>) -> bool {
    if before.serves(db) {
        &&& r is Ok
        &&& changes_db(before, after, db)
        &&& after.store(db) == Map::<Seq<char>, Entry>::empty()
        &&& after.ttls() == before.ttls().remove_keys(before.store(db).dom())
        &&& after.subscriptions() == before.subscriptions()
        &&& after.operations() == bump(before.operations())
    } else {
        refused(before, after, db, r)
    }
}

/// What removing the keys whose TTL passed before `now` does, `expired`
/// being the keys removed.
pub open spec fn sweep_effect(before: KVEngine, after: KVEngine, now: Timestamp, expired: Seq<Seq<char>>) -> bool {
    &&& after.wf()
    &&& after.same_settings(&before)
    &&& forall|k: Seq<char>| #[trigger] expired.contains(k) <==> before.ttls().contains_key(k) && before.ttls()[k] < now
    &&& after.ttls() == unexpired(before.ttls(), now)
    &&& forall|d: DatabaseId| #[trigger] after.has_storage(d) == before.has_storage(d)
    &&& forall|d: DatabaseId| #[trigger] after.store(d) == if before.serves(d) {
        without_keys(before.store(d), expired)
    } else {
        before.store(d)
    }
    &&& after.subscriptions() == before.subscriptions()
    &&& after.operations() == before.operations()
}

/// Whether backend `b` is the kind that persistence mode `mode` uses.
pub open spec fn fits_mode(b: StorageBackend, mode: PersistenceMode) -> bool {
    match mode {
        PersistenceMode::Memory => b is Memory,
        PersistenceMode::AOF | PersistenceMode::Hybrid => b is Aof,
        PersistenceMode::Full => b is Disk,
    }
}

/// Whether backend `b` is the kind that `mode` uses.
pub fn backend_fits(b: &StorageBackend, mode: PersistenceMode) -> (r: bool)
    ensures
        r == fits_mode(*b, mode),
{
    match (mode, b) {
        (PersistenceMode::Memory, StorageBackend::Memory(_)) => true,
        (PersistenceMode::AOF, StorageBackend::Aof(_)) => true,
        (PersistenceMode::Hybrid, StorageBackend::Aof(_)) => true,
        (PersistenceMode::Full, StorageBackend::Disk(_)) => true,
        _ => false,
    }
}

/// A slot is empty or holds a well-formed backend of the mode's kind.
pub open spec fn slot_fits(o: Option<StorageBackend>, mode: PersistenceMode) -> bool {
    match o {
        Some(b) => b.wf() && fits_mode(b, mode),
        None => true,
    }
}

/// Records one more access of `e` at `now` (the count stays at `u64::MAX`).
fn record_access(e: &mut Entry, now: Timestamp)
    ensures
        final(e)@ == touched(old(e)@, now),
{
    if e.access_count < u64::MAX {
        e.touch_at(now);
    } else {
        e.last_accessed = now;
    }
}

/// `m` without the keys listed in `ks`.
pub open spec fn without_keys(m: Map<Seq<char>, Entry>, ks: Seq<Seq<char>>) -> Map<Seq<char>, Entry> {
    m.remove_keys(ks.to_set())
}

/// The main KV engine.
pub struct KVEngine {
    /// Configuration.
    config: KVConfig,
    /// The storage of each database id, once it has been used.
    storages: Vec<Option<StorageBackend>>,
    /// Encryption key manager.
    key_manager: KeyManager,
    /// TTL manager.
    ttl_manager: TTLManager,
    /// Pub/sub manager.
    pubsub_manager: PubSubManager,
    /// Statistics.
    stats: KVStats,
    /// Start time for the uptime.
    start_time: std::time::Instant,
}

impl KVEngine {
    /// The storage of database `db`, if it has been opened.
    pub closed spec fn slot(&self, db: DatabaseId) -> Option<StorageBackend> {
        self.storages@[db as int]
    }

    /// Whether the storage of database `db` has been opened.
    pub open spec fn has_storage(&self, db: DatabaseId) -> bool {
        self.slot(db) is Some
    }

    /// The entries of database `db`.
    pub open spec fn store(&self, db: DatabaseId) -> Map<Seq<char>, Entry> {
        match self.slot(db) {
            Some(b) => b.data(db),
            None => Map::empty(),
        }
    }

    /// The entries of database `db`, as seen by specifications.
    pub open spec fn entries(&self, db: DatabaseId) -> Map<Seq<char>, EntryView> {
        self.store(db).map_values(|e: Entry| e@)
    }

    /// The keys of database `db`, in listing order.
    pub open spec fn key_order(&self, db: DatabaseId) -> Seq<Seq<char>> {
        match self.slot(db) {
            Some(b) => b.order(db),
            None => Seq::empty(),
        }
    }

    /// The persistence mode.
    pub closed spec fn mode(&self) -> PersistenceMode {
        self.config.persistence_mode
    }

    /// The data directory.
    pub closed spec fn spec_data_dir(&self) -> Seq<char> {
        self.config.data_dir@
    }

    /// Whether the engine's storage serves database `db` (the disk store
    /// holds sixteen databases).
    pub open spec fn serves(&self, db: DatabaseId) -> bool {
        !(self.mode() is Full) || db < DISK_DATABASES
    }

    /// Each key with a TTL, with its expiry time.
    pub closed spec fn ttls(&self) -> Map<Seq<char>, Timestamp> {
        self.ttl_manager@
    }

    /// The subscriptions, pattern by pattern.
    pub closed spec fn subscriptions(&self) -> Seq<PatternSubscriptions> {
        self.pubsub_manager@
    }

    /// The offers made by the last publish (see `PubSubManager::last_offers`).
    pub closed spec fn last_offers(&self) -> Seq<(Subscription, bool)> {
        self.pubsub_manager.last_offers()
    }

    /// The number of operations performed.
    pub closed spec fn operations(&self) -> u64 {
        self.stats.total_operations
    }

    /// The recorded statistics.
    pub closed spec fn recorded(&self) -> KVStats {
        self.stats
    }

    /// The interval between TTL checks.
    pub closed spec fn ttl_check_interval(&self) -> std::time::Duration {
        self.ttl_manager.spec_check_interval()
    }

    /// Everything but the storages is as in `other`.
    closed spec fn same_services(&self, other: &Self) -> bool {
        &&& self.config == other.config
        &&& self.key_manager == other.key_manager
        &&& self.ttl_manager == other.ttl_manager
        &&& self.pubsub_manager == other.pubsub_manager
        &&& self.stats == other.stats
        &&& self.start_time == other.start_time
    }

    /// How long a subscription stays active without activity.
    pub closed spec fn subscription_timeout(&self) -> std::time::Duration {
        self.pubsub_manager.spec_subscription_timeout()
    }

    /// The interval between cleanups of inactive subscriptions.
    pub closed spec fn spec_subscription_cleanup_interval(&self) -> std::time::Duration {
        self.pubsub_manager.spec_cleanup_interval()
    }

    /// Everything but the subscriptions is as in `other`.
    pub closed spec fn same_services_but_subscriptions(&self, other: &Self) -> bool {
        &&& self.config == other.config
        &&& self.storages@ == other.storages@
        &&& self.key_manager == other.key_manager
        &&& self.ttl_manager == other.ttl_manager
        &&& self.stats == other.stats
        &&& self.start_time == other.start_time
        &&& self.pubsub_manager.spec_cleanup_interval() == other.pubsub_manager.spec_cleanup_interval()
        &&& self.pubsub_manager.spec_subscription_timeout() == other.pubsub_manager.spec_subscription_timeout()
    }

    /// The key manager.
    pub closed spec fn keys_held(&self) -> KeyManager {
        self.key_manager
    }

    /// One slot per database id, each empty or holding a well-formed
    /// backend of the mode's kind; the TTL and pub/sub managers are well
    /// formed.
    pub closed spec fn wf(&self) -> bool {
        &&& self.storages@.len() == DATABASE_SLOTS
        &&& forall|i: int| 0 <= i < DATABASE_SLOTS ==> slot_fits(#[trigger] self.storages@[i], self.config.persistence_mode)
        &&& self.ttl_manager.wf()
        &&& self.pubsub_manager.wf()
        &&& self.key_manager.wf()
    }

    /// The number of keys in the databases below `n` that the engine
    /// serves.
    pub open spec fn key_total(&self, n: nat) -> nat
        decreases n,
    {
        if n == 0 {
            0
        } else {
            self.key_total((n - 1) as nat) + if self.serves((n - 1) as DatabaseId) {
                self.store((n - 1) as DatabaseId).len()
            } else {
                0nat
            }
        }
    }

    /// The disk usage that the storages of the databases below `n` that the
    /// engine serves report.
    pub open spec fn disk_total(&self, n: nat) -> nat
        decreases n,
    {
        if n == 0 {
            0
        } else {
            let db = (n - 1) as DatabaseId;
            self.disk_total((n - 1) as nat) + match self.slot(db) {
                Some(b) => if self.serves(db) {
                    match b.disk_usage(db) {
                        Some(x) => x as nat,
                        None => 0nat,
                    }
                } else {
                    0nat
                },
                None => 0nat,
            }
        }
    }

    /// The memory usage that the storages of the databases below `n` that
    /// the engine serves report.
    pub open spec fn memory_total(&self, n: nat) -> nat
        decreases n,
    {
        if n == 0 {
            0
        } else {
            let db = (n - 1) as DatabaseId;
            self.memory_total((n - 1) as nat) + match self.slot(db) {
                Some(b) => if self.serves(db) { b.memory_usage(db) } else { 0nat },
                None => 0nat,
            }
        }
    }

    /// The databases other than `db` are as in `other`.
    pub open spec fn same_other_databases(&self, other: &Self, db: DatabaseId) -> bool {
        forall|d: DatabaseId| d != db ==> #[trigger] self.store(d) == other.store(d) && self.key_order(d) == other.key_order(d)
            && self.has_storage(d) == other.has_storage(d)
    }

    /// The settings are as in `other`.
    pub open spec fn same_settings(&self, other: &Self) -> bool {
        &&& self.mode() == other.mode()
        &&& self.spec_data_dir() == other.spec_data_dir()
    }

    /// The keys of a database list each of its keys once.
    pub proof fn lemma_key_order(&self, db: DatabaseId)
        requires
            self.wf(),
        ensures
            self.key_order(db).no_duplicates(),
            self.key_order(db).to_set() == self.store(db).dom(),
            self.key_order(db).len() == self.store(db).len(),
    {
        match self.slot(db) {
            Some(b) => {
                assert(slot_fits(self.storages@[db as int], self.config.persistence_mode));
                b.lemma_order(db);
            },
            None => {
                assert(Seq::<Seq<char>>::empty().to_set() =~= Set::<Seq<char>>::empty());
            },
        }
    }

    /// Engines whose slots other than `db` agree hold the same other databases.
    proof fn lemma_other_slots(a: &Self, b: &Self, db: DatabaseId)
        requires
            forall|d: DatabaseId| d != db ==> #[trigger] a.slot(d) == b.slot(d),
        ensures
            a.same_other_databases(b, db),
    {
        assert forall|d: DatabaseId| d != db implies #[trigger] a.store(d) == b.store(d) && a.key_order(d) == b.key_order(d)
            && a.has_storage(d) == b.has_storage(d) by {
            assert(a.slot(d) == b.slot(d));
        }
    }

    /// Engines that agree on every slot but that of `db`, and on the
    /// entries and key order of `db`, hold the same databases.
    proof fn lemma_same_databases(a: &Self, b: &Self, db: DatabaseId)
        requires
            forall|d: DatabaseId| d != db ==> #[trigger] a.slot(d) == b.slot(d),
            a.store(db) == b.store(db),
            a.key_order(db) == b.key_order(db),
        ensures
            forall|d: DatabaseId| #[trigger] a.store(d) == b.store(d) && a.key_order(d) == b.key_order(d),
            forall|d: DatabaseId| d != db ==> #[trigger] a.has_storage(d) == b.has_storage(d),
    {
        assert forall|d: DatabaseId| #[trigger] a.store(d) == b.store(d) && a.key_order(d) == b.key_order(d) by {
            if d != db {
                assert(a.slot(d) == b.slot(d));
            }
        }
        assert forall|d: DatabaseId| d != db implies #[trigger] a.has_storage(d) == b.has_storage(d) by {
            assert(a.slot(d) == b.slot(d));
        }
    }

    /// A backend of the mode's kind serves `db` exactly when the engine does.
    proof fn lemma_accepts(&self, db: DatabaseId, b: StorageBackend)
        requires
            fits_mode(b, self.mode()),
        ensures
            b.accepts(db) == self.serves(db),
    {
    }

    /// Creates an engine for `config`: its key manager (failing as
    /// `KeyManager::new` fails on `config.master_key`), no TTLs, no
    /// subscriptions, and no storage opened yet (each database's storage is
    /// opened on its first use, or installed once loaded from its files).
    pub fn new(config: KVConfig) -> (r: KVResult<Self>)
        ensures
            match r {
                Ok(e) => {
                    &&& e.wf()
                    &&& e.mode() == config.persistence_mode
                    &&& e.spec_data_dir() == config.data_dir@
                    &&& forall|d: DatabaseId| !#[trigger] e.has_storage(d)
                    &&& forall|d: DatabaseId| #[trigger] e.store(d) == Map::<Seq<char>, Entry>::empty()
                    &&& e.ttls() == Map::<Seq<char>, Timestamp>::empty()
                    &&& e.subscriptions() == Seq::<PatternSubscriptions>::empty()
                    &&& e.operations() == 0
                    &&& duration_secs(e.ttl_check_interval()) == config.expiration_check_interval
                    &&& config.master_key@.len() > 0 ==> base64_decoded(config.master_key@) == Some(e.keys_held().master())
                    &&& config.master_key@.len() == 0 ==> e.keys_held().master().len() == 32
                },
                Err(err) => err is Encryption,
            },
            config.master_key@.len() > 0 ==> (r is Ok <==> base64_decoded(config.master_key@) is Some),
    {
        let key_manager = match KeyManager::new(config.master_key.as_str()) {
            Ok(km) => km,
            Err(e) => return Err(e),
        };
        let ttl_manager = TTLManager::new(duration_from_secs(config.expiration_check_interval));
        let pubsub_manager = PubSubManager::default();
        let mut storages: Vec<Option<StorageBackend>> = Vec::new();
        let mut i: usize = 0;
        while i < DATABASE_SLOTS
            invariant
                i <= DATABASE_SLOTS,
                storages@.len() == i,
                forall|j: int| 0 <= j < i ==> (#[trigger] storages@[j]) is None,
            decreases DATABASE_SLOTS - i,
        {
            storages.push(None);
            i = i + 1;
        }
        let stats = KVStats {
            total_keys: 0,
            expired_keys: 0,
            memory_usage: 0,
            disk_usage: 0,
            total_operations: 0,
            uptime: 0,
            active_connections: 0,
        };
        let engine = KVEngine {
            config,
            storages,
            key_manager,
            ttl_manager,
            pubsub_manager,
            stats,
            start_time: instant_now(),
        };
        assert(forall|d: DatabaseId| #[trigger] engine.store(d) == Map::<Seq<char>, Entry>::empty());
        assert(forall|d: DatabaseId| !#[trigger] engine.has_storage(d));
        Ok(engine)
    }

    /// Takes the backend of database `db` out of its slot.
    fn take_backend(&mut self, db: DatabaseId) -> (b: StorageBackend)
        requires
            old(self).wf(),
            old(self).has_storage(db),
        ensures
            final(self).wf(),
            Some(b) == old(self).slot(db),
            b.wf(),
            fits_mode(b, old(self).mode()),
            final(self).storages@ == old(self).storages@.update(db as int, None),
            final(self).same_services(&*old(self)),
    {
        assert(slot_fits(self.storages@[db as int], self.config.persistence_mode));
        let mut slot: Option<StorageBackend> = None;
        std::mem::swap(&mut slot, &mut self.storages[db as usize]);
        match slot {
            Some(b) => b,
            None => {
                assert(false);
                StorageBackend::Memory(crate::storage::memory::MemoryStorage::new())
            },
        }
    }

    /// Puts `b` in the slot of database `db`.
    fn put_backend(&mut self, db: DatabaseId, b: StorageBackend)
        requires
            old(self).wf(),
            b.wf(),
            fits_mode(b, old(self).mode()),
        ensures
            final(self).wf(),
            final(self).storages@ == old(self).storages@.update(db as int, Some(b)),
            final(self).slot(db) == Some(b),
            final(self).same_services(&*old(self)),
    {
        self.storages.set(db as usize, Some(b));
        assert forall|i: int| 0 <= i < DATABASE_SLOTS implies slot_fits(#[trigger] self.storages@[i], self.config.persistence_mode) by {
            if i != db as int {
                assert(self.storages@[i] == old(self).storages@[i]);
            }
        }
    }

    /// Counts one operation and refreshes the uptime.
    fn update_stats(&mut self)
        requires
            old(self).wf(),
        ensures
            final(self).wf(),
            final(self).storages@ == old(self).storages@,
            final(self).config == old(self).config,
            final(self).key_manager == old(self).key_manager,
            final(self).ttl_manager == old(self).ttl_manager,
            final(self).pubsub_manager == old(self).pubsub_manager,
            final(self).start_time == old(self).start_time,
            final(self).stats.total_operations == bump(old(self).stats.total_operations),
            final(self).stats.total_keys == old(self).stats.total_keys,
            final(self).stats.expired_keys == old(self).stats.expired_keys,
            final(self).stats.memory_usage == old(self).stats.memory_usage,
            final(self).stats.disk_usage == old(self).stats.disk_usage,
            final(self).stats.active_connections == old(self).stats.active_connections,
    {
        self.stats.total_operations = self.stats.total_operations.saturating_add(1);
        let elapsed = elapsed_since(&self.start_time);
        self.stats.uptime = duration_as_secs(&elapsed);
    }

    /// Announces on the invalidation channel of `key` that it changed.
    fn publish_invalidation(&mut self, key: &Key)
        requires
            old(self).wf(),
        ensures
            final(self).wf(),
            published(old(self).subscriptions(), final(self).subscriptions(), final(self).last_offers(), invalidation_channel(key@),
                invalidation_message(key@)),
            final(self).storages@ == old(self).storages@,
            final(self).config == old(self).config,
            final(self).key_manager == old(self).key_manager,
            final(self).ttl_manager == old(self).ttl_manager,
            final(self).stats == old(self).stats,
            final(self).start_time == old(self).start_time,
    {
        let channel = join_text("cache:invalidate:", key.as_str());
        let message = Value::String(join_text("invalidate:", key.as_str()));
        proof {
            reveal_strlit("cache:invalidate:");
        }
        let r = self.pubsub_manager.publish(channel.as_str(), message);
        proof {
            let now = choose|now: Timestamp| 0 <= now <= MAX_TIMESTAMP
                && #[trigger] publish_effect(old(self).subscriptions(), self.subscriptions(), self.last_offers(), channel@,
                invalidation_message(key@), now, r);
            assert(publish_effect(old(self).subscriptions(), self.subscriptions(), self.last_offers(), invalidation_channel(key@),
                invalidation_message(key@), now, r));
        }
    }

    /// Opens the storage of database `db` if needed and takes it out of its
    /// slot.
    fn open_backend(&mut self, db: DatabaseId) -> (b: StorageBackend)
        requires
            old(self).wf(),
        ensures
            final(self).wf(),
            b.wf(),
            fits_mode(b, old(self).mode()),
            b.accepts(db) == old(self).serves(db),
            b.data(db) == old(self).store(db),
            b.order(db) == old(self).key_order(db),
            final(self).slot(db) is None,
            forall|d: DatabaseId| d != db ==> #[trigger] final(self).slot(d) == old(self).slot(d),
            final(self).same_services(&*old(self)),
    {
        self.ensure_storage(db);
        let ghost opened = *self;
        let b = self.take_backend(db);
        proof {
            self.lemma_accepts(db, b);
            assert(opened.store(db) == old(self).store(db));
            assert(opened.key_order(db) == old(self).key_order(db));
            assert forall|d: DatabaseId| d != db implies #[trigger] self.slot(d) == old(self).slot(d) by {
                assert(self.storages@[d as int] == opened.storages@[d as int]);
                assert(opened.slot(d) == old(self).slot(d));
            }
        }
        b
    }

    /// Puts `b` back in the slot of database `db`.
    fn close_backend(&mut self, db: DatabaseId, b: StorageBackend)
        requires
            old(self).wf(),
            b.wf(),
            fits_mode(b, old(self).mode()),
        ensures
            final(self).wf(),
            final(self).slot(db) == Some(b),
            final(self).store(db) == b.data(db),
            final(self).key_order(db) == b.order(db),
            forall|d: DatabaseId| d != db ==> #[trigger] final(self).slot(d) == old(self).slot(d),
            final(self).same_services(&*old(self)),
    {
        self.put_backend(db, b);
        assert forall|d: DatabaseId| d != db implies #[trigger] self.slot(d) == old(self).slot(d) by {
            assert(self.storages@[d as int] == old(self).storages@[d as int]);
        }
    }

    /// Slots keep their contents when only the services change.
    proof fn lemma_slots_kept(a: &Self, b: &Self)
        requires
            a.storages@ == b.storages@,
        ensures
            forall|d: DatabaseId| #[trigger] a.slot(d) == b.slot(d),
    {
    }

    /// The backend of database `db`.
    fn backend(&self, db: DatabaseId) -> (b: &StorageBackend)
        requires
            self.wf(),
            self.has_storage(db),
        ensures
            self.slot(db) == Some(*b),
            b.wf(),
            b.accepts(db) == self.serves(db),
            b.data(db) == self.store(db),
            b.order(db) == self.key_order(db),
    {
        assert(slot_fits(self.storages@[db as int], self.config.persistence_mode));
        let b = self.storages[db as usize].as_ref().unwrap();
        proof {
            self.lemma_accepts(db, *b);
        }
        b
    }

    /// Opens the storage of database `db`, empty, unless it is open.
    fn ensure_storage(&mut self, db: DatabaseId)
        requires
            old(self).wf(),
        ensures
            final(self).wf(),
            final(self).has_storage(db),
            forall|d: DatabaseId| #[trigger] final(self).store(d) == old(self).store(d),
            forall|d: DatabaseId| #[trigger] final(self).key_order(d) == old(self).key_order(d),
            forall|d: DatabaseId| d != db ==> #[trigger] final(self).slot(d) == old(self).slot(d),
            old(self).has_storage(db) ==> final(self).slot(db) == old(self).slot(db),
            final(self).same_services(&*old(self)),
    {
        if self.storages[db as usize].is_some() {
            return;
        }
        let created = StorageFactory::create(self.config.persistence_mode, self.config.data_dir.as_str(), db);
        match created {
            Ok(b) => {
                assert(b.data(db) == Map::<Seq<char>, Entry>::empty());
                self.put_backend(db, b);
                assert forall|d: DatabaseId| d != db implies #[trigger] self.slot(d) == old(self).slot(d) by {
                    assert(self.storages@[d as int] == old(self).storages@[d as int]);
                }
            },
            Err(_) => {
                assert(false);
            },
        }
    }
}

impl KVEngine {
    /// Stores `value` under `key` in database `db`, created at `now` and
    /// expiring `ttl` seconds later if a TTL is given (a key set without a
    /// TTL keeps any TTL it had in the TTL index), and announces the change
    /// on the key's invalidation channel.
    pub fn set_at(&mut self, db: DatabaseId, key: Key, value: Value, ttl: Option<TTL>, now: Timestamp) -> (r: KVResult<()>)
        requires
            old(self).wf(),
            0 <= now <= MAX_TIMESTAMP,
        ensures
            set_effect(*old(self), *final(self), db, key@, Entry::spec_new(value, ttl, now), ttl, now, r),
    {
        let entry = Entry::new_at(value, ttl, now);
        let ghost e0 = entry;
        let mut b = self.open_backend(db);
        let stored = b.set(db, key.clone(), entry);
        self.close_backend(db, b);
        proof {
            Self::lemma_other_slots(self, old(self), db);
        }
        match stored {
            Ok(_) => {},
            Err(e) => {
                proof {
                    Self::lemma_same_databases(self, old(self), db);
                }
                return Err(e);
            },
        }
        let ghost stored_state = *self;
        match ttl {
            Some(t) => {
                let _ = self.ttl_manager.set_ttl_at(key.clone(), t, now);
            },
            None => {},
        }
        self.publish_invalidation(&key);
        self.update_stats();
        proof {
            Self::lemma_slots_kept(self, &stored_state);
            Self::lemma_other_slots(self, old(self), db);
        }
        Ok(())
    }

    /// `set_at` at the current time.
    pub fn set(&mut self, db: DatabaseId, key: Key, value: Value, ttl: Option<TTL>) -> (r: KVResult<()>)
        requires
            old(self).wf(),
        ensures
            exists|now: Timestamp| 0 <= now <= MAX_TIMESTAMP
                && #[trigger] set_effect(*old(self), *final(self), db, key@, Entry::spec_new(value, ttl, now), ttl, now, r),
    {
        let now = now_millis();
        self.set_at(db, key, value, ttl, now)
    }

    /// Deletes `key` from database `db`; true if it was there. A deleted
    /// key loses its TTL and the change is announced on its invalidation
    /// channel.
    pub fn delete(&mut self, db: DatabaseId, key: &Key) -> (r: KVResult<bool>)
        requires
            old(self).wf(),
        ensures
            delete_effect(*old(self), *final(self), db, key@, r),
    {
        let mut b = self.open_backend(db);
        let outcome = b.delete(db, key);
        self.close_backend(db, b);
        proof {
            Self::lemma_other_slots(self, old(self), db);
        }
        let deleted = match outcome {
            Ok(d) => d,
            Err(e) => {
                proof {
                    Self::lemma_same_databases(self, old(self), db);
                }
                return Err(e);
            },
        };
        let ghost stored_state = *self;
        if deleted {
            let _ = self.ttl_manager.remove_ttl(key);
            self.publish_invalidation(key);
        }
        self.update_stats();
        proof {
            Self::lemma_slots_kept(self, &stored_state);
            Self::lemma_other_slots(self, old(self), db);
        }
        Ok(deleted)
    }

    /// Whether `key` is in database `db`.
    pub fn key_exists(&mut self, db: DatabaseId, key: &Key) -> (r: KVResult<bool>)
        requires
            old(self).wf(),
        ensures
            old(self).serves(db) ==> r == Ok::<bool, KVError>(old(self).store(db).contains_key(key@))
                && counted_only(*old(self), *final(self), db),
            !old(self).serves(db) ==> refused(*old(self), *final(self), db, r),
    {
        self.ensure_storage(db);
        let found = self.backend(db).key_exists(db, key);
        let ghost opened = *self;
        proof {
            Self::lemma_same_databases(self, old(self), db);
        }
        match found {
            Ok(present) => {
                self.update_stats();
                proof {
                    Self::lemma_slots_kept(self, &opened);
                    Self::lemma_same_databases(self, old(self), db);
                }
                Ok(present)
            },
            Err(e) => Err(e),
        }
    }

    /// Reads `key` from database `db` at `now`: `None` for a missing key;
    /// an expired key is deleted (as `delete` does) and reads as `None`;
    /// otherwise the access is recorded in the stored entry and its value
    /// returned.
    pub fn get_at(&mut self, db: DatabaseId, key: &Key, now: Timestamp) -> (r: KVResult<Option<Value>>)
        requires
            old(self).wf(),
        ensures
            get_effect(*old(self), *final(self), db, key@, now, r),
    {
        let mut b = self.open_backend(db);
        let found = b.get(db, key);
        let mut entry = match found {
            Ok(Some(e)) => e,
            Ok(None) => {
                self.close_backend(db, b);
                let ghost closed = *self;
                proof {
                    Self::lemma_same_databases(self, old(self), db);
                }
                self.update_stats();
                proof {
                    Self::lemma_slots_kept(self, &closed);
                    Self::lemma_same_databases(self, old(self), db);
                }
                return Ok(None);
            },
            Err(e) => {
                self.close_backend(db, b);
                proof {
                    Self::lemma_same_databases(self, old(self), db);
                }
                return Err(e);
            },
        };
        if entry.is_expired_at(now) {
            self.close_backend(db, b);
            let ghost closed = *self;
            proof {
                Self::lemma_same_databases(self, old(self), db);
            }
            let deleted = self.delete(db, key);
            proof {
                assert(deleted == Ok::<bool, KVError>(true));
                assert forall|d: DatabaseId| d != db implies #[trigger] self.store(d) == old(self).store(d)
                    && self.key_order(d) == old(self).key_order(d) && self.has_storage(d) == old(self).has_storage(d) by {
                    assert(self.store(d) == closed.store(d));
                    assert(closed.store(d) == old(self).store(d));
                    assert(closed.key_order(d) == old(self).key_order(d));
                }
            }
            return Ok(None);
        }
        let ghost e0 = entry;
        record_access(&mut entry, now);
        let value = entry.value.clone();
        let ghost e1 = entry;
        let _ = b.set(db, key.clone(), entry);
        self.close_backend(db, b);
        let ghost closed = *self;
        proof {
            Self::lemma_other_slots(self, old(self), db);
        }
        self.update_stats();
        proof {
            Self::lemma_slots_kept(self, &closed);
            Self::lemma_other_slots(self, old(self), db);
            assert(self.store(db) == old(self).store(db).insert(key@, e1));
            assert(e1@ == touched(old(self).entries(db)[key@], now));
            assert(self.entries(db) =~= old(self).entries(db).insert(key@, touched(old(self).entries(db)[key@], now)));
        }
        Ok(Some(value))
    }

    /// `get_at` at the current time.
    pub fn get(&mut self, db: DatabaseId, key: &Key) -> (r: KVResult<Option<Value>>)
        requires
            old(self).wf(),
        ensures
            exists|now: Timestamp| 0 <= now <= MAX_TIMESTAMP && #[trigger] get_effect(*old(self), *final(self), db, key@, now, r),
    {
        let now = now_millis();
        self.get_at(db, key, now)
    }

    /// Sets the TTL of `key` in database `db` to `ttl` seconds after `now`,
    /// in the TTL index and in the stored entry; false (after counting the
    /// lookup) when the key is missing.
    pub fn expire_at(&mut self, db: DatabaseId, key: &Key, ttl: TTL, now: Timestamp) -> (r: KVResult<bool>)
        requires
            old(self).wf(),
            0 <= now <= MAX_TIMESTAMP,
        ensures
            expire_effect(*old(self), *final(self), db, key@, ttl, now, r),
    {
        let present = match self.key_exists(db, key) {
            Ok(p) => p,
            Err(e) => {
                return Err(e);
            },
        };
        if !present {
            return Ok(false);
        }
        let ghost looked = *self;
        let _ = self.ttl_manager.set_ttl_at(key.clone(), ttl, now);
        let mut b = self.open_backend(db);
        let ghost e1: Entry = b.data(db)[key@];
        match b.get(db, key) {
            Ok(Some(e)) => {
                let mut e = e;
                e.set_ttl_at(ttl, now);
                proof {
                    e1 = e;
                }
                let _ = b.set(db, key.clone(), e);
            },
            _ => {},
        }
        self.close_backend(db, b);
        let ghost closed = *self;
        proof {
            Self::lemma_other_slots(self, &looked, db);
        }
        self.update_stats();
        proof {
            Self::lemma_slots_kept(self, &closed);
            Self::lemma_other_slots(self, &looked, db);
            assert(self.store(db) == looked.store(db).insert(key@, e1));
            assert(self.entries(db) =~= old(self).entries(db).insert(key@,
                with_expiry(old(self).entries(db)[key@], Some(expiry_after(now, ttl)))));
        }
        Ok(true)
    }

    /// `expire_at` at the current time.
    pub fn expire(&mut self, db: DatabaseId, key: &Key, ttl: TTL) -> (r: KVResult<bool>)
        requires
            old(self).wf(),
        ensures
            exists|now: Timestamp| 0 <= now <= MAX_TIMESTAMP && #[trigger] expire_effect(*old(self), *final(self), db, key@, ttl, now, r),
    {
        let now = now_millis();
        self.expire_at(db, key, ttl, now)
    }

    /// The remaining TTL of `key` at `now`, from the TTL index (which is
    /// shared by all databases): `None` without a TTL, else the whole
    /// seconds left (0 once passed).
    pub fn ttl_at(&mut self, db: DatabaseId, key: &Key, now: Timestamp) -> (r: KVResult<Option<TTL>>)
        requires
            old(self).wf(),
            0 <= now,
        ensures
            r == Ok::<Option<TTL>, KVError>(ttl_at(old(self).ttls(), key@, now)),
            counted_only(*old(self), *final(self), db),
    {
        self.ensure_storage(db);
        let left = self.ttl_manager.get_ttl_at(key, now);
        let ghost opened = *self;
        proof {
            assert(opened.store(db) == old(self).store(db));
            assert(opened.key_order(db) == old(self).key_order(db));
        }
        self.update_stats();
        proof {
            Self::lemma_slots_kept(self, &opened);
            Self::lemma_same_databases(self, old(self), db);
        }
        left
    }

    /// `ttl_at` at the current time.
    pub fn ttl(&mut self, db: DatabaseId, key: &Key) -> (r: KVResult<Option<TTL>>)
        requires
            old(self).wf(),
        ensures
            exists|now: Timestamp| 0 <= now <= MAX_TIMESTAMP && r == Ok::<Option<TTL>, KVError>(#[trigger] ttl_at(old(self).ttls(), key@, now)),
            counted_only(*old(self), *final(self), db),
    {
        let now = now_millis();
        self.ttl_at(db, key, now)
    }

    /// The keys of database `db`, in listing order (expired keys not yet
    /// removed included).
    pub fn keys(&mut self, db: DatabaseId) -> (r: KVResult<Vec<Key>>)
        requires
            old(self).wf(),
        ensures
            old(self).serves(db) ==> (r matches Ok(ks) && string_views(ks@) == old(self).key_order(db))
                && counted_only(*old(self), *final(self), db),
            !old(self).serves(db) ==> refused(*old(self), *final(self), db, r),
    {
        self.ensure_storage(db);
        let listed = self.backend(db).keys(db);
        let ghost opened = *self;
        proof {
            Self::lemma_same_databases(self, old(self), db);
        }
        match listed {
            Ok(ks) => {
                self.update_stats();
                proof {
                    Self::lemma_slots_kept(self, &opened);
                    Self::lemma_same_databases(self, old(self), db);
                }
                Ok(ks)
            },
            Err(e) => Err(e),
        }
    }

    /// The keys of database `db` that match `pattern` (see
    /// `matches_pattern`), in listing order.
    pub fn keys_pattern(&mut self, db: DatabaseId, pattern: &str) -> (r: KVResult<Vec<Key>>)
        requires
            old(self).wf(),
        ensures
            old(self).serves(db) ==> (r matches Ok(ks) && string_views(ks@) == keys_matching(old(self).key_order(db), pattern@))
                && counted_only(*old(self), *final(self), db),
            !old(self).serves(db) ==> refused(*old(self), *final(self), db, r),
    {
        self.ensure_storage(db);
        let listed = self.backend(db).keys_pattern(db, pattern);
        let ghost opened = *self;
        proof {
            Self::lemma_same_databases(self, old(self), db);
        }
        match listed {
            Ok(ks) => {
                self.update_stats();
                proof {
                    Self::lemma_slots_kept(self, &opened);
                    Self::lemma_same_databases(self, old(self), db);
                }
                Ok(ks)
            },
            Err(e) => Err(e),
        }
    }

    /// Removes every key of database `db`, and the TTLs of those keys.
    pub fn clear_database(&mut self, db: DatabaseId) -> (r: KVResult<()>)
        requires
            old(self).wf(),
        ensures
            clear_effect(*old(self), *final(self), db, r),
    {
        let mut b = self.open_backend(db);
        let listed = b.keys(db);
        let outcome = b.clear_database(db);
        self.close_backend(db, b);
        proof {
            Self::lemma_other_slots(self, old(self), db);
        }
        match outcome {
            Ok(_) => {},
            Err(e) => {
                proof {
                    Self::lemma_same_databases(self, old(self), db);
                }
                return Err(e);
            },
        }
        let ks = match listed {
            Ok(ks) => ks,
            Err(_) => Vec::new(),
        };
        let ghost cleared = *self;
        let ghost ttls0 = old(self).ttls();
        proof {
            old(self).lemma_key_order(db);
            assert(string_views(ks@).to_set() == old(self).store(db).dom());
            assert(ttls0.remove_keys(string_views(ks@).take(0).to_set()) =~= ttls0);
        }
        let mut i: usize = 0;
        while i < ks.len()
            invariant
                self.wf(),
                i <= ks.len(),
                self.storages@ == cleared.storages@,
                self.config == cleared.config,
                self.key_manager == cleared.key_manager,
                self.pubsub_manager == cleared.pubsub_manager,
                self.stats == cleared.stats,
                self.start_time == cleared.start_time,
                self.ttl_manager.spec_check_interval() == cleared.ttl_manager.spec_check_interval(),
                self.ttls() == ttls0.remove_keys(string_views(ks@).take(i as int).to_set()),
            decreases ks.len() - i,
        {
            let _ = self.ttl_manager.remove_ttl(&ks[i]);
            proof {
                assert(string_views(ks@).take(i + 1) =~= string_views(ks@).take(i as int).push(ks@[i as int]@));
                string_views(ks@).take(i as int).lemma_push_to_set_commute(ks@[i as int]@);
                assert(ttls0.remove_keys(string_views(ks@).take(i + 1).to_set()) =~= ttls0.remove_keys(
                    string_views(ks@).take(i as int).to_set()).remove(ks@[i as int]@));
            }
            i = i + 1;
        }
        proof {
            assert(string_views(ks@).take(ks.len() as int) =~= string_views(ks@));
        }
        self.update_stats();
        proof {
            Self::lemma_slots_kept(self, &cleared);
            Self::lemma_other_slots(self, old(self), db);
        }
        Ok(())
    }

    /// The statistics: the recorded counters, and the number of keys over
    /// all databases (staying at `u64::MAX`), with the memory and disk
    /// usage that the storages report.
    pub fn get_stats(&self) -> (r: KVResult<KVStats>)
        requires
            self.wf(),
        ensures
            r matches Ok(st) && st.total_keys == (if self.key_total(DATABASE_SLOTS as nat) <= u64::MAX {
                self.key_total(DATABASE_SLOTS as nat)
            } else {
                u64::MAX as nat
            }) && st.disk_usage == (if self.disk_total(DATABASE_SLOTS as nat) <= u64::MAX {
                self.disk_total(DATABASE_SLOTS as nat)
            } else {
                u64::MAX as nat
            }) && st.memory_usage == (if self.memory_total(DATABASE_SLOTS as nat) <= u64::MAX {
                self.memory_total(DATABASE_SLOTS as nat)
            } else {
                u64::MAX as nat
            }) && st.expired_keys == self.recorded().expired_keys
                && st.total_operations == self.operations()
                && st.uptime == self.recorded().uptime
                && st.active_connections == self.recorded().active_connections,
    {
        let mut total_keys: u64 = 0;
        let mut memory: u64 = 0;
        let mut disk: u64 = 0;
        let mut i: usize = 0;
        while i < DATABASE_SLOTS
            invariant
                self.wf(),
                i <= DATABASE_SLOTS,
                total_keys == (if self.key_total(i as nat) <= u64::MAX { self.key_total(i as nat) } else { u64::MAX as nat }),
                disk == (if self.disk_total(i as nat) <= u64::MAX { self.disk_total(i as nat) } else { u64::MAX as nat }),
                memory == (if self.memory_total(i as nat) <= u64::MAX { self.memory_total(i as nat) } else { u64::MAX as nat }),
            decreases DATABASE_SLOTS - i,
        {
            let db = i as DatabaseId;
            proof {
                assert(slot_fits(self.storages@[i as int], self.config.persistence_mode));
                assert(self.key_total((i + 1) as nat) == self.key_total(i as nat) + if self.serves(db) {
                    self.store(db).len()
                } else {
                    0nat
                });
            }
            match &self.storages[i] {
                Some(b) => {
                    proof {
                        self.lemma_accepts(db, *b);
                    }
                    match b.get_stats(db) {
                        Ok(st) => {
                            total_keys = total_keys.saturating_add(st.total_keys);
                            memory = memory.saturating_add(st.memory_usage);
                            let on_disk = match st.disk_usage {
                                Some(x) => x,
                                None => 0,
                            };
                            disk = disk.saturating_add(on_disk);
                        },
                        Err(_) => {},
                    }
                },
                None => {},
            }
            i = i + 1;
        }
        Ok(KVStats {
            total_keys,
            expired_keys: self.stats.expired_keys,
            memory_usage: memory,
            disk_usage: disk,
            total_operations: self.stats.total_operations,
            uptime: self.stats.uptime,
            active_connections: self.stats.active_connections,
        })
    }

    /// Publishes `message` on `channel`; gives back how many subscribers
    /// took it (see `PubSubManager::publish`).
    pub fn publish(&mut self, channel: &str, message: Value) -> (r: KVResult<usize>)
        requires
            old(self).wf(),
        ensures
            final(self).wf(),
            exists|now: Timestamp| 0 <= now <= MAX_TIMESTAMP
                && #[trigger] publish_effect(old(self).subscriptions(), final(self).subscriptions(), final(self).last_offers(), channel@,
                message@, now, r),
            final(self).same_services_but_subscriptions(&*old(self)),
    {
        let r = self.pubsub_manager.publish(channel, message);
        proof {
            let now = choose|now: Timestamp| 0 <= now <= MAX_TIMESTAMP
                && #[trigger] publish_effect(old(self).pubsub_manager@, self.pubsub_manager@, self.pubsub_manager.last_offers(), channel@,
                message@, now, r);
            assert(publish_effect(old(self).subscriptions(), self.subscriptions(), self.last_offers(), channel@, message@, now, r));
        }
        r
    }

    /// Subscribes to `pattern`; gives back the receiving half of the new
    /// subscription's channel.
    pub fn subscribe(&mut self, pattern: ChannelPattern) -> (r: KVResult<tokio::sync::mpsc::UnboundedReceiver<PubSubMessage>>)
        requires
            old(self).wf(),
            total_subscriptions(old(self).subscriptions()) < usize::MAX,
        ensures
            final(self).wf(),
            r is Ok,
            exists|sub: Subscription| sub.pattern@ == pattern@ && 0 <= sub.created_at <= MAX_TIMESTAMP
                && sub.last_activity == sub.created_at && sub.offered@ == Seq::<MessageView>::empty()
                && sub.delivered@ == Seq::<MessageView>::empty()
                && final(self).subscriptions() == #[trigger] add_subscription(old(self).subscriptions(), pattern@, sub),
            final(self).same_services_but_subscriptions(&*old(self)),
    {
        self.pubsub_manager.subscribe(pattern)
    }

    /// Removes every subscription of `pattern`; gives back how many there
    /// were.
    pub fn unsubscribe(&mut self, pattern: &ChannelPattern) -> (r: KVResult<usize>)
        requires
            old(self).wf(),
        ensures
            final(self).wf(),
            has_group(old(self).subscriptions(), pattern@) ==> final(self).subscriptions()
                == old(self).subscriptions().remove(group_position(old(self).subscriptions(), pattern@))
                && r == Ok::<usize, KVError>(old(self).subscriptions()[group_position(old(self).subscriptions(), pattern@)].1.len() as usize),
            !has_group(old(self).subscriptions(), pattern@) ==> final(self).subscriptions() == old(self).subscriptions()
                && r == Ok::<usize, KVError>(0),
            final(self).same_services_but_subscriptions(&*old(self)),
    {
        self.pubsub_manager.unsubscribe(pattern)
    }

    /// Subscribes to the invalidation events of all keys (the pattern
    /// `cache:invalidate:*`).
    pub fn subscribe_to_invalidations(&mut self) -> (r: KVResult<tokio::sync::mpsc::UnboundedReceiver<PubSubMessage>>)
        requires
            old(self).wf(),
            total_subscriptions(old(self).subscriptions()) < usize::MAX,
        ensures
            final(self).wf(),
            r is Ok,
            exists|sub: Subscription| sub.pattern@ == ChannelPatternView::Wildcard("cache:invalidate:*"@)
                && 0 <= sub.created_at <= MAX_TIMESTAMP && sub.last_activity == sub.created_at
                && final(self).subscriptions() == #[trigger] add_subscription(old(self).subscriptions(),
                    ChannelPatternView::Wildcard("cache:invalidate:*"@), sub),
            final(self).same_services_but_subscriptions(&*old(self)),
    {
        let pattern = ChannelPattern::wildcard("cache:invalidate:*".to_owned());
        self.subscribe(pattern)
    }

    /// Drops the subscriptions that are inactive at `now` (see
    /// `PubSubManager::cleanup_inactive_at`).
    pub fn cleanup_subscriptions_at(&mut self, now: Timestamp)
        requires
            old(self).wf(),
        ensures
            final(self).wf(),
            final(self).subscriptions() == prune_inactive(old(self).subscriptions(), now,
                duration_secs(old(self).subscription_timeout()), duration_subsec_nanos(old(self).subscription_timeout())),
            final(self).same_services_but_subscriptions(&*old(self)),
    {
        self.pubsub_manager.cleanup_inactive_at(now)
    }

    /// `cleanup_subscriptions_at` at the current time.
    pub fn cleanup_subscriptions(&mut self)
        requires
            old(self).wf(),
        ensures
            final(self).wf(),
            exists|now: Timestamp| 0 <= now <= MAX_TIMESTAMP && final(self).subscriptions() == #[trigger] prune_inactive(
                old(self).subscriptions(), now,
                duration_secs(old(self).subscription_timeout()), duration_subsec_nanos(old(self).subscription_timeout())),
            final(self).same_services_but_subscriptions(&*old(self)),
    {
        let now = now_millis();
        self.cleanup_subscriptions_at(now)
    }

    /// Removes the keys whose TTL has passed at `now` (expiry before `now`)
    /// from the TTL index and from every open database, and gives them
    /// back in expiry order.
    pub fn remove_expired_at(&mut self, now: Timestamp) -> (expired: Vec<Key>)
        requires
            old(self).wf(),
        ensures
            sweep_effect(*old(self), *final(self), now, key_views(expired@)),
    {
        let expired = self.ttl_manager.collect_expired(now);
        let ghost ks = key_views(expired@);
        let ghost start = *self;
        let mut i: usize = 0;
        while i < expired.len()
            invariant
                self.wf(),
                i <= expired@.len(),
                ks == key_views(expired@),
                self.config == start.config,
                self.ttl_manager == start.ttl_manager,
                self.pubsub_manager == start.pubsub_manager,
                self.stats == start.stats,
                forall|d: DatabaseId| #[trigger] self.has_storage(d) == start.has_storage(d),
                forall|d: DatabaseId| #[trigger] self.store(d) == if start.serves(d) {
                    without_keys(start.store(d), ks.take(i as int))
                } else {
                    start.store(d)
                },
            decreases expired@.len() - i,
        {
            let ghost before = *self;
            let ghost k = ks[i as int];
            proof {
                assert(expired@[i as int]@ == k);
                assert forall|m: Map<Seq<char>, Entry>| #[trigger] without_keys(m, ks.take(i + 1)) == without_keys(m, ks.take(i as int)).remove(k) by {
                    assert(ks.take(i + 1) =~= ks.take(i as int).push(k));
                    ks.take(i as int).lemma_push_to_set_commute(k);
                    assert(ks.take(i + 1).to_set() =~= ks.take(i as int).to_set().insert(k));
                    assert(without_keys(m, ks.take(i + 1)) =~= without_keys(m, ks.take(i as int)).remove(k));
                }
            }
            let mut d: usize = 0;
            while d < DATABASE_SLOTS
                invariant
                    self.wf(),
                    d <= DATABASE_SLOTS,
                    i < expired@.len(),
                    k == expired@[i as int]@,
                    self.config == before.config,
                    self.ttl_manager == before.ttl_manager,
                    self.pubsub_manager == before.pubsub_manager,
                    self.stats == before.stats,
                    forall|x: DatabaseId| #[trigger] self.has_storage(x) == before.has_storage(x),
                    forall|x: DatabaseId| #[trigger] self.store(x) == if x < d && before.serves(x) {
                        before.store(x).remove(k)
                    } else {
                        before.store(x)
                    },
                decreases DATABASE_SLOTS - d,
            {
                let db = d as DatabaseId;
                if self.storages[d].is_some() {
                    let ghost mid = *self;
                    let mut b = self.take_backend(db);
                    proof {
                        self.lemma_accepts(db, b);
                    }
                    let _ = b.delete(db, &expired[i]);
                    self.put_backend(db, b);
                    proof {
                        assert forall|x: DatabaseId| x != db implies #[trigger] self.slot(x) == mid.slot(x) by {
                            assert(self.storages@[x as int] == mid.storages@[x as int]);
                        }
                        assert forall|x: DatabaseId| #[trigger] self.has_storage(x) == before.has_storage(x) by {
                            if x != db {
                                assert(self.slot(x) == mid.slot(x));
                            }
                            assert(mid.has_storage(x) == before.has_storage(x));
                        }
                        assert forall|x: DatabaseId| #[trigger] self.store(x) == if x < d + 1 && before.serves(x) {
                            before.store(x).remove(k)
                        } else {
                            before.store(x)
                        } by {
                            if x != db {
                                assert(self.slot(x) == mid.slot(x));
                                assert(mid.store(x) == if x < d && before.serves(x) { before.store(x).remove(k) } else { before.store(x) });
                            } else {
                                assert(mid.store(x) == before.store(x));
                            }
                        }
                    }
                } else {
                    proof {
                        assert(self.store(db) == Map::<Seq<char>, Entry>::empty());
                        assert(before.store(db) == self.store(db));
                        assert(Map::<Seq<char>, Entry>::empty().remove(k) =~= Map::<Seq<char>, Entry>::empty());
                        assert forall|x: DatabaseId| #[trigger] self.store(x) == if x < d + 1 && before.serves(x) {
                            before.store(x).remove(k)
                        } else {
                            before.store(x)
                        } by {
                            if x != db {
                                assert(self.store(x) == if x < d && before.serves(x) { before.store(x).remove(k) } else { before.store(x) });
                            }
                        }
                    }
                }
                d = d + 1;
            }
            proof {
                assert forall|x: DatabaseId| #[trigger] self.store(x) == if start.serves(x) {
                    without_keys(start.store(x), ks.take(i + 1))
                } else {
                    start.store(x)
                } by {
                    assert(before.store(x) == if start.serves(x) {
                        without_keys(start.store(x), ks.take(i as int))
                    } else {
                        start.store(x)
                    });
                    assert(x < DATABASE_SLOTS);
                    if start.serves(x) {
                        assert(without_keys(start.store(x), ks.take(i + 1)) == without_keys(start.store(x), ks.take(i as int)).remove(k));
                    }
                }
            }
            i = i + 1;
        }
        proof {
            assert(ks.take(expired@.len() as int) =~= ks);
            assert forall|d: DatabaseId| #[trigger] start.store(d) == old(self).store(d) && start.has_storage(d) == old(self).has_storage(d) by {
                Self::lemma_slots_kept(&start, old(self));
            }
        }
        expired
    }

    /// `remove_expired_at` at the current time.
    pub fn remove_expired(&mut self) -> (expired: Vec<Key>)
        requires
            old(self).wf(),
        ensures
            exists|now: Timestamp| 0 <= now <= MAX_TIMESTAMP && #[trigger] sweep_effect(*old(self), *final(self), now, key_views(expired@)),
    {
        let now = now_millis();
        self.remove_expired_at(now)
    }

    /// Installs `backend`, loaded from the files of database `db`, as the
    /// storage of `db`; only into an empty slot and only a backend of the
    /// mode's kind. Gives back whether it was installed.
    pub fn install_storage(&mut self, db: DatabaseId, backend: StorageBackend) -> (r: bool)
        requires
            old(self).wf(),
            backend.wf(),
        ensures
            final(self).wf(),
            final(self).same_settings(&*old(self)),
            r == (!old(self).has_storage(db) && fits_mode(backend, old(self).mode())),
            r ==> final(self).slot(db) == Some(backend),
            !r ==> final(self).slot(db) == old(self).slot(db),
            forall|d: DatabaseId| d != db ==> #[trigger] final(self).slot(d) == old(self).slot(d),
            final(self).ttls() == old(self).ttls(),
            final(self).subscriptions() == old(self).subscriptions(),
            final(self).operations() == old(self).operations(),
    {
        if self.storages[db as usize].is_some() || !backend_fits(&backend, self.config.persistence_mode) {
            return false;
        }
        self.put_backend(db, backend);
        assert forall|d: DatabaseId| d != db implies #[trigger] self.slot(d) == old(self).slot(d) by {
            assert(self.storages@[d as int] == old(self).storages@[d as int]);
        }
        true
    }

    /// Hands out the writes that the storage of database `db` has queued
    /// for its files, and forgets them.
    #[verifier::spinoff_prover]
    pub fn take_pending(&mut self, db: DatabaseId) -> (w: PendingWrites)
        requires
            old(self).wf(),
        ensures
            final(self).wf(),
            final(self).same_settings(&*old(self)),
            forall|d: DatabaseId| #[trigger] final(self).store(d) == old(self).store(d) && final(self).key_order(d) == old(self).key_order(d),
            forall|d: DatabaseId| #[trigger] final(self).has_storage(d) == old(self).has_storage(d),
            forall|d: DatabaseId| d != db ==> #[trigger] final(self).slot(d) == old(self).slot(d),
            final(self).ttls() == old(self).ttls(),
            final(self).subscriptions() == old(self).subscriptions(),
            final(self).operations() == old(self).operations(),
            match old(self).slot(db) {
                None => w is Nothing,
                Some(StorageBackend::Memory(_)) => w is Nothing,
                Some(StorageBackend::Aof(a)) => w matches PendingWrites::Aof(ops) && op_views(ops@) == a.pending(),
                Some(StorageBackend::Disk(s)) => w matches PendingWrites::Disk(ws) && write_views(ws@) == s.pending(),
            },
            match final(self).slot(db) {
                Some(StorageBackend::Aof(a)) => a.pending() == Seq::<AOFOperationView>::empty(),
                Some(StorageBackend::Disk(s)) => s.pending().len() == 0,
                _ => true,
            },
    {
        if self.storages[db as usize].is_none() {
            return PendingWrites::Nothing;
        }
        let mut b = self.take_backend(db);
        let ghost b0 = b;
        let w = b.take_pending();
        let ghost b1 = b;
        self.put_backend(db, b);
        proof {
            assert forall|d: DatabaseId| d != db implies #[trigger] self.slot(d) == old(self).slot(d) by {
                assert(self.storages@[d as int] == old(self).storages@[d as int]);
            }
            b1.lemma_same_data_at(&b0, db);
            assert(self.key_order(db) == b1.order(db));
            assert(old(self).key_order(db) == b0.order(db));
            Self::lemma_same_databases(self, old(self), db);
        }
        w
    }

    /// Records the size of the append-only file of database `db`.
    #[verifier::spinoff_prover]
    pub fn record_file_size(&mut self, db: DatabaseId, bytes: u64)
        requires
            old(self).wf(),
        ensures
            final(self).wf(),
            final(self).same_settings(&*old(self)),
            forall|d: DatabaseId| #[trigger] final(self).store(d) == old(self).store(d) && final(self).key_order(d) == old(self).key_order(d),
            forall|d: DatabaseId| #[trigger] final(self).has_storage(d) == old(self).has_storage(d),
            final(self).ttls() == old(self).ttls(),
            final(self).subscriptions() == old(self).subscriptions(),
            final(self).operations() == old(self).operations(),
            final(self).slot(db) matches Some(StorageBackend::Aof(a)) ==> a.spec_file_size() == bytes,
    {
        if self.storages[db as usize].is_none() {
            return;
        }
        let mut b = self.take_backend(db);
        let ghost b0 = b;
        b.record_file_size(bytes);
        let ghost b1 = b;
        self.put_backend(db, b);
        proof {
            b1.lemma_same_data_at(&b0, db);
            assert(self.key_order(db) == b1.order(db));
            assert(old(self).key_order(db) == b0.order(db));
            assert forall|d: DatabaseId| d != db implies #[trigger] self.slot(d) == old(self).slot(d) by {
                assert(self.storages@[d as int] == old(self).storages@[d as int]);
            }
            Self::lemma_same_databases(self, old(self), db);
        }
    }

    /// Whether the storage of database `db` has been opened.
    pub fn storage_open(&self, db: DatabaseId) -> (r: bool)
        requires
            self.wf(),
        ensures
            r == self.has_storage(db),
    {
        self.storages[db as usize].is_some()
    }

    /// The persistence mode.
    pub fn persistence_mode(&self) -> (m: PersistenceMode)
        ensures
            m == self.mode(),
    {
        self.config.persistence_mode
    }

    /// The data directory.
    pub fn data_dir(&self) -> (d: &str)
        ensures
            d@ == self.spec_data_dir(),
    {
        self.config.data_dir.as_str()
    }

    /// The interval between TTL checks.
    pub fn expiration_check_interval(&self) -> (d: std::time::Duration)
        ensures
            d == self.ttl_check_interval(),
    {
        self.ttl_manager.check_interval()
    }

    /// The interval between cleanups of inactive subscriptions.
    pub fn subscription_cleanup_interval(&self) -> (d: std::time::Duration)
        ensures
            d == self.spec_subscription_cleanup_interval(),
    {
        self.pubsub_manager.cleanup_interval()
    }

    /// Statistics about the subscriptions.
    pub fn subscription_stats(&self) -> (r: KVResult<PubSubStats>)
        requires
            self.wf(),
        ensures
            r matches Ok(st) && st.total_subscriptions == total_subscriptions(self.subscriptions())
                && st.pattern_count == self.subscriptions().len()
                && st.exact_patterns == exact_groups(self.subscriptions())
                && st.wildcard_patterns == self.subscriptions().len() - exact_groups(self.subscriptions()),
    {
        self.pubsub_manager.get_stats()
    }
}

} // verus!
