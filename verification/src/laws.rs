//! Properties that relate several operations of the store.

use vstd::prelude::*;
use crate::encryption::{KeyManager, MAX_PLAINTEXT, opened, sealed};
use crate::engine::{KVEngine, clear_effect, delete_effect, get_effect, invalidation_channel, invalidation_message, set_effect,
    sweep_effect};
use crate::error::{KVError, KVResult};
use crate::pubsub::{ChannelPatternView, PatternSubscriptions, Subscription, accepted, active_subscriptions, prune_inactive, still_active, announced, deliver, delivered_count, lemma_deliver_reached,
    lemma_deliver_unmatched, lemma_offers, offers, pattern_matches, publish_effect, sends_fit};
use crate::storage::aof::{AOFOperation, AOFOperationView, AOFStorage, aof_replay_effect, aof_write_effect, entry_views,
    lemma_replay_views, op_views, replay_views};
use crate::time::{Timestamp, expiry_after};
use crate::ttl::{ttl_at, unexpired};
use crate::types::{DatabaseId, Entry, TTL, Value, ValueView};

verus! {

/// A value stored without a TTL is read back as stored.
pub proof fn law_read_after_write(
    e0: KVEngine,
    e1: KVEngine,
    e2: KVEngine,
    db: DatabaseId,
    key: Seq<char>,
    value: Value,
    now1: Timestamp,
    now2: Timestamp,
    r1: KVResult<()>,
    r2: KVResult<Option<Value>>,
)
    requires
        e0.serves(db),
        set_effect(e0, e1, db, key, Entry::spec_new(value, None, now1), None, now1, r1),
        get_effect(e1, e2, db, key, now2, r2),
    ensures
        r2 matches Ok(Some(v)) && v@ == value@,
        e2.store(db).contains_key(key),
{
    assert(e2.entries(db).contains_key(key));
    assert(e2.entries(db).dom() == e2.store(db).dom());
}

/// A value stored with a TTL of `ttl` seconds is read back as stored until
/// its expiry; after it, it reads as missing and is gone.
pub proof fn law_read_after_write_with_ttl(
    e0: KVEngine,
    e1: KVEngine,
    e2: KVEngine,
    db: DatabaseId,
    key: Seq<char>,
    value: Value,
    ttl: TTL,
    now1: Timestamp,
    now2: Timestamp,
    r1: KVResult<()>,
    r2: KVResult<Option<Value>>,
)
    requires
        e0.serves(db),
        set_effect(e0, e1, db, key, Entry::spec_new(value, Some(ttl), now1), Some(ttl), now1, r1),
        get_effect(e1, e2, db, key, now2, r2),
    ensures
        now2 <= expiry_after(now1, ttl) ==> (r2 matches Ok(Some(v)) && v@ == value@),
        now2 > expiry_after(now1, ttl) ==> r2 == Ok::<Option<Value>, KVError>(None)
            && !e2.store(db).contains_key(key) && !e2.ttls().contains_key(key),
{
}

/// A deleted key reads as missing.
pub proof fn law_read_after_delete(
    e0: KVEngine,
    e1: KVEngine,
    e2: KVEngine,
    db: DatabaseId,
    key: Seq<char>,
    now: Timestamp,
    r1: KVResult<bool>,
    r2: KVResult<Option<Value>>,
)
    requires
        e0.serves(db),
        delete_effect(e0, e1, db, key, r1),
        get_effect(e1, e2, db, key, now, r2),
    ensures
        r2 == Ok::<Option<Value>, KVError>(None),
        !e2.store(db).contains_key(key),
{
}

/// After a key is stored, the keys of its database list it exactly once.
pub proof fn law_keys_after_write(
    e0: KVEngine,
    e1: KVEngine,
    db: DatabaseId,
    key: Seq<char>,
    entry: Entry,
    ttl: Option<TTL>,
    now: Timestamp,
    r: KVResult<()>,
)
    requires
        e0.serves(db),
        set_effect(e0, e1, db, key, entry, ttl, now, r),
    ensures
        e1.key_order(db).contains(key),
        e1.key_order(db).no_duplicates(),
{
    e1.lemma_key_order(db);
    assert(e1.store(db).dom().contains(key));
    assert(e1.key_order(db).to_set().contains(key));
}

/// After a database is cleared, it lists no keys, none of its former keys
/// has a TTL, and the TTL of a key that was not in it is kept.
pub proof fn law_keys_after_clear(e0: KVEngine, e1: KVEngine, db: DatabaseId, r: KVResult<()>, key: Seq<char>)
    requires
        e0.serves(db),
        clear_effect(e0, e1, db, r),
    ensures
        e1.key_order(db).len() == 0,
        e0.store(db).contains_key(key) ==> !e1.ttls().contains_key(key),
        !e0.store(db).contains_key(key) ==> e1.ttls().get(key) == e0.ttls().get(key),
{
    e1.lemma_key_order(db);
}

/// A TTL of `ttl` seconds set at `now1` reads back, at any later time, as
/// at most `ttl` seconds.
pub proof fn law_ttl_at_most_set(ttls: Map<Seq<char>, Timestamp>, key: Seq<char>, ttl: TTL, now1: Timestamp, now2: Timestamp)
    requires
        0 <= now1 <= now2,
    ensures
        ttl_at(ttls.insert(key, expiry_after(now1, ttl)), key, now2) matches Some(left) && left <= ttl,
{
    let t = expiry_after(now1, ttl);
    assert(t <= now1 + ttl * 1000);
    if now2 < t {
        assert((t - now2) / 1000 <= ttl) by (nonlinear_arith)
            requires
                t - now2 <= ttl * 1000,
                0 < t - now2,
        ;
    }
}

/// After the sweep at `now`, no key whose TTL had passed is left in a
/// served database or in the TTL index, and every TTL left lies at or
/// after `now`.
pub proof fn law_sweep_leaves_nothing_expired(e0: KVEngine, e1: KVEngine, now: Timestamp, expired: Seq<Seq<char>>)
    requires
        sweep_effect(e0, e1, now, expired),
    ensures
        forall|d: DatabaseId, k: Seq<char>|
            e0.serves(d) && e0.ttls().contains_key(k) && e0.ttls()[k] < now ==> !#[trigger] e1.store(d).contains_key(k),
        forall|k: Seq<char>| #[trigger] e1.ttls().contains_key(k) ==> e1.ttls()[k] >= now,
{
    assert forall|d: DatabaseId, k: Seq<char>|
        e0.serves(d) && e0.ttls().contains_key(k) && e0.ttls()[k] < now implies !#[trigger] e1.store(d).contains_key(k) by {
        assert(expired.contains(k));
        assert(expired.to_set().contains(k));
    }
}

/// Data encrypted with a database key decrypts with the same key to the
/// data.
pub proof fn law_decrypt_encrypted(
    key: Seq<u8>,
    nonce: Seq<u8>,
    data: Seq<u8>,
    r1: KVResult<Vec<u8>>,
    r2: KVResult<Vec<u8>>,
)
    requires
        sealed(key, nonce, data, r1),
        r1 is Ok,
        opened(key, nonce, r1->Ok_0@, r2),
    ensures
        r2 matches Ok(p) && p@ == data,
{
    assert(data.len() <= MAX_PLAINTEXT);
}

/// Data that a key manager encrypted for a database decrypts, with the
/// manager as the encryption left it and for the same database, to the
/// data.
pub proof fn law_manager_roundtrip(
    k0: KeyManager,
    k1: KeyManager,
    k2: KeyManager,
    db: DatabaseId,
    data: Seq<u8>,
    r1: KVResult<Vec<u8>>,
    r2: KVResult<Vec<u8>>,
)
    requires
        r1 is Ok,
        k1.derived().contains_key(db),
        sealed(k1.derived()[db].key@, k1.derived()[db].nonce@, data, r1),
        k2.derived() == k1.derived(),
        opened(k2.derived()[db].key@, k2.derived()[db].nonce@, r1->Ok_0@, r2),
    ensures
        r2 matches Ok(p) && p@ == data,
{
    law_decrypt_encrypted(k1.derived()[db].key@, k1.derived()[db].nonce@, data, r1, r2);
}

/// A write to database `db` of an append-only storage queues what redoes
/// it: if replaying `log` and then the queued operations gives the database
/// before the write, it gives it after.
pub proof fn law_aof_log_tracks_database(
    a0: AOFStorage,
    a1: AOFStorage,
    db: DatabaseId,
    entries: Map<Seq<char>, Entry>,
    logged: Option<AOFOperationView>,
    base: Map<Seq<char>, crate::types::EntryView>,
    log: Seq<AOFOperationView>,
)
    requires
        aof_write_effect(a0, a1, db, entries, logged),
        entry_views(a0.cache().db(db)) == replay_views(base, log + a0.pending()),
    ensures
        entry_views(a1.cache().db(db)) == replay_views(base, log + a1.pending()),
{
    match logged {
        Some(op) => {
            assert((log + a1.pending()).drop_last() =~= log + a0.pending());
            assert((log + a1.pending()).last() == op);
        },
        None => {},
    }
}

/// Replaying operations into database `db` of an append-only storage
/// redoes them, in order, on that database.
pub proof fn law_aof_replay_redoes(a0: AOFStorage, a1: AOFStorage, db: DatabaseId, ops: Seq<AOFOperation>)
    requires
        aof_replay_effect(a0, a1, db, ops.map_values(|o: AOFOperation| Some(o))),
    ensures
        entry_views(a1.cache().db(db)) == replay_views(entry_views(a0.cache().db(db)), op_views(ops)),
{
    lemma_replay_views(a0.cache().db(db), ops);
}

/// What an append-only storage has written out for database `db`,
/// replayed into that database of a fresh storage, gives back what it
/// holds there.
pub proof fn law_aof_round_trip(
    written: AOFStorage,
    fresh: AOFStorage,
    reopened: AOFStorage,
    db: DatabaseId,
    ops: Seq<AOFOperation>,
)
    requires
        entry_views(written.cache().db(db)) == replay_views(Map::empty(), op_views(ops)),
        fresh.cache().db(db) == Map::<Seq<char>, Entry>::empty(),
        aof_replay_effect(fresh, reopened, db, ops.map_values(|o: AOFOperation| Some(o))),
    ensures
        entry_views(reopened.cache().db(db)) == entry_views(written.cache().db(db)),
{
    law_aof_replay_redoes(fresh, reopened, db, ops);
    assert(entry_views(Map::<Seq<char>, Entry>::empty()) =~= Map::<Seq<char>, crate::types::EntryView>::empty());
}

/// Publishing on a channel that no subscription's pattern matches offers
/// nothing to anybody, reaches nobody and leaves the subscriptions as they
/// were.
pub proof fn law_publish_unmatched(
    before: Seq<PatternSubscriptions>,
    after: Seq<PatternSubscriptions>,
    made: Seq<(Subscription, bool)>,
    channel: Seq<char>,
    message: ValueView,
    now: Timestamp,
    r: KVResult<usize>,
)
    requires
        publish_effect(before, after, made, channel, message, now, r),
        forall|i: int| 0 <= i < before.len() ==> !pattern_matches(#[trigger] before[i].0, channel),
    ensures
        r == Ok::<usize, KVError>(0),
        after == before,
        made.len() == 0,
{
    let oks = choose|oks: Seq<Seq<bool>>| #![trigger deliver(before, channel, oks, (channel, message, now), now)]
        sends_fit(before, oks) && after == deliver(before, channel, oks, (channel, message, now), now)
        && made == offers(before, channel, oks, (channel, message, now))
        && (r matches Ok(n) && n == delivered_count(before, channel, oks));
    lemma_deliver_unmatched(before, channel, oks, (channel, message, now), now);
}

/// A publish hands the message `(channel, message, now)` once to every
/// subscription whose pattern matches the channel, in order; it keeps
/// exactly those whose channel took it, each reached by the message at
/// `now`; and it counts them.
pub proof fn law_publish_announces(
    before: Seq<PatternSubscriptions>,
    after: Seq<PatternSubscriptions>,
    made: Seq<(Subscription, bool)>,
    channel: Seq<char>,
    message: ValueView,
    now: Timestamp,
    r: KVResult<usize>,
)
    requires
        publish_effect(before, after, made, channel, message, now, r),
    ensures
        announced(before, after, made, channel, (channel, message, now)),
        r matches Ok(n) && n == accepted(made),
{
    let oks = choose|oks: Seq<Seq<bool>>| #![trigger deliver(before, channel, oks, (channel, message, now), now)]
        sends_fit(before, oks) && after == deliver(before, channel, oks, (channel, message, now), now)
        && made == offers(before, channel, oks, (channel, message, now))
        && (r matches Ok(n) && n == delivered_count(before, channel, oks));
    lemma_deliver_reached(before, channel, oks, (channel, message, now), now);
    lemma_offers(before, channel, oks, (channel, message, now));
}

/// A write to a served database stores the entry and announces the change:
/// at some time `t`, the message `invalidate:` + key is offered on the
/// key's invalidation channel to every matching subscription, and every
/// subscription kept under a matching pattern was reached by it.
pub proof fn law_write_announces_invalidation(
    e0: KVEngine,
    e1: KVEngine,
    db: DatabaseId,
    key: Seq<char>,
    entry: Entry,
    ttl: Option<TTL>,
    now: Timestamp,
    r: KVResult<()>,
)
    requires
        e0.serves(db),
        set_effect(e0, e1, db, key, entry, ttl, now, r),
    ensures
        e1.store(db).contains_key(key) && e1.store(db)[key] == entry,
        exists|t: Timestamp| #[trigger] announced(
            e0.subscriptions(),
            e1.subscriptions(),
            e1.last_offers(),
            invalidation_channel(key),
            (invalidation_channel(key), invalidation_message(key), t),
        ),
{
    let ch = invalidation_channel(key);
    let m = invalidation_message(key);
    let (t, pr) = choose|t: Timestamp, pr: KVResult<usize>|
        #![trigger publish_effect(e0.subscriptions(), e1.subscriptions(), e1.last_offers(), ch, m, t, pr)]
        publish_effect(e0.subscriptions(), e1.subscriptions(), e1.last_offers(), ch, m, t, pr);
    law_publish_announces(e0.subscriptions(), e1.subscriptions(), e1.last_offers(), ch, m, t, pr);
}

/// Step `i` of a run of expiry sweeps: the engine `es[i]` swept at
/// `ts[i]` becomes `es[i + 1]`, handing over the keys `xs[i]`.
pub open spec fn swept_run(es: Seq<KVEngine>, ts: Seq<Timestamp>, xs: Seq<Seq<Seq<char>>>, i: int) -> bool {
    sweep_effect(es[i], es[i + 1], ts[i], xs[i])
}

/// A run of sweeps with nothing else in between.
pub open spec fn sweep_run(es: Seq<KVEngine>, ts: Seq<Timestamp>, xs: Seq<Seq<Seq<char>>>) -> bool {
    &&& es.len() == ts.len() + 1
    &&& xs.len() == ts.len()
    &&& forall|i: int| 0 <= i < ts.len() ==> #[trigger] swept_run(es, ts, xs, i)
}

/// Along a run of sweeps, a TTL still present after the sweeps from `a`
/// up to `j` was present before them with the same expiry, lay at or
/// after each of their times, and its key was handed over by none.
proof fn lemma_sweeps_keep(es: Seq<KVEngine>, ts: Seq<Timestamp>, xs: Seq<Seq<Seq<char>>>, a: int, j: int, k: Seq<char>)
    requires
        sweep_run(es, ts, xs),
        0 <= a <= j <= ts.len(),
        es[j].ttls().contains_key(k),
    ensures
        es[a].ttls().contains_key(k),
        es[j].ttls()[k] == es[a].ttls()[k],
        forall|i: int| a <= i < j ==> es[a].ttls()[k] >= #[trigger] ts[i] && !xs[i].contains(k),
    decreases j - a,
{
    if j > a {
        assert(swept_run(es, ts, xs, j - 1));
        assert(es[j].ttls() == unexpired(es[j - 1].ttls(), ts[j - 1]));
        lemma_sweeps_keep(es, ts, xs, a, j - 1, k);
    }
}

/// Along a run of sweeps, a key with a TTL at the start still has it after
/// `j` sweeps, or one of them handed it over.
proof fn lemma_sweeps_hand_over(es: Seq<KVEngine>, ts: Seq<Timestamp>, xs: Seq<Seq<Seq<char>>>, j: int, k: Seq<char>)
    requires
        sweep_run(es, ts, xs),
        0 <= j <= ts.len(),
        es[0].ttls().contains_key(k),
    ensures
        es[j].ttls().contains_key(k) || exists|i: int| 0 <= i < j && #[trigger] xs[i].contains(k),
    decreases j,
{
    if j > 0 {
        lemma_sweeps_hand_over(es, ts, xs, j - 1, k);
        assert(swept_run(es, ts, xs, j - 1));
        if es[j - 1].ttls().contains_key(k) && !es[j].ttls().contains_key(k) {
            assert(xs[j - 1].contains(k));
        }
    }
}

/// Over a run of expiry sweeps with nothing else in between, a key handed
/// over at sweep `j` had a TTL at the start that had passed by sweep `j`
/// but not by any earlier sweep; no other sweep hands it over, and it has
/// no TTL from then on.
pub proof fn law_sweeps_hand_each_key_once(
    es: Seq<KVEngine>,
    ts: Seq<Timestamp>,
    xs: Seq<Seq<Seq<char>>>,
    j: int,
    k: Seq<char>,
)
    requires
        sweep_run(es, ts, xs),
        0 <= j < ts.len(),
        xs[j].contains(k),
    ensures
        es[0].ttls().contains_key(k),
        es[0].ttls()[k] < ts[j],
        forall|i: int| 0 <= i < j ==> es[0].ttls()[k] >= #[trigger] ts[i] && !xs[i].contains(k),
        forall|i: int| j < i < ts.len() ==> !(#[trigger] xs[i]).contains(k),
        forall|i: int| j < i <= ts.len() ==> !(#[trigger] es[i]).ttls().contains_key(k),
{
    assert(swept_run(es, ts, xs, j));
    lemma_sweeps_keep(es, ts, xs, 0, j, k);
    assert(!es[j + 1].ttls().contains_key(k));
    assert forall|i: int| j < i <= ts.len() implies !(#[trigger] es[i]).ttls().contains_key(k) by {
        if es[i].ttls().contains_key(k) {
            lemma_sweeps_keep(es, ts, xs, j + 1, i, k);
        }
    }
    assert forall|i: int| j < i < ts.len() implies !(#[trigger] xs[i]).contains(k) by {
        assert(swept_run(es, ts, xs, i));
        assert(!es[i].ttls().contains_key(k));
    }
}

/// Over a run of expiry sweeps with nothing else in between, a key whose
/// TTL at the start has passed by sweep `j` has been handed over by then.
pub proof fn law_sweeps_hand_over_every_expired_key(
    es: Seq<KVEngine>,
    ts: Seq<Timestamp>,
    xs: Seq<Seq<Seq<char>>>,
    j: int,
    k: Seq<char>,
)
    requires
        sweep_run(es, ts, xs),
        0 <= j < ts.len(),
        es[0].ttls().contains_key(k),
        es[0].ttls()[k] < ts[j],
    ensures
        exists|i: int| 0 <= i <= j && #[trigger] xs[i].contains(k),
{
    lemma_sweeps_hand_over(es, ts, xs, j, k);
    if es[j].ttls().contains_key(k) {
        lemma_sweeps_keep(es, ts, xs, 0, j, k);
        assert(swept_run(es, ts, xs, j));
        assert(xs[j].contains(k));
    }
}

/// The cleanup at `now` keeps subscription `s` under pattern `p`.
pub open spec fn survives(v: Seq<PatternSubscriptions>, now: Timestamp, secs: u64, nanos: u32, p: ChannelPatternView, s: Subscription) -> bool {
    exists|h: int| 0 <= h < prune_inactive(v, now, secs, nanos).len()
        && #[trigger] prune_inactive(v, now, secs, nanos)[h].0 == p
        && prune_inactive(v, now, secs, nanos)[h].1.contains(s)
}

/// A subscription still active at `now` survives the cleanup at `now`,
/// under its pattern.
pub proof fn law_cleanup_keeps_active(v: Seq<PatternSubscriptions>, now: Timestamp, secs: u64, nanos: u32, g: int, i: int)
    requires
        0 <= g < v.len(),
        0 <= i < v[g].1.len(),
        still_active(v[g].1[i].last_activity, now, secs, nanos),
    ensures
        survives(v, now, secs, nanos, v[g].0, v[g].1[i]),
    decreases v.len(),
{
    let rest = prune_inactive(v.drop_last(), now, secs, nanos);
    let p = prune_inactive(v, now, secs, nanos);
    if g == v.len() - 1 {
        let pred = |s: Subscription| still_active(s.last_activity, now, secs, nanos);
        v.last().1.lemma_filter_contains(pred, i);
        let kept = active_subscriptions(v.last().1, now, secs, nanos);
        assert(kept.contains(v[g].1[i]));
        assert(kept.len() > 0);
        assert(p == rest + seq![(v.last().0, kept)]);
        let h = rest.len() as int;
        assert(p[h] == (v.last().0, kept));
        assert(0 <= h < p.len() && p[h].0 == v[g].0 && p[h].1.contains(v[g].1[i]));
    } else {
        assert(v.drop_last()[g] == v[g]);
        assert(v.drop_last()[g].1[i] == v[g].1[i]);
        law_cleanup_keeps_active(v.drop_last(), now, secs, nanos, g, i);
        let h = choose|h: int| 0 <= h < rest.len() && #[trigger] rest[h].0 == v.drop_last()[g].0
            && rest[h].1.contains(v.drop_last()[g].1[i]);
        let last_kept = active_subscriptions(v.last().1, now, secs, nanos);
        let tail = if last_kept.len() > 0 {
            seq![(v.last().0, last_kept)]
        } else {
            Seq::<PatternSubscriptions>::empty()
        };
        assert(p == rest + tail);
        assert(p[h] == rest[h]);
        assert(0 <= h < p.len() && p[h].0 == v[g].0 && p[h].1.contains(v[g].1[i]));
    }
}

/// Every subscription that a publish at `now` keeps under a matching
/// pattern survives any cleanup at a time `t` less than a timeout after
/// `now`: publishing to a subscription keeps it active.
pub proof fn law_published_subscription_survives_cleanup(
    before: Seq<PatternSubscriptions>,
    after: Seq<PatternSubscriptions>,
    made: Seq<(Subscription, bool)>,
    channel: Seq<char>,
    message: ValueView,
    now: Timestamp,
    r: KVResult<usize>,
    t: Timestamp,
    secs: u64,
    nanos: u32,
)
    requires
        publish_effect(before, after, made, channel, message, now, r),
        now <= t,
        (t - now) * 1_000_000 < secs * 1_000_000_000 + nanos,
    ensures
        forall|g: int, i: int| 0 <= g < after.len() && pattern_matches(after[g].0, channel) && 0 <= i < after[g].1.len()
            ==> survives(after, t, secs, nanos, after[g].0, #[trigger] after[g].1[i]),
{
    law_publish_announces(before, after, made, channel, message, now, r);
    assert forall|g: int, i: int| 0 <= g < after.len() && pattern_matches(after[g].0, channel) && 0 <= i < after[g].1.len()
        implies survives(after, t, secs, nanos, after[g].0, #[trigger] after[g].1[i]) by {
        assert(after[g].1[i].last_activity == now);
        law_cleanup_keeps_active(after, t, secs, nanos, g, i);
    }
}

} // verus!
