//! TTL (time to live) management: which keys expire when, and the removal
//! of expired keys.

use vstd::prelude::*;
use crate::table::Table;
use crate::time::{Timestamp, MAX_TIMESTAMP, now_millis, expiry_after, expiry_time, seconds_until, remaining_seconds};
use crate::types::{Entry, Key, TTL, expired_at, remaining_at};
use crate::error::{KVError, KVResult};

verus! {

/// The whole seconds of a duration, as `Duration::as_secs` gives them.
pub uninterp spec fn duration_secs(d: std::time::Duration) -> u64;

/// The fractional part of a duration in nanoseconds, as
/// `Duration::subsec_nanos` gives it.
pub uninterp spec fn duration_subsec_nanos(d: std::time::Duration) -> u32;

/// `Duration::as_secs`: the whole seconds of `d`, a function of `d` alone.
#[verifier::external_body]
pub(crate) fn duration_as_secs(d: &std::time::Duration) -> (r: u64)
    ensures
        r == duration_secs(*d),
{
    d.as_secs()
}

/// `Duration::subsec_nanos`: the nanoseconds past the whole seconds of
/// `d`, a function of `d` alone; its documentation states that the value is
/// always below one billion.
#[verifier::external_body]
pub(crate) fn duration_nanos(d: &std::time::Duration) -> (r: u32)
    ensures
        r == duration_subsec_nanos(*d),
        r < 1_000_000_000,
{
    d.subsec_nanos()
}

/// The longest time span that chrono can hold, in whole seconds and the
/// nanoseconds past them (`i64::MAX` milliseconds).
pub const MAX_SPAN_SECS: u64 = 9_223_372_036_854_775;

/// The nanoseconds past `MAX_SPAN_SECS` of the longest time span.
pub const MAX_SPAN_NANOS: u32 = 807_000_000;

/// Whether chrono can hold a span of `secs` seconds and `nanos` nanoseconds.
pub open spec fn span_fits(secs: u64, nanos: u32) -> bool {
    secs < MAX_SPAN_SECS || (secs == MAX_SPAN_SECS && nanos <= MAX_SPAN_NANOS)
}

/// The whole milliseconds of a span.
pub open spec fn span_millis(secs: u64, nanos: u32) -> int {
    secs * 1000 + nanos / 1_000_000
}

/// `Duration::from_secs`: a span of `secs` whole seconds.
#[verifier::external_body]
pub(crate) fn duration_from_secs(secs: u64) -> (d: std::time::Duration)
    ensures
        duration_secs(d) == secs,
        duration_subsec_nanos(d) == 0,
{
    std::time::Duration::from_secs(secs)
}

/// A group of keys that expire at the same instant, as specifications see it.
pub type BucketView = (Timestamp, Seq<Seq<char>>);

/// The views of the keys of a bucket.
pub open spec fn key_views(keys: Seq<Key>) -> Seq<Seq<char>> {
    keys.map_values(|k: Key| k@)
}

/// The views of the buckets.
pub open spec fn bucket_views(bs: Seq<(Timestamp, Vec<Key>)>) -> Seq<BucketView> {
    bs.map_values(|b: (Timestamp, Vec<Key>)| (b.0, key_views(b.1@)))
}

/// Bucket times strictly increase.
pub open spec fn buckets_sorted(bs: Seq<BucketView>) -> bool {
    forall|i: int, j: int| 0 <= i < j < bs.len() ==> (#[trigger] bs[i]).0 < (#[trigger] bs[j]).0
}

/// The buckets hold exactly the keys of `m`, each in the bucket of its
/// expiry time, once; no bucket is empty.
pub open spec fn buckets_match(bs: Seq<BucketView>, m: Map<Seq<char>, Timestamp>) -> bool {
    &&& forall|i: int| 0 <= i < bs.len() ==> (#[trigger] bs[i]).1.len() > 0 && bs[i].1.no_duplicates()
    &&& forall|i: int, j: int|
        0 <= i < bs.len() && 0 <= j < bs[i].1.len() ==> m.contains_key(#[trigger] bs[i].1[j])
            && m[bs[i].1[j]] == bs[i].0
    &&& forall|k: Seq<char>|
        #[trigger] m.contains_key(k) ==> exists|i: int, j: int|
            0 <= i < bs.len() && 0 <= j < bs[i].1.len() && #[trigger] bs[i].1[j] == k && bs[i].0 == m[k]
}

/// The keys of the buckets whose time is before `now`, bucket after bucket.
pub open spec fn keys_before(bs: Seq<BucketView>, now: Timestamp) -> Seq<Seq<char>>
    decreases bs.len(),
{
    if bs.len() == 0 || bs[0].0 >= now {
        Seq::empty()
    } else {
        bs[0].1 + keys_before(bs.drop_first(), now)
    }
}

/// The keys of the buckets whose time lies in `[lo, hi]`, bucket after bucket.
pub open spec fn keys_within(bs: Seq<BucketView>, lo: Timestamp, hi: int) -> Seq<Seq<char>>
    decreases bs.len(),
{
    if bs.len() == 0 {
        Seq::empty()
    } else {
        keys_within(bs.drop_last(), lo, hi) + if lo <= bs.last().0 && bs.last().0 <= hi {
            bs.last().1
        } else {
            Seq::empty()
        }
    }
}

/// What listing the keys that expire from `now` to `within` later gives
/// over the buckets `bs`: the keys of the buckets in that window, bucket
/// after bucket, or an error for a span longer than chrono can hold.
pub open spec fn expiring_result(bs: Seq<BucketView>, within: std::time::Duration, now: Timestamp, r: KVResult<Vec<Key>>) -> bool {
    match r {
        Ok(keys) => span_fits(duration_secs(within), duration_subsec_nanos(within))
            && key_views(keys@) == keys_within(bs, now, now + span_millis(duration_secs(within), duration_subsec_nanos(within))),
        Err(e) => !span_fits(duration_secs(within), duration_subsec_nanos(within))
            && (e matches KVError::TTL(msg) && msg@ == invalid_duration_text()),
    }
}

/// A key is listed by `keys_within` exactly when it lies in a bucket whose
/// time is in the window.
proof fn lemma_keys_within_contains(bs: Seq<BucketView>, lo: Timestamp, hi: int, k: Seq<char>)
    ensures
        keys_within(bs, lo, hi).contains(k) <==> exists|i: int, j: int|
            0 <= i < bs.len() && lo <= bs[i].0 <= hi && 0 <= j < bs[i].1.len() && #[trigger] bs[i].1[j] == k,
    decreases bs.len(),
{
    if bs.len() > 0 {
        let w = bs.drop_last();
        lemma_keys_within_contains(w, lo, hi, k);
        let rest = keys_within(w, lo, hi);
        let last = bs.last();
        let tail = if lo <= last.0 && last.0 <= hi { last.1 } else { Seq::<Seq<char>>::empty() };
        assert(keys_within(bs, lo, hi) == rest + tail);
        if keys_within(bs, lo, hi).contains(k) {
            let p = choose|p: int| 0 <= p < (rest + tail).len() && (rest + tail)[p] == k;
            if p < rest.len() {
                assert(rest[p] == k);
                assert(rest.contains(k));
                let (i, j) = choose|i: int, j: int|
                    0 <= i < w.len() && lo <= w[i].0 <= hi && 0 <= j < w[i].1.len() && #[trigger] w[i].1[j] == k;
                assert(bs[i] == w[i]);
            } else {
                assert(tail[p - rest.len()] == k);
                assert(bs[bs.len() - 1].1[p - rest.len()] == k);
            }
        }
        if exists|i: int, j: int| 0 <= i < bs.len() && lo <= bs[i].0 <= hi && 0 <= j < bs[i].1.len() && #[trigger] bs[i].1[j] == k {
            let (i, j) = choose|i: int, j: int|
                0 <= i < bs.len() && lo <= bs[i].0 <= hi && 0 <= j < bs[i].1.len() && #[trigger] bs[i].1[j] == k;
            if i < w.len() {
                assert(w[i] == bs[i]);
                assert(w[i].1[j] == k);
                assert(rest.contains(k));
                let p = choose|p: int| 0 <= p < rest.len() && rest[p] == k;
                assert((rest + tail)[p] == k);
            } else {
                assert((rest + tail)[rest.len() + j] == k);
            }
        }
    }
}

/// Every expiry time lies between the epoch and `MAX_TIMESTAMP`.
pub open spec fn times_in_range(m: Map<Seq<char>, Timestamp>) -> bool {
    forall|k: Seq<char>| #[trigger] m.contains_key(k) ==> 0 <= m[k] <= MAX_TIMESTAMP
}

/// The keys of `m` whose expiry is not before `now`.
pub open spec fn unexpired(m: Map<Seq<char>, Timestamp>, now: Timestamp) -> Map<Seq<char>, Timestamp> {
    Map::new(|k: Seq<char>| m.contains_key(k) && m[k] >= now, |k: Seq<char>| m[k])
}

/// The remaining TTL of `key` at `now`: `None` without a TTL, else whole
/// seconds left (0 once expired).
pub open spec fn ttl_at(m: Map<Seq<char>, Timestamp>, key: Seq<char>, now: Timestamp) -> Option<TTL> {
    if m.contains_key(key) {
        Some(seconds_until(now, m[key]))
    } else {
        None
    }
}

/// Whether `key` has a TTL that has passed at `now`.
pub open spec fn ttl_expired_at(m: Map<Seq<char>, Timestamp>, key: Seq<char>, now: Timestamp) -> bool {
    m.contains_key(key) && now > m[key]
}

/// The number of keys of `m` whose expiry is at most `now`.
pub open spec fn count_passed(m: Map<Seq<char>, Timestamp>, now: Timestamp) -> nat {
    m.dom().filter(|k: Seq<char>| m[k] <= now).len()
}

/// The number of keys of `ks` whose expiry in `m` is at most `now`.
pub open spec fn count_passed_in(ks: Seq<Seq<char>>, m: Map<Seq<char>, Timestamp>, now: Timestamp) -> nat
    decreases ks.len(),
{
    if ks.len() == 0 {
        0
    } else {
        count_passed_in(ks.drop_last(), m, now) + if m[ks.last()] <= now { 1nat } else { 0nat }
    }
}

proof fn lemma_count_passed_in(ks: Seq<Seq<char>>, m: Map<Seq<char>, Timestamp>, now: Timestamp)
    requires
        ks.no_duplicates(),
    ensures
        count_passed_in(ks, m, now) == ks.to_set().filter(|k: Seq<char>| m[k] <= now).len(),
        ks.to_set().filter(|k: Seq<char>| m[k] <= now).finite(),
    decreases ks.len(),
{
    broadcast use vstd::seq_lib::seq_to_set_is_finite;
    broadcast use vstd::set::group_set_axioms;
    let f = |k: Seq<char>| m[k] <= now;
    if ks.len() == 0 {
        assert(ks.to_set().filter(f) =~= Set::<Seq<char>>::empty());
    } else {
        let rest = ks.drop_last();
        let x = ks.last();
        assert(rest.no_duplicates());
        lemma_count_passed_in(rest, m, now);
        assert(ks.to_set() =~= rest.to_set().insert(x)) by {
            assert forall|y: Seq<char>| ks.to_set().contains(y) <==> rest.to_set().insert(x).contains(y) by {
                if ks.to_set().contains(y) {
                    let q = choose|q: int| 0 <= q < ks.len() && ks[q] == y;
                    if q < rest.len() {
                        assert(rest[q] == y);
                    }
                }
                if rest.to_set().contains(y) {
                    let q = choose|q: int| 0 <= q < rest.len() && rest[q] == y;
                    assert(ks[q] == y);
                }
            }
        }
        assert(!rest.to_set().contains(x)) by {
            if rest.to_set().contains(x) {
                let q = choose|q: int| 0 <= q < rest.len() && rest[q] == x;
                assert(ks[q] == ks[ks.len() - 1]);
            }
        }
        if f(x) {
            assert(ks.to_set().filter(f) =~= rest.to_set().filter(f).insert(x));
        } else {
            assert(ks.to_set().filter(f) =~= rest.to_set().filter(f));
        }
    }
}

proof fn lemma_drop_first_bucket(bs: Seq<BucketView>, m: Map<Seq<char>, Timestamp>)
    requires
        bs.len() > 0,
        buckets_sorted(bs),
        buckets_match(bs, m),
    ensures
        buckets_sorted(bs.drop_first()),
        buckets_match(bs.drop_first(), m.remove_keys(bs[0].1.to_set())),
        forall|k: Seq<char>| bs[0].1.contains(k) <==> (m.contains_key(k) && m[k] == bs[0].0),
{
    let rest = bs.drop_first();
    let m1 = m.remove_keys(bs[0].1.to_set());
    assert forall|a: int, b: int| 0 <= a < b < rest.len() implies (#[trigger] rest[a]).0 < (#[trigger] rest[b]).0 by {
        assert(rest[a] == bs[a + 1]);
        assert(rest[b] == bs[b + 1]);
    }
    assert forall|k: Seq<char>| bs[0].1.contains(k) <==> (m.contains_key(k) && m[k] == bs[0].0) by {
        if bs[0].1.contains(k) {
            let j = choose|j: int| 0 <= j < bs[0].1.len() && bs[0].1[j] == k;
            assert(m.contains_key(bs[0].1[j]));
        }
        if m.contains_key(k) && m[k] == bs[0].0 {
            let (i, j) = choose|i: int, j: int|
                0 <= i < bs.len() && 0 <= j < bs[i].1.len() && #[trigger] bs[i].1[j] == k && bs[i].0 == m[k];
            if i > 0 {
                assert(bs[0].0 < bs[i].0);
            }
            assert(bs[0].1[j] == k);
        }
    }
    assert forall|i: int| 0 <= i < rest.len() implies (#[trigger] rest[i]).1.len() > 0 && rest[i].1.no_duplicates() by {
        assert(rest[i] == bs[i + 1]);
    }
    assert forall|i: int, j: int| 0 <= i < rest.len() && 0 <= j < rest[i].1.len() implies m1.contains_key(#[trigger] rest[i].1[j]) && m1[rest[i].1[j]] == rest[i].0 by {
        assert(rest[i] == bs[i + 1]);
        let k = bs[i + 1].1[j];
        assert(m.contains_key(k) && m[k] == bs[i + 1].0);
        assert(bs[0].0 < bs[i + 1].0);
        assert(!bs[0].1.contains(k));
    }
    assert forall|k: Seq<char>| #[trigger] m1.contains_key(k) implies exists|i: int, j: int|
        0 <= i < rest.len() && 0 <= j < rest[i].1.len() && #[trigger] rest[i].1[j] == k && rest[i].0 == m1[k] by {
        let (i, j) = choose|i: int, j: int|
            0 <= i < bs.len() && 0 <= j < bs[i].1.len() && #[trigger] bs[i].1[j] == k && bs[i].0 == m[k];
        if i == 0 {
            assert(bs[0].1.contains(k));
        } else {
            assert(rest[i - 1] == bs[i]);
            assert(rest[i - 1].1[j] == k);
        }
    }
}

/// The message of the error for a span that chrono cannot hold.
pub open spec fn invalid_duration_text() -> Seq<char> {
    "Invalid duration: Source duration value is out of range for the target type"@
}

/// The text `Invalid duration: Source duration value is out of range for
/// the target type`.
fn invalid_duration_message() -> (r: String)
    ensures
        r@ == invalid_duration_text(),
{
    "Invalid duration: Source duration value is out of range for the target type".to_owned()
}

/// Statistics for TTL usage.
#[derive(Debug, Clone, Copy)]
pub struct TTLStats {
    pub total_keys_with_ttl: usize,
    pub active_keys: usize,
    pub expired_keys: usize,
    pub next_expiration: Option<Timestamp>,
}

/// TTL manager for handling key expiration.
pub struct TTLManager {
    /// Expiration time -> keys that expire then, ordered by time.
    expiration_map: Vec<(Timestamp, Vec<Key>)>,
    /// Key -> expiration time.
    key_expirations: Table<Timestamp>,
    /// Check interval for expired keys.
    check_interval: std::time::Duration,
}

impl View for TTLManager {
    type V = Map<Seq<char>, Timestamp>;

    closed spec fn view(&self) -> Map<Seq<char>, Timestamp> {
        self.key_expirations@
    }
}

proof fn lemma_key_views_remove(keys: Seq<Key>, p: int)
    requires
        0 <= p < keys.len(),
    ensures
        key_views(keys.remove(p)) == key_views(keys).remove(p),
{
    assert(key_views(keys.remove(p)) =~= key_views(keys).remove(p));
}

proof fn lemma_key_views_push(keys: Seq<Key>, k: Key)
    ensures
        key_views(keys.push(k)) == key_views(keys).push(k@),
{
    assert(key_views(keys.push(k)) =~= key_views(keys).push(k@));
}

impl TTLManager {
    /// The buckets, ordered by time.
    pub closed spec fn buckets(&self) -> Seq<BucketView> {
        bucket_views(self.expiration_map@)
    }

    /// The check interval.
    pub closed spec fn spec_check_interval(&self) -> std::time::Duration {
        self.check_interval
    }

    /// Both indexes agree: every key with a TTL sits in the bucket of its
    /// expiry time, once, and the buckets hold nothing else.
    pub closed spec fn wf(&self) -> bool {
        &&& self.key_expirations.wf()
        &&& times_in_range(self@)
        &&& buckets_sorted(self.buckets())
        &&& buckets_match(self.buckets(), self@)
    }

    /// A new TTL manager with no TTLs.
    pub fn new(check_interval: std::time::Duration) -> (m: Self)
        ensures
            m.wf(),
            m@ == Map::<Seq<char>, Timestamp>::empty(),
            m.spec_check_interval() == check_interval,
    {
        let m = TTLManager { expiration_map: Vec::new(), key_expirations: Table::new(), check_interval };
        assert(m.buckets() =~= Seq::<BucketView>::empty());
        m
    }

    /// The check interval.
    pub fn check_interval(&self) -> (d: std::time::Duration)
        ensures
            d == self.spec_check_interval(),
    {
        self.check_interval
    }

    /// The position of the bucket for time `t`, if there is one.
    fn find_bucket(&self, t: Timestamp) -> (r: Option<usize>)
        ensures
            match r {
                Some(i) => i < self.buckets().len() && self.buckets()[i as int].0 == t,
                None => forall|i: int| 0 <= i < self.buckets().len() ==> (#[trigger] self.buckets()[i]).0 != t,
            },
    {
        let mut i: usize = 0;
        while i < self.expiration_map.len()
            invariant
                i <= self.expiration_map@.len(),
                self.buckets().len() == self.expiration_map@.len(),
                forall|j: int| 0 <= j < i ==> (#[trigger] self.buckets()[j]).0 != t,
            decreases self.expiration_map@.len() - i,
        {
            assert(self.buckets()[i as int].0 == self.expiration_map@[i as int].0);
            if self.expiration_map[i].0 == t {
                return Some(i);
            }
            i = i + 1;
        }
        None
    }

    /// Takes `key` out of both indexes; true if it had a TTL.
    fn detach(&mut self, key: &str) -> (r: bool)
        requires
            old(self).wf(),
        ensures
            final(self).wf(),
            final(self)@ == old(self)@.remove(key@),
            final(self).spec_check_interval() == old(self).spec_check_interval(),
            r == old(self)@.contains_key(key@),
    {
        let ghost m0 = self@;
        let ghost bs0 = self.buckets();
        let t = match self.key_expirations.remove(key) {
            Some(t) => t,
            None => {
                return false;
            },
        };
        let ghost m1 = self@;
        assert(m1 == m0.remove(key@));
        let ghost bi0 = choose|i: int, j: int|
            0 <= i < bs0.len() && 0 <= j < bs0[i].1.len() && #[trigger] bs0[i].1[j] == key@ && bs0[i].0 == m0[key@];
        let bi = match self.find_bucket(t) {
            Some(i) => i,
            None => {
                assert(bs0[bi0.0].0 == t);
                return true;  // unreachable: the key sits in the bucket of its time
            },
        };
        proof {
            if bi0.0 != bi as int {
                if bi0.0 < bi { assert(bs0[bi0.0].0 < bs0[bi as int].0); } else { assert(bs0[bi as int].0 < bs0[bi0.0].0); }
            }
        }
        let (bt, mut keys) = self.expiration_map.remove(bi);
        let ghost kv0 = key_views(keys@);
        assert(kv0 == bs0[bi as int].1);
        let wanted: String = key.to_owned();
        let mut p: usize = 0;
        while p < keys.len() && !(keys[p] == wanted)
            invariant
                key_views(keys@) == kv0,
                wanted@ == key@,
                p <= keys@.len(),
                forall|q: int| 0 <= q < p ==> kv0[q] != key@,
            decreases keys@.len() - p,
        {
            assert(kv0[p as int] == keys@[p as int]@);
            p = p + 1;
        }
        proof {
            if p < keys@.len() {
                assert(kv0[p as int] == keys@[p as int]@);
            }
        }
        if p == keys.len() {
            assert(kv0[bi0.1] == key@);
            return true;  // unreachable: the key is in this bucket
        }
        assert(kv0[p as int] == key@);
        let ghost keys0 = keys@;
        keys.remove(p);
        proof {
            lemma_key_views_remove(keys0, p as int);
        }
        let ghost kv1 = key_views(keys@);
        assert(kv1 == kv0.remove(p as int)) by {
            assert(kv1 =~= kv0.remove(p as int));
        }
        if keys.len() > 0 {
            self.expiration_map.insert(bi, (bt, keys));
        }
        proof {
            let bs = self.buckets();
            let rest = bs0.remove(bi as int);
            if kv1.len() > 0 {
                assert(bs =~= rest.insert(bi as int, (t, kv1)));
            } else {
                assert(bs =~= rest);
            }
            // sortedness
            assert forall|a: int, b: int| 0 <= a < b < bs.len() implies (#[trigger] bs[a]).0 < (#[trigger] bs[b]).0 by {
                let a2 = if kv1.len() > 0 || a < bi { a } else { a + 1 };
                let b2 = if kv1.len() > 0 || b < bi { b } else { b + 1 };
                assert(bs[a].0 == bs0[a2].0);
                assert(bs[b].0 == bs0[b2].0);
            }
            // each bucket's keys map to its time, in the new map
            assert forall|i: int| 0 <= i < bs.len() implies (#[trigger] bs[i]).1.len() > 0 && bs[i].1.no_duplicates() by {
                let i2 = if kv1.len() > 0 || i < bi { i } else { i + 1 };
                if i2 == bi {
                    assert(bs[i].1 == kv1);
                    assert forall|x: int, y: int| 0 <= x < kv1.len() && 0 <= y < kv1.len() && x != y implies kv1[x] != kv1[y] by {
                        let x2 = if x < p { x } else { x + 1 };
                        let y2 = if y < p { y } else { y + 1 };
                        assert(kv1[x] == kv0[x2]);
                        assert(kv1[y] == kv0[y2]);
                    }
                } else {
                    assert(bs[i] == bs0[i2]);
                }
            }
            assert forall|i: int, j: int| 0 <= i < bs.len() && 0 <= j < bs[i].1.len() implies m1.contains_key(#[trigger] bs[i].1[j]) && m1[bs[i].1[j]] == bs[i].0 by {
                let i2 = if kv1.len() > 0 || i < bi { i } else { i + 1 };
                if i2 == bi {
                    let j2 = if j < p { j } else { j + 1 };
                    assert(bs[i].1[j] == kv0[j2]);
                    assert(bs0[bi as int].1[j2] == kv0[j2]);
                    assert(kv0[j2] != key@);
                } else {
                    assert(bs[i] == bs0[i2]);
                    assert(bs0[i2].1[j] != key@) by {
                        assert(m0[bs0[i2].1[j]] == bs0[i2].0);
                        if bs0[i2].1[j] == key@ {
                            if i2 < bi { assert(bs0[i2].0 < bs0[bi as int].0); } else { assert(bs0[bi as int].0 < bs0[i2].0); }
                        }
                    }
                }
            }
            assert forall|k: Seq<char>| #[trigger] m1.contains_key(k) implies exists|i: int, j: int|
                0 <= i < bs.len() && 0 <= j < bs[i].1.len() && #[trigger] bs[i].1[j] == k && bs[i].0 == m1[k] by {
                let (i0, j0) = choose|i: int, j: int|
                    0 <= i < bs0.len() && 0 <= j < bs0[i].1.len() && #[trigger] bs0[i].1[j] == k && bs0[i].0 == m0[k];
                if i0 == bi {
                    assert(j0 != p);
                    let j1 = if j0 < p { j0 } else { j0 - 1 };
                    assert(kv1[j1] == k);
                    assert(kv1.len() > 0);
                    assert(bs[bi as int].1[j1] == k);
                } else {
                    let i1 = if kv1.len() > 0 || i0 < bi { i0 } else { i0 - 1 };
                    assert(bs[i1] == bs0[i0]);
                    assert(bs[i1].1[j0] == k);
                }
            }
        }
        true
    }

    /// Adds `key`, which has no TTL, with expiry time `t`.
    fn attach(&mut self, key: Key, t: Timestamp)
        requires
            old(self).wf(),
            !old(self)@.contains_key(key@),
            0 <= t <= MAX_TIMESTAMP,
        ensures
            final(self).wf(),
            final(self)@ == old(self)@.insert(key@, t),
            final(self).spec_check_interval() == old(self).spec_check_interval(),
    {
        let ghost m0 = self@;
        let ghost bs0 = self.buckets();
        let ghost k = key@;
        let key_copy = key.clone();
        self.key_expirations.insert(key_copy, t);
        let ghost m1 = self@;
        assert(m1 == m0.insert(k, t));
        match self.find_bucket(t) {
            Some(bi) => {
                let (bt, mut keys) = self.expiration_map.remove(bi);
                let ghost kv0 = key_views(keys@);
                assert(kv0 == bs0[bi as int].1);
                let ghost keys0 = keys@;
                keys.push(key);
                proof {
                    lemma_key_views_push(keys0, keys@.last());
                    assert(keys@ == keys0.push(keys@.last()));
                }
                let ghost kv1 = key_views(keys@);
                assert(kv1 == kv0.push(k)) by {
                    assert(kv1 =~= kv0.push(k));
                }
                self.expiration_map.insert(bi, (bt, keys));
                proof {
                    let bs = self.buckets();
                    assert(bs =~= bs0.update(bi as int, (t, kv1)));
                    assert forall|a: int, b: int| 0 <= a < b < bs.len() implies (#[trigger] bs[a]).0 < (#[trigger] bs[b]).0 by {
                        assert(bs[a].0 == bs0[a].0);
                        assert(bs[b].0 == bs0[b].0);
                    }
                    assert forall|i: int| 0 <= i < bs.len() implies (#[trigger] bs[i]).1.len() > 0 && bs[i].1.no_duplicates() by {
                        if i == bi {
                            assert forall|x: int, y: int| 0 <= x < kv1.len() && 0 <= y < kv1.len() && x != y implies kv1[x] != kv1[y] by {
                                if x == kv0.len() {
                                    assert(m0.contains_key(kv0[y]));
                                } else if y == kv0.len() {
                                    assert(m0.contains_key(kv0[x]));
                                }
                            }
                        }
                    }
                    assert forall|i: int, j: int| 0 <= i < bs.len() && 0 <= j < bs[i].1.len() implies m1.contains_key(#[trigger] bs[i].1[j]) && m1[bs[i].1[j]] == bs[i].0 by {
                        if i == bi && j == kv0.len() {
                        } else if i == bi {
                            assert(bs[i].1[j] == kv0[j]);
                            assert(m0.contains_key(kv0[j]));
                        } else {
                            assert(bs[i] == bs0[i]);
                            assert(m0.contains_key(bs0[i].1[j]));
                        }
                    }
                    assert forall|kk: Seq<char>| #[trigger] m1.contains_key(kk) implies exists|i: int, j: int|
                        0 <= i < bs.len() && 0 <= j < bs[i].1.len() && #[trigger] bs[i].1[j] == kk && bs[i].0 == m1[kk] by {
                        if kk == k {
                            assert(bs[bi as int].1[kv0.len() as int] == kk);
                        } else {
                            let (i0, j0) = choose|i: int, j: int|
                                0 <= i < bs0.len() && 0 <= j < bs0[i].1.len() && #[trigger] bs0[i].1[j] == kk && bs0[i].0 == m0[kk];
                            if i0 == bi {
                                assert(bs[i0].1[j0] == kk);
                            } else {
                                assert(bs[i0] == bs0[i0]);
                            }
                        }
                    }
                }
            },
            None => {
                let mut p: usize = 0;
                while p < self.expiration_map.len() && self.expiration_map[p].0 < t
                    invariant
                        self.buckets() == bs0,
                        bs0.len() == self.expiration_map@.len(),
                        p <= bs0.len(),
                        forall|q: int| 0 <= q < p ==> (#[trigger] bs0[q]).0 < t,
                    decreases bs0.len() - p,
                {
                    assert(bs0[p as int].0 == self.expiration_map@[p as int].0);
                    p = p + 1;
                }
                proof {
                    if p < bs0.len() {
                        assert(bs0[p as int].0 == self.expiration_map@[p as int].0);
                    }
                }
                let mut keys: Vec<Key> = Vec::new();
                keys.push(key);
                let ghost kv1 = key_views(keys@);
                assert(kv1 =~= seq![k]);
                self.expiration_map.insert(p, (t, keys));
                proof {
                    let bs = self.buckets();
                    assert(bs =~= bs0.insert(p as int, (t, kv1)));
                    assert forall|a: int, b: int| 0 <= a < b < bs.len() implies (#[trigger] bs[a]).0 < (#[trigger] bs[b]).0 by {
                        if a < p && b == p {
                        } else if a == p {
                            assert(bs[b] == bs0[b - 1]);
                            assert(bs0[p as int].0 != t);
                            if b - 1 > p { assert(bs0[p as int].0 < bs0[b - 1].0); }
                        } else if a < p {
                            assert(bs[a] == bs0[a]);
                            if b < p { assert(bs[b] == bs0[b]); } else { assert(bs[b] == bs0[b - 1]); }
                        } else {
                            assert(bs[a] == bs0[a - 1]);
                            assert(bs[b] == bs0[b - 1]);
                        }
                    }
                    assert forall|i: int| 0 <= i < bs.len() implies (#[trigger] bs[i]).1.len() > 0 && bs[i].1.no_duplicates() by {
                        if i < p { assert(bs[i] == bs0[i]); } else if i > p { assert(bs[i] == bs0[i - 1]); }
                    }
                    assert forall|i: int, j: int| 0 <= i < bs.len() && 0 <= j < bs[i].1.len() implies m1.contains_key(#[trigger] bs[i].1[j]) && m1[bs[i].1[j]] == bs[i].0 by {
                        if i < p {
                            assert(bs[i] == bs0[i]);
                            assert(m0.contains_key(bs0[i].1[j]));
                        } else if i > p {
                            assert(bs[i] == bs0[i - 1]);
                            assert(m0.contains_key(bs0[i - 1].1[j]));
                        }
                    }
                    assert forall|kk: Seq<char>| #[trigger] m1.contains_key(kk) implies exists|i: int, j: int|
                        0 <= i < bs.len() && 0 <= j < bs[i].1.len() && #[trigger] bs[i].1[j] == kk && bs[i].0 == m1[kk] by {
                        if kk == k {
                            assert(bs[p as int].1[0] == kk);
                        } else {
                            let (i0, j0) = choose|i: int, j: int|
                                0 <= i < bs0.len() && 0 <= j < bs0[i].1.len() && #[trigger] bs0[i].1[j] == kk && bs0[i].0 == m0[kk];
                            if i0 < p {
                                assert(bs[i0] == bs0[i0]);
                                assert(bs[i0].1[j0] == kk);
                            } else {
                                assert(bs[i0 + 1] == bs0[i0]);
                                assert(bs[i0 + 1].1[j0] == kk);
                            }
                        }
                    }
                }
            },
        }
    }

    /// Sets the TTL of `key` to `ttl` seconds after `now`, replacing any
    /// earlier one. The expiry is capped at `MAX_TIMESTAMP`.
    pub fn set_ttl_at(&mut self, key: Key, ttl: TTL, now: Timestamp) -> (r: KVResult<()>)
        requires
            old(self).wf(),
            0 <= now <= MAX_TIMESTAMP,
        ensures
            final(self).wf(),
            final(self)@ == old(self)@.insert(key@, expiry_after(now, ttl)),
            final(self).spec_check_interval() == old(self).spec_check_interval(),
            r is Ok,
    {
        let t = expiry_time(now, ttl);
        self.detach(key.as_str());
        self.attach(key, t);
        assert(self@ =~= old(self)@.insert(key@, t));
        Ok(())
    }

    /// Sets the TTL of `key` to `ttl` seconds from now.
    pub fn set_ttl(&mut self, key: Key, ttl: TTL) -> (r: KVResult<()>)
        requires
            old(self).wf(),
        ensures
            final(self).wf(),
            exists|now: Timestamp|
                0 <= now <= MAX_TIMESTAMP && final(self)@ == old(self)@.insert(key@, expiry_after(now, ttl)),
            final(self).spec_check_interval() == old(self).spec_check_interval(),
            r is Ok,
    {
        let now = now_millis();
        self.set_ttl_at(key, ttl, now)
    }

    /// Removes the TTL of `key`; true if it had one.
    pub fn remove_ttl(&mut self, key: &Key) -> (r: KVResult<bool>)
        requires
            old(self).wf(),
        ensures
            final(self).wf(),
            final(self)@ == old(self)@.remove(key@),
            final(self).spec_check_interval() == old(self).spec_check_interval(),
            r == Ok::<bool, KVError>(old(self)@.contains_key(key@)),
    {
        Ok(self.detach(key.as_str()))
    }

    /// The remaining TTL of `key` at `now`.
    pub fn get_ttl_at(&self, key: &Key, now: Timestamp) -> (r: KVResult<Option<TTL>>)
        requires
            self.wf(),
            0 <= now,
        ensures
            r == Ok::<Option<TTL>, KVError>(ttl_at(self@, key@, now)),
    {
        match self.key_expirations.get(key.as_str()) {
            Some(t) => Ok(Some(remaining_seconds(now, *t))),
            None => Ok(None),
        }
    }

    /// The remaining TTL of `key` now.
    pub fn get_ttl(&self, key: &Key) -> (r: KVResult<Option<TTL>>)
        requires
            self.wf(),
        ensures
            exists|now: Timestamp| 0 <= now <= MAX_TIMESTAMP && r == Ok::<Option<TTL>, KVError>(ttl_at(self@, key@, now)),
    {
        let now = now_millis();
        self.get_ttl_at(key, now)
    }

    /// Whether `key` has a TTL that has passed at `now`.
    pub fn is_expired_at(&self, key: &Key, now: Timestamp) -> (r: KVResult<bool>)
        requires
            self.wf(),
        ensures
            r == Ok::<bool, KVError>(ttl_expired_at(self@, key@, now)),
    {
        match self.key_expirations.get(key.as_str()) {
            Some(t) => Ok(now > *t),
            None => Ok(false),
        }
    }

    /// Whether `key` has a TTL that has passed now.
    pub fn is_expired(&self, key: &Key) -> (r: KVResult<bool>)
        requires
            self.wf(),
        ensures
            exists|now: Timestamp| 0 <= now <= MAX_TIMESTAMP && r == Ok::<bool, KVError>(ttl_expired_at(self@, key@, now)),
    {
        let now = now_millis();
        self.is_expired_at(key, now)
    }

    /// Takes out every key whose expiry is before `now` and gives them back,
    /// in expiry order.
    #[verifier::spinoff_prover]
    pub fn collect_expired(&mut self, now: Timestamp) -> (expired: Vec<Key>)
        requires
            old(self).wf(),
        ensures
            final(self).wf(),
            key_views(expired@) == keys_before(old(self).buckets(), now),
            forall|k: Seq<char>| #[trigger] key_views(expired@).contains(k) <==> old(self)@.contains_key(k) && old(self)@[k] < now,
            final(self)@ == unexpired(old(self)@, now),
            final(self).spec_check_interval() == old(self).spec_check_interval(),
    {
        let ghost m0 = self@;
        let ghost bs0 = self.buckets();
        let mut expired: Vec<Key> = Vec::new();
        let ghost mut taken: int = 0;
        while self.expiration_map.len() > 0 && self.expiration_map[0].0 < now
            invariant
                self.wf(),
                self.spec_check_interval() == old(self).spec_check_interval(),
                0 <= taken <= bs0.len(),
                self.buckets() == bs0.skip(taken),
                key_views(expired@) + keys_before(self.buckets(), now) == keys_before(bs0, now),
                self@ == m0.remove_keys(key_views(expired@).to_set()),
                forall|k: Seq<char>| key_views(expired@).contains(k) ==> m0.contains_key(k) && m0[k] < now,
            decreases self.expiration_map@.len(),
        {
            let ghost bs = self.buckets();
            let ghost m = self@;
            proof {
                assert(bs[0].0 == self.expiration_map@[0].0);
                lemma_drop_first_bucket(bs, m);
                assert(bs.skip(1) =~= bs.drop_first());
                assert(bs0.skip(taken).drop_first() =~= bs0.skip(taken + 1));
            }
            assert(bs[0].0 < now);
            let (t, keys) = self.expiration_map.remove(0);
            assert(key_views(keys@) == bs[0].1);
            assert(self.buckets() =~= bs.drop_first());
            let ghost e0 = expired@;
            let mut j: usize = 0;
            while j < keys.len()
                invariant
                    j <= keys@.len(),
                    bs.len() > 0,
                    key_views(keys@) == bs[0].1,
                    self.key_expirations.wf(),
                    self.buckets() == bs.drop_first(),
                    self.spec_check_interval() == old(self).spec_check_interval(),
                    key_views(expired@) == key_views(e0) + bs[0].1.take(j as int),
                    self@ == m.remove_keys(bs[0].1.take(j as int).to_set()),
                decreases keys@.len() - j,
            {
                self.key_expirations.remove(keys[j].as_str());
                let ghost before = expired@;
                expired.push(keys[j].clone());
                proof {
                    lemma_key_views_push(before, expired@.last());
                    let kj = bs[0].1[j as int];
                    assert(bs[0].1.take(j + 1) =~= bs[0].1.take(j as int).push(kj));
                    assert(key_views(e0) + bs[0].1.take(j + 1) =~= (key_views(e0) + bs[0].1.take(j as int)).push(kj));
                    let s0 = bs[0].1.take(j as int);
                    let s1 = bs[0].1.take(j + 1);
                    assert forall|x: Seq<char>| s1.to_set().contains(x) <==> s0.to_set().insert(kj).contains(x) by {
                        if s1.to_set().contains(x) {
                            let q = choose|q: int| 0 <= q < s1.len() && s1[q] == x;
                            if q < j {
                                assert(s0[q] == x);
                            }
                        }
                        if s0.to_set().contains(x) {
                            let q = choose|q: int| 0 <= q < s0.len() && s0[q] == x;
                            assert(s1[q] == x);
                        }
                        if x == kj {
                            assert(s1[j as int] == x);
                        }
                    }
                    assert(s1.to_set() =~= s0.to_set().insert(kj));
                    assert(m.remove_keys(s1.to_set()) =~= m.remove_keys(s0.to_set()).remove(kj));
                }
                j = j + 1;
            }
            proof {
                assert(bs[0].1.take(keys@.len() as int) =~= bs[0].1);
                let ev = key_views(expired@);
                assert(ev == key_views(e0) + bs[0].1);
                assert(keys_before(bs, now) == bs[0].1 + keys_before(bs.drop_first(), now));
                assert(ev + keys_before(self.buckets(), now) =~= key_views(e0) + keys_before(bs, now));
                let e0v = key_views(e0);
                assert forall|x: Seq<char>| ev.to_set().contains(x) <==> (e0v.to_set().contains(x) || bs[0].1.to_set().contains(x)) by {
                    if ev.to_set().contains(x) {
                        let q = choose|q: int| 0 <= q < ev.len() && ev[q] == x;
                        if q < e0v.len() {
                            assert(e0v[q] == x);
                        } else {
                            assert(bs[0].1[q - e0v.len()] == x);
                        }
                    }
                    if e0v.to_set().contains(x) {
                        let q = choose|q: int| 0 <= q < e0v.len() && e0v[q] == x;
                        assert(ev[q] == x);
                    }
                    if bs[0].1.to_set().contains(x) {
                        let q = choose|q: int| 0 <= q < bs[0].1.len() && bs[0].1[q] == x;
                        assert(ev[q + e0v.len()] == x);
                    }
                }
                assert(self@ =~= m0.remove_keys(ev.to_set()));
                assert forall|k: Seq<char>| ev.contains(k) implies m0.contains_key(k) && m0[k] < now by {
                    if !key_views(e0).contains(k) {
                        let q = choose|q: int| 0 <= q < ev.len() && ev[q] == k;
                        assert(bs[0].1[q - key_views(e0).len()] == k);
                        assert(bs[0].1.contains(k));
                        assert(m.contains_key(k) && m[k] == bs[0].0);
                        assert(bs[0].0 < now);
                        assert(m0.contains_key(k) && m0[k] == m[k]);
                    }
                }
            }
            proof {
                taken = taken + 1;
            }
        }
        proof {
            let bs = self.buckets();
            let ev = key_views(expired@);
            if bs.len() > 0 {
                assert(bs[0].0 == self.expiration_map@[0].0);
            }
            assert(keys_before(bs, now) =~= Seq::<Seq<char>>::empty());
            assert(ev =~= keys_before(bs0, now));
            assert forall|k: Seq<char>| #[trigger] self@.contains_key(k) implies self@[k] >= now by {
                {
                    let (i, j) = choose|i: int, j: int|
                        0 <= i < bs.len() && 0 <= j < bs[i].1.len() && #[trigger] bs[i].1[j] == k && bs[i].0 == self@[k];
                    if i > 0 {
                        assert(bs[0].0 < bs[i].0);
                    }
                }
            }
            assert forall|k: Seq<char>| m0.contains_key(k) && m0[k] < now implies ev.contains(k) by {
                if !ev.contains(k) {
                    assert(self@.contains_key(k));
                }
            }
            assert forall|k: Seq<char>| #[trigger] ev.contains(k) <==> m0.contains_key(k) && m0[k] < now by {}
            assert(self@ =~= unexpired(m0, now));
        }
        expired
    }

    /// The keys whose expiry lies from `now` to `within` later (both
    /// included), in expiry order; an error for a span longer than chrono
    /// can hold. The window ends at `MAX_TIMESTAMP` at the latest.
    pub fn get_expiring_keys_at(&self, within: std::time::Duration, now: Timestamp) -> (r: KVResult<Vec<Key>>)
        requires
            self.wf(),
            0 <= now <= MAX_TIMESTAMP,
        ensures
            expiring_result(self.buckets(), within, now, r),
    {
        let secs = duration_as_secs(&within);
        let nanos = duration_nanos(&within);
        if secs > MAX_SPAN_SECS || (secs == MAX_SPAN_SECS && nanos > MAX_SPAN_NANOS) {
            return Err(KVError::TTL(invalid_duration_message()));
        }
        let ms: i64 = (secs as i64) * 1000 + (nanos / 1_000_000) as i64;
        Ok(self.expiring_between(now, ms))
    }

    /// The keys whose expiry lies from now to `within` later.
    pub fn get_expiring_keys(&self, within: std::time::Duration) -> (r: KVResult<Vec<Key>>)
        requires
            self.wf(),
        ensures
            match r {
                Ok(keys) => span_fits(duration_secs(within), duration_subsec_nanos(within))
                    && exists|now: Timestamp| 0 <= now <= MAX_TIMESTAMP && key_views(keys@) == #[trigger] keys_within(
                    self.buckets(),
                    now,
                    now + span_millis(duration_secs(within), duration_subsec_nanos(within)),
                ),
                Err(e) => !span_fits(duration_secs(within), duration_subsec_nanos(within))
                    && (e matches KVError::TTL(msg) && msg@ == invalid_duration_text()),
            },
    {
        let now = now_millis();
        self.get_expiring_keys_at(within, now)
    }

    /// Removes every TTL.
    pub fn clear_all(&mut self)
        requires
            old(self).wf(),
        ensures
            final(self).wf(),
            final(self)@ == Map::<Seq<char>, Timestamp>::empty(),
            final(self).spec_check_interval() == old(self).spec_check_interval(),
    {
        self.expiration_map.clear();
        self.key_expirations.clear();
        assert(self.buckets() =~= Seq::<BucketView>::empty());
    }

    /// Statistics at `now`: how many keys have a TTL, how many of them have
    /// passed (expiry at or before `now`) and how many have not, and the
    /// earliest expiry.
    pub fn get_stats_at(&self, now: Timestamp) -> (r: KVResult<TTLStats>)
        requires
            self.wf(),
        ensures
            r matches Ok(st) && st.total_keys_with_ttl == self@.len()
                && st.expired_keys == count_passed(self@, now)
                && st.active_keys == self@.len() - count_passed(self@, now)
                && match st.next_expiration {
                None => self@.len() == 0,
                Some(t) => (exists|k: Seq<char>| self@.contains_key(k) && self@[k] == t)
                    && forall|k: Seq<char>| #[trigger] self@.contains_key(k) ==> t <= self@[k],
            },
    {
        proof {
            self.key_expirations.lemma_keys();
        }
        let ghost ks = self.key_expirations.key_seq();
        let n = self.key_expirations.len();
        let mut expired: usize = 0;
        let mut i: usize = 0;
        while i < n
            invariant
                self.key_expirations.wf(),
                ks == self.key_expirations.key_seq(),
                n == ks.len(),
                i <= n,
                expired == count_passed_in(ks.take(i as int), self@, now),
                expired <= i,
                forall|j: int| 0 <= j < ks.len() ==> #[trigger] self@[ks[j]] == self.key_expirations.value_seq()[j],
            decreases n - i,
        {
            let (_, t) = self.key_expirations.entry_at(i);
            proof {
                assert(ks.take(i + 1).drop_last() =~= ks.take(i as int));
                assert(self@[ks[i as int]] == *t);
            }
            if *t <= now {
                expired = expired + 1;
            }
            i = i + 1;
        }
        proof {
            assert(ks.take(n as int) =~= ks);
            lemma_count_passed_in(ks, self@, now);
            assert(ks.to_set().filter(|k: Seq<char>| self@[k] <= now) =~= self@.dom().filter(|k: Seq<char>| self@[k] <= now));
        }
        let next = if self.expiration_map.len() > 0 {
            proof {
                let bs = self.buckets();
                assert(bs[0].0 == self.expiration_map@[0].0);
                let k0 = bs[0].1[0];
                assert(self@.contains_key(k0) && self@[k0] == bs[0].0);
                assert forall|k: Seq<char>| #[trigger] self@.contains_key(k) implies bs[0].0 <= self@[k] by {
                    let (bi, bj) = choose|bi: int, bj: int|
                        0 <= bi < bs.len() && 0 <= bj < bs[bi].1.len() && #[trigger] bs[bi].1[bj] == k && bs[bi].0 == self@[k];
                    if bi > 0 {
                        assert(bs[0].0 < bs[bi].0);
                    }
                }
            }
            Some(self.expiration_map[0].0)
        } else {
            proof {
                if self@.len() > 0 {
                    let k = self@.dom().choose();
                    assert(self@.contains_key(k));
                }
            }
            None
        };
        Ok(TTLStats { total_keys_with_ttl: n, active_keys: n - expired, expired_keys: expired, next_expiration: next })
    }

    /// Statistics now.
    pub fn get_stats(&self) -> (r: KVResult<TTLStats>)
        requires
            self.wf(),
        ensures
            exists|now: Timestamp| 0 <= now <= MAX_TIMESTAMP && (r matches Ok(st) && st.total_keys_with_ttl == self@.len()
                && #[trigger] count_passed(self@, now) == st.expired_keys
                && st.active_keys == self@.len() - count_passed(self@, now)),
            r matches Ok(st) && match st.next_expiration {
                None => self@.len() == 0,
                Some(t) => (exists|k: Seq<char>| self@.contains_key(k) && self@[k] == t)
                    && forall|k: Seq<char>| #[trigger] self@.contains_key(k) ==> t <= self@[k],
            },
    {
        let now = now_millis();
        self.get_stats_at(now)
    }

    /// The keys that expire from `now` to `within_ms` milliseconds later
    /// (both included), in expiry order.
    fn expiring_between(&self, now: Timestamp, within_ms: i64) -> (r: Vec<Key>)
        requires
            self.wf(),
            0 <= now <= MAX_TIMESTAMP,
            0 <= within_ms,
        ensures
            key_views(r@) == keys_within(self.buckets(), now, now + within_ms),
    {
        let hi: i64 = if within_ms <= MAX_TIMESTAMP - now { now + within_ms } else { MAX_TIMESTAMP };
        let ghost bs = self.buckets();
        let mut r: Vec<Key> = Vec::new();
        let mut i: usize = 0;
        assert(bs.take(0) =~= Seq::<BucketView>::empty());
        while i < self.expiration_map.len()
            invariant
                self.wf(),
                bs == self.buckets(),
                bs.len() == self.expiration_map@.len(),
                i <= bs.len(),
                0 <= now <= MAX_TIMESTAMP,
                0 <= within_ms,
                hi == (if within_ms <= MAX_TIMESTAMP - now { now + within_ms } else { MAX_TIMESTAMP as int }),
                key_views(r@) == keys_within(bs.take(i as int), now, now + within_ms),
            decreases bs.len() - i,
        {
            let t = self.expiration_map[i].0;
            assert(bs[i as int].0 == t);
            proof {
                let k = bs[i as int].1[0];
                assert(self@.contains_key(k));
                assert(self@[k] == t);
                assert(bs.take(i + 1).drop_last() =~= bs.take(i as int));
                assert(bs.take(i + 1).last() == bs[i as int]);
            }
            if now <= t && t <= hi {
                let keys = &self.expiration_map[i].1;
                let ghost r0 = r@;
                let mut j: usize = 0;
                while j < keys.len()
                    invariant
                        j <= keys@.len(),
                        key_views(r@) == key_views(r0) + key_views(keys@).take(j as int),
                    decreases keys@.len() - j,
                {
                    let ghost before = r@;
                    r.push(keys[j].clone());
                    proof {
                        lemma_key_views_push(before, r@.last());
                        assert(key_views(r0) + key_views(keys@).take(j + 1) =~= (key_views(r0) + key_views(keys@).take(j as int)).push(keys@[j as int]@));
                    }
                    j = j + 1;
                }
                assert(key_views(keys@).take(keys@.len() as int) =~= key_views(keys@));
            } else {
                assert(keys_within(bs.take(i + 1), now, now + within_ms) =~= keys_within(bs.take(i as int), now, now + within_ms));
            }
            i = i + 1;
        }
        assert(bs.take(bs.len() as int) =~= bs);
        r
    }
}

/// TTL operations on a stored value.
pub trait TTLSupport {
    /// Whether the value has expired.
    fn is_expired(&self) -> bool;

    /// The whole seconds left before the value expires, if it has a TTL.
    fn remaining_ttl(&self) -> Option<TTL>;

    /// Makes the value expire `ttl` seconds from now.
    fn set_ttl(&mut self, ttl: TTL);

    /// Takes the TTL away.
    fn remove_ttl(&mut self);
}

impl TTLSupport for Entry {
    fn is_expired(&self) -> (r: bool)
        ensures
            exists|now: Timestamp| 0 <= now <= MAX_TIMESTAMP && r == #[trigger] expired_at(self.expires_at, now),
    {
        Entry::is_expired(self)
    }

    fn remaining_ttl(&self) -> (r: Option<TTL>)
        ensures
            exists|now: Timestamp| 0 <= now <= MAX_TIMESTAMP && r == #[trigger] remaining_at(self.expires_at, now),
    {
        Entry::remaining_ttl(self)
    }

    fn set_ttl(&mut self, ttl: TTL)
        ensures
            exists|now: Timestamp| 0 <= now <= MAX_TIMESTAMP && final(self).expires_at == Some(#[trigger] expiry_after(now, ttl)),
            final(self).value == old(self).value,
            final(self).created_at == old(self).created_at,
            final(self).access_count == old(self).access_count,
            final(self).last_accessed == old(self).last_accessed,
    {
        let now = now_millis();
        self.set_ttl_at(ttl, now);
    }

    fn remove_ttl(&mut self)
        ensures
            final(self).expires_at is None,
            final(self).value == old(self).value,
            final(self).created_at == old(self).created_at,
            final(self).access_count == old(self).access_count,
            final(self).last_accessed == old(self).last_accessed,
    {
        self.expires_at = None;
    }
}

/// The keys listed as expiring within `within` from `now` are exactly the
/// keys whose expiry lies from `now` to `now` plus the whole span in
/// milliseconds (its seconds and the whole milliseconds of its fraction),
/// both included.
pub proof fn law_expiring_keys_window(m: TTLManager, within: std::time::Duration, now: Timestamp, r: KVResult<Vec<Key>>)
    requires
        m.wf(),
        0 <= now <= MAX_TIMESTAMP,
        expiring_result(m.buckets(), within, now, r),
    ensures
        r matches Ok(keys) ==> forall|k: Seq<char>| #[trigger] key_views(keys@).contains(k) <==> m@.contains_key(k) && now <= m@[k]
            && m@[k] <= now + duration_secs(within) * 1000 + duration_subsec_nanos(within) / 1_000_000,
{
    if r is Ok {
        let keys = r->Ok_0;
        let bs = m.buckets();
        let hi = now + duration_secs(within) * 1000 + duration_subsec_nanos(within) / 1_000_000;
        assert forall|k: Seq<char>| #[trigger] key_views(keys@).contains(k) <==> m@.contains_key(k) && now <= m@[k] && m@[k] <= hi by {
            lemma_keys_within_contains(bs, now, hi, k);
            if m@.contains_key(k) {
                let (i, j) = choose|i: int, j: int|
                    0 <= i < bs.len() && 0 <= j < bs[i].1.len() && #[trigger] bs[i].1[j] == k && bs[i].0 == m@[k];
                assert(bs[i].1[j] == k);
            }
        }
    }
}

} // verus!
