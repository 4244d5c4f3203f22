//! Wall-clock time, as milliseconds since the Unix epoch.

use vstd::prelude::*;

verus! {

/// A point in time: milliseconds since 1970-01-01T00:00:00Z.
pub type Timestamp = i64;

/// The last millisecond that the clock can represent
/// (the end of the year 262142, the latest UTC instant chrono holds).
pub const MAX_TIMESTAMP: i64 = 8_210_266_876_799_999;

/// Milliseconds in a second.
pub const MILLIS_PER_SECOND: i64 = 1000;

/// The current time, read from the system clock through
/// `chrono::Utc::now()` and `DateTime::timestamp_millis()`.
///
/// `Utc::now()` fails (panics) when the system clock is set before the Unix
/// epoch and builds its result with `DateTime::from_timestamp(..).unwrap()`,
/// so a returned value lies between the epoch and `MAX_TIMESTAMP`.
/// Nothing else is promised: two calls may return any two such values.
#[verifier::external_body]
pub(crate) fn now_millis() -> (t: Timestamp)
    ensures
        0 <= t <= MAX_TIMESTAMP,
{
    chrono::Utc::now().timestamp_millis()
}

/// The instant `ttl` seconds after `now`, or `MAX_TIMESTAMP` where that
/// instant lies beyond the representable range.
pub open spec fn expiry_after(now: Timestamp, ttl: u64) -> Timestamp {
    if now + ttl * 1000 <= MAX_TIMESTAMP {
        (now + ttl * 1000) as Timestamp
    } else {
        MAX_TIMESTAMP
    }
}

/// Computes `expiry_after(now, ttl)`.
pub fn expiry_time(now: Timestamp, ttl: u64) -> (t: Timestamp)
    requires
        0 <= now <= MAX_TIMESTAMP,
    ensures
        t == expiry_after(now, ttl),
        now <= t <= MAX_TIMESTAMP,
{
    let room: i64 = MAX_TIMESTAMP - now;
    let room_secs: i64 = room / MILLIS_PER_SECOND;
    if ttl <= room_secs as u64 {
        assert(ttl * 1000 <= room) by (nonlinear_arith)
            requires
                ttl <= room / 1000,
                room >= 0,
        ;
        now + (ttl as i64) * MILLIS_PER_SECOND
    } else {
        assert(ttl * 1000 > room) by (nonlinear_arith)
            requires
                ttl > room / 1000,
                room >= 0,
        ;
        MAX_TIMESTAMP
    }
}

/// Whole seconds from `now` until `expires_at` (0 once it has passed).
pub open spec fn seconds_until(now: Timestamp, expires_at: Timestamp) -> u64 {
    if now < expires_at {
        ((expires_at - now) / 1000) as u64
    } else {
        0
    }
}

/// Computes `seconds_until(now, expires_at)`.
pub fn remaining_seconds(now: Timestamp, expires_at: Timestamp) -> (s: u64)
    requires
        0 <= now,
    ensures
        s == seconds_until(now, expires_at),
{
    if now < expires_at {
        ((expires_at - now) / MILLIS_PER_SECOND) as u64
    } else {
        0
    }
}

} // verus!
