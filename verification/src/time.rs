//! Instants and the live test. An instant is a count of nanoseconds since
//! 1970-01-01T00:00:00 in the naive UTC calendar, held in an `i128`.

use vstd::prelude::*;

verus! {

/// Nanoseconds in one second.
pub const NANOS_PER_SECOND: i128 = 1_000_000_000;

/// A name stamp this fresh is the live volume: ninety seconds.
pub const LIVE_AGE: i128 = 90_000_000_000;

/// A name up to thirty seconds ahead of the local clock is accepted.
pub const CLOCK_SKEW: i128 = 30_000_000_000;

/// Probes ignore keys older than three hours.
pub const RECENT: i128 = 10_800_000_000_000;

/// The instant `seconds` whole seconds and `nanos` nanoseconds after the epoch.
pub open spec fn spec_moment(seconds: i64, nanos: u32) -> int {
    seconds * NANOS_PER_SECOND + nanos
}

/// The instant of a timestamp given as whole seconds since the epoch and the
/// nanoseconds past that second.
pub fn moment(seconds: i64, nanos: u32) -> (t: i128)
    ensures
        t == spec_moment(seconds, nanos),
{
    assert(-9_223_372_036_854_775_808_000_000_000int <= seconds * NANOS_PER_SECOND
        <= 9_223_372_036_854_775_807_000_000_000int) by (nonlinear_arith)
        requires
            i64::MIN <= seconds <= i64::MAX,
    ;
    (seconds as i128) * NANOS_PER_SECOND + (nanos as i128)
}

/// `now - then <= limit`, computed without overflow.
pub fn age_at_most(then: i128, now: i128, limit: i128) -> (r: bool)
    requires
        limit >= 0,
    ensures
        r == (now - then <= limit),
{
    if then > i128::MAX - limit {
        true
    } else {
        now <= then + limit
    }
}

/// `now - then >= -ahead`, computed without overflow.
pub fn age_at_least_minus(then: i128, now: i128, ahead: i128) -> (r: bool)
    requires
        ahead >= 0,
    ensures
        r == (now - then >= -ahead),
{
    if now > i128::MAX - ahead {
        true
    } else {
        now + ahead >= then
    }
}

/// `stamp` is live at `now`: at most `LIVE_AGE` old and at most `CLOCK_SKEW`
/// in the future.
pub open spec fn spec_stamp_is_live(stamp: int, now: int) -> bool {
    &&& now - stamp <= LIVE_AGE
    &&& now - stamp >= -CLOCK_SKEW
}

/// True when `stamp` is the live scan: no older than `LIVE_AGE`, and not far
/// in the future.
pub fn stamp_is_live(stamp: i128, now: i128) -> (live: bool)
    ensures
        live == spec_stamp_is_live(stamp as int, now as int),
{
    age_at_most(stamp, now, LIVE_AGE) && age_at_least_minus(stamp, now, CLOCK_SKEW)
}

} // verus!
