//! The time of day.

use std::time::{Duration, SystemTime, SystemTimeError, UNIX_EPOCH};
use vstd::prelude::*;

verus! {

/// std's points in time.
#[verifier::external_type_specification]
#[verifier::external_body]
pub struct ExSystemTime(SystemTime);

/// std's error for a time before another.
#[verifier::external_type_specification]
#[verifier::external_body]
pub struct ExSystemTimeError(SystemTimeError);

/// `SystemTime::now` reads the clock. Any time may come back.
#[verifier::external_body]
fn now() -> (r: SystemTime) {
    SystemTime::now()
}

/// The nanoseconds from the start of 1970 to a time; negative for an earlier time.
pub uninterp spec fn time_nanos(time: SystemTime) -> int;

/// The nanoseconds of a span.
pub uninterp spec fn span_nanos(span: Duration) -> nat;

/// `SystemTime::duration_since` gives the span from the start of 1970 to the time, or an error
/// if the time is earlier.
#[verifier::external_body]
fn since_epoch(time: &SystemTime) -> (r: Result<Duration, SystemTimeError>)
    ensures
        match r {
            Ok(span) => time_nanos(*time) >= 0 && span_nanos(span) == time_nanos(*time),
            Err(_) => time_nanos(*time) < 0,
        },
{
    time.duration_since(UNIX_EPOCH)
}

/// `Duration::as_secs` gives the whole seconds of a span.
#[verifier::external_body]
fn whole_seconds(span: &Duration) -> (r: u64)
    ensures
        r == span_nanos(*span) / 1_000_000_000,
{
    span.as_secs()
}

/// The whole seconds from the start of 1970 to a time, if the time is not earlier.
pub open spec fn seconds_at(time: SystemTime) -> Option<u64> {
    if time_nanos(time) >= 0 {
        Some((time_nanos(time) / 1_000_000_000) as u64)
    } else {
        None
    }
}

/// The whole seconds from the start of 1970 to a time, if the time is not earlier.
pub fn seconds_since_epoch(time: &SystemTime) -> (r: Option<u64>)
    ensures
        r == seconds_at(*time),
{
    match since_epoch(time) {
        Ok(span) => Some(whole_seconds(&span)),
        Err(_) => None,
    }
}

/// The whole seconds from the start of 1970 to the time on the clock, if the clock is not before
/// it. Which time that is, the clock decides.
pub(crate) fn unix_seconds() -> (r: Option<u64>)
    ensures
        exists|time: SystemTime| #[trigger] seconds_at(time) == r,
{
    let time = now();
    let r = seconds_since_epoch(&time);
    assert(seconds_at(time) == r);
    r
}

/// The seconds of a time are those that have passed since the start of 1970, and no second more has
/// passed. An earlier time has none.
pub proof fn law_whole_seconds_have_passed(time: SystemTime)
    ensures
        time_nanos(time) < 0 ==> seconds_at(time) is None,
        0 <= time_nanos(time) < 0x1_0000_0000_0000_0000 * 1_000_000_000 ==> (seconds_at(
            time,
        ) matches Some(n) && n * 1_000_000_000 <= time_nanos(time) < (n + 1) * 1_000_000_000),
{
}

} // verus!
