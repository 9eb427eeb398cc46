use vstd::prelude::*;

use std::time::{Duration, Instant, SystemTime, SystemTimeError};

verus! {

#[verifier::external_type_specification]
#[verifier::external_body]
pub struct ExSystemTime(std::time::SystemTime);

#[verifier::external_type_specification]
#[verifier::external_body]
pub struct ExSystemTimeError(std::time::SystemTimeError);

#[verifier::external_type_specification]
#[verifier::external_body]
pub struct ExInstant(std::time::Instant);

/// `SystemTime::now`: the wall-clock time. Nothing is claimed of the value.
#[verifier::external_body]
fn system_time_now() -> SystemTime {
    SystemTime::now()
}

/// `SystemTime::duration_since(UNIX_EPOCH)`: how long after 1970-01-01 UTC the
/// time lies, or an error for a time before it. Nothing is claimed of the value.
#[verifier::external_body]
fn since_unix_epoch(t: &SystemTime) -> Result<Duration, SystemTimeError> {
    t.duration_since(std::time::UNIX_EPOCH)
}

/// `Duration::as_secs`: the whole seconds of a duration. A `Duration` is
/// opaque here, so nothing is claimed of the value.
#[verifier::external_body]
fn duration_as_secs(d: &Duration) -> u64 {
    d.as_secs()
}

/// `Duration::as_millis`: the whole milliseconds of a duration. A `Duration`
/// is opaque here, so nothing is claimed of the value.
#[verifier::external_body]
fn duration_as_millis(d: &Duration) -> u128 {
    d.as_millis()
}

/// `Instant::now`: a reading of the monotonic clock. Nothing is claimed of it.
#[verifier::external_body]
pub(crate) fn instant_now() -> Instant {
    Instant::now()
}

/// `Instant::elapsed`: the time since the reading. Nothing is claimed of it.
#[verifier::external_body]
fn instant_elapsed(t: &Instant) -> Duration {
    t.elapsed()
}

/// Whole milliseconds since the given reading of the monotonic clock.
pub fn millis_since(t: &Instant) -> u128 {
    let d = instant_elapsed(t);
    duration_as_millis(&d)
}

/// Whole seconds since 1970-01-01 00:00 UTC by the wall clock, or 0 where the
/// clock stands before that moment.
pub fn unix_now_secs() -> u64 {
    let now = system_time_now();
    match since_unix_epoch(&now) {
        Ok(d) => duration_as_secs(&d),
        Err(_) => 0,
    }
}

} // verus!
