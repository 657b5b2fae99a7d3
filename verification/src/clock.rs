//! The wall clock, read in milliseconds.

use std::time::{Duration, SystemTime, SystemTimeError, UNIX_EPOCH};
use vstd::prelude::*;

verus! {

/// A reading of the wall clock, `std::time::SystemTime`, carried through as
/// it is: nothing is known of what it holds.
#[verifier::external_type_specification]
#[verifier::external_body]
pub struct ExSystemTime(SystemTime);

/// The error of a clock that reads before the epoch,
/// `std::time::SystemTimeError`, carried through as it is.
#[verifier::external_type_specification]
#[verifier::external_body]
pub struct ExSystemTimeError(SystemTimeError);

/// Reads the wall clock with `SystemTime::now`. Nothing is claimed of the
/// reading.
#[verifier::external_body]
fn system_now() -> SystemTime {
    SystemTime::now()
}

/// How long after the Unix epoch `t` lies, by `SystemTime::duration_since`,
/// which fails for a time before the epoch. Nothing is claimed of the
/// outcome.
#[verifier::external_body]
fn since_epoch(t: &SystemTime) -> Result<Duration, SystemTimeError> {
    t.duration_since(UNIX_EPOCH)
}

/// The whole milliseconds of `d`, by `Duration::as_millis`. Nothing is
/// claimed of the number.
#[verifier::external_body]
fn millis_of(d: &Duration) -> u128 {
    d.as_millis()
}

/// Milliseconds since the Unix epoch, as [`millis_of_reading`] counts them.
/// The reading is the clock's, so nothing holds of the number itself.
pub(crate) fn unix_millis() -> u64 {
    let now = system_now();
    let since: Option<u128> = match since_epoch(&now) {
        Ok(d) => Some(millis_of(&d)),
        Err(_) => None,
    };
    millis_of_reading(since)
}

/// The milliseconds that a reading of the clock comes to: the reading
/// itself where it fits in 64 bits, the largest number that fits where it
/// does not, and 0 where there is no reading because the clock stands
/// before the epoch.
pub open spec fn reading_millis(since: Option<u128>) -> u64 {
    match since {
        Some(ms) => {
            if ms > u64::MAX {
                u64::MAX
            } else {
                ms as u64
            }
        },
        None => 0,
    }
}

/// The milliseconds that a reading of the clock comes to, where `since` is
/// the time since the Unix epoch in whole milliseconds, or nothing for a
/// clock that stands before the epoch.
pub fn millis_of_reading(since: Option<u128>) -> (ms: u64)
    ensures
        ms == reading_millis(since),
{
    match since {
        Some(ms) => {
            if ms > u64::MAX as u128 {
                u64::MAX
            } else {
                ms as u64
            }
        },
        None => 0,
    }
}

} // verus!
