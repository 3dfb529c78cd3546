//! The wall clock.

use vstd::prelude::*;

verus! {

/// A moment of the wall clock.
#[verifier::external_type_specification]
#[verifier::external_body]
pub struct ExSystemTime(std::time::SystemTime);

/// Calls `std::time::SystemTime::now`. Nothing is promised of the reading.
#[verifier::external_body]
fn now() -> (r: std::time::SystemTime)
{
    std::time::SystemTime::now()
}

/// Calls `std::time::SystemTime::duration_since` with `std::time::UNIX_EPOCH`;
/// nothing for a moment before 1970. What a moment stands for is not stated.
#[verifier::external_body]
fn since_epoch(t: std::time::SystemTime) -> (r: Option<std::time::Duration>)
{
    t.duration_since(std::time::UNIX_EPOCH).ok()
}

/// Calls `std::time::Duration::as_secs`: the whole seconds of a time span. How long a
/// span is is not stated, so nothing is promised of their number.
#[verifier::external_body]
fn whole_seconds(d: std::time::Duration) -> (r: u64)
{
    d.as_secs()
}

/// The seconds since 1970-01-01T00:00:00Z, or 0 where the clock stands before that.
/// Any number of seconds can be read off the clock.
pub(crate) fn unix_seconds() -> u64 {
    let reading: Option<u64> = match since_epoch(now()) {
        Some(d) => Some(whole_seconds(d)),
        None => None,
    };
    seconds_or_zero(reading)
}

/// What a reading of the clock counts as: the seconds read, or 0 where the clock
/// stands before the epoch and there is nothing to read.
pub fn seconds_or_zero(reading: Option<u64>) -> (r: u64)
    ensures
        r == (match reading {
            Some(s) => s,
            None => 0,
        }),
{
    match reading {
        Some(s) => s,
        None => 0,
    }
}

} // verus!
