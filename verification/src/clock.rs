//! The system clock, read as a timestamp.

use crate::calendar::datetime_of;
use crate::timestamp::{format_time, timestamp_text};
use std::time::{Duration, SystemTime, UNIX_EPOCH};
use vstd::prelude::*;

verus! {

/// `std::time::SystemTime`: a reading of the system clock, carried through
/// as it is; nothing is known of what it holds.
#[verifier::external_type_specification]
#[verifier::external_body]
pub struct ExSystemTime(std::time::SystemTime);

/// `SystemTime::now`: the present reading of the system clock. Nothing is
/// claimed of it.
#[verifier::external_body]
fn clock_now() -> SystemTime {
    SystemTime::now()
}

/// `SystemTime::duration_since`, taken from `UNIX_EPOCH`: the time elapsed
/// since the epoch, or nothing where the clock reads a time before it.
/// Nothing is claimed of which of the two comes back.
#[verifier::external_body]
fn since_epoch(now: &SystemTime) -> Option<Duration> {
    now.duration_since(UNIX_EPOCH).ok()
}

/// `Duration::as_secs`: the whole seconds of a duration. Nothing is claimed
/// of their number.
#[verifier::external_body]
fn whole_secs(elapsed: &Duration) -> u64 {
    elapsed.as_secs()
}

/// `Duration::subsec_micros`: the part of a duration below one second, in
/// whole microseconds, which is less than one million.
#[verifier::external_body]
fn fraction_micros(elapsed: &Duration) -> (micros: u32)
    ensures
        micros < 1_000_000,
{
    elapsed.subsec_micros()
}

/// The timestamp of the present instant, or nothing where the system clock
/// reads a time before 1970-01-01T00:00:00Z.
pub fn get_iso8601_time() -> (r: Option<String>)
    ensures
        r matches Some(text) ==> exists|secs: u64, micros: u32|
            micros < 1_000_000 && text@ == #[trigger] timestamp_text(
                datetime_of(secs),
                micros as int,
            ),
{
    let now = clock_now();
    let reading = match since_epoch(&now) {
        Some(elapsed) => Some((whole_secs(&elapsed), fraction_micros(&elapsed))),
        None => None,
    };
    timestamp_of_reading(reading)
}

/// The timestamp of a clock reading, given as the whole seconds and the
/// microseconds elapsed since 1970-01-01T00:00:00Z; nothing where the
/// reading is of a time before it.
pub fn timestamp_of_reading(reading: Option<(u64, u32)>) -> (r: Option<String>)
    ensures
        match reading {
            Some((secs, micros)) => r matches Some(text) && text@ == timestamp_text(
                datetime_of(secs),
                micros as int,
            ),
            None => r is None,
        },
{
    match reading {
        Some((secs, micros)) => Some(format_time(secs, micros)),
        None => None,
    }
}

} // verus!
