//! The host's clock.

use vstd::prelude::*;
use std::time::{Duration, SystemTime, SystemTimeError};

verus! {

/// A reading of the host's clock.
#[verifier::external_type_specification]
#[verifier::external_body]
pub struct ExSystemTime(SystemTime);

/// The error of a reading before the Unix epoch.
#[verifier::external_type_specification]
#[verifier::external_body]
pub struct ExSystemTimeError(SystemTimeError);

/// `SystemTime::now`: the host's clock, of which nothing is claimed.
#[verifier::external_body]
fn clock_reading() -> (now: SystemTime) {
    SystemTime::now()
}

/// `SystemTime::duration_since` the Unix epoch: how long it is past, or that it
/// is still to come. Nothing is claimed of which.
#[verifier::external_body]
fn since_epoch(now: SystemTime) -> (past: Result<Duration, SystemTimeError>) {
    now.duration_since(std::time::UNIX_EPOCH)
}

/// `Duration::as_nanos`: nothing is claimed of the number.
#[verifier::external_body]
fn nanoseconds(past: Duration) -> (ns: u128) {
    past.as_nanos()
}

/// Nanoseconds since the epoch in 64 bits: the greatest number where they do
/// not fit, and zero before the epoch.
pub fn clamped_ns(past: Option<u128>) -> (ns: u64)
    ensures
        ns == match past {
            None => 0,
            Some(past) => if past <= u64::MAX {
                past as u64
            } else {
                u64::MAX
            },
        },
{
    match past {
        None => 0,
        Some(past) => if past <= u64::MAX as u128 {
            past as u64
        } else {
            u64::MAX
        },
    }
}

/// Current Unix-epoch time for native machine embeddings. What the clock reads
/// is the host's affair: see [`clamped_ns`] for what becomes of a reading.
pub fn host_unix_time_ns() -> (ns: u64) {
    match since_epoch(clock_reading()) {
        Ok(past) => clamped_ns(Some(nanoseconds(past))),
        Err(_) => clamped_ns(None),
    }
}

} // verus!
