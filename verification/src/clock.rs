//! The wall clock. Reading it is the one thing the core cannot compute:
//! every time-dependent operation takes the instant as an argument, and this
//! module supplies it at the boundary. The read itself cannot fail or panic:
//! a clock before the Unix epoch reads as an error value, and the decision
//! whether a reading is a representable instant is verified.

use vstd::prelude::*;

verus! {

use crate::{ts_valid, MAX_TS};

#[verifier::external_type_specification]
#[verifier::external_body]
pub struct ExSystemTime(std::time::SystemTime);

#[verifier::external_type_specification]
#[verifier::external_body]
pub struct ExSystemTimeError(std::time::SystemTimeError);

/// Relies on std's `SystemTime::now`: the current wall-clock reading.
/// Nothing is promised of the value — it depends on the clock — and the
/// call itself cannot fail or panic.
#[verifier::external_body]
fn system_clock_now() -> std::time::SystemTime {
    std::time::SystemTime::now()
}

/// Relies on std's `SystemTime::duration_since`: the span from the Unix
/// epoch to `t`, or an `Err` value for a reading before the epoch — an
/// error result, never a panic.
#[verifier::external_body]
fn since_unix_epoch(t: std::time::SystemTime) -> Result<
    std::time::Duration,
    std::time::SystemTimeError,
> {
    t.duration_since(std::time::UNIX_EPOCH)
}

/// Relies on std's `Duration::as_secs`: the whole seconds of the span,
/// fractional part floored. Total.
#[verifier::external_body]
fn duration_secs(d: std::time::Duration) -> u64 {
    d.as_secs()
}

/// Whether a clock reading, in seconds since the Unix epoch, is an instant
/// the store can represent: the reading itself when it is, absent when the
/// clock runs past the year 9999.
pub fn instant_of_reading(secs: u64) -> (r: Option<u64>)
    ensures
        r == (if ts_valid(secs) {
            Some(secs)
        } else {
            None::<u64>
        }),
{
    if secs <= MAX_TS {
        Some(secs)
    } else {
        None
    }
}

/// The current instant, if the wall clock reads as an instant the store can
/// represent (between 1970 and the end of year 9999). A clock before the
/// epoch or past the representable range reads as absent, never as a panic.
pub fn now_ts() -> (r: Option<u64>)
    ensures
        r matches Some(t) ==> ts_valid(t),
{
    match since_unix_epoch(system_clock_now()) {
        Ok(d) => instant_of_reading(duration_secs(d)),
        Err(_) => None,
    }
}

} // verus!
