//! Verified core of a pseudonymous contact-tracing store: an hour-granularity
//! time-bucket index over case reports, per-case ordered symptom logs, a
//! TTL-bounded interaction linker, and a bounded-concurrency fan-out plan for
//! relational exposure writes.

use vstd::prelude::*;

pub mod calendar;
pub mod case_index;
pub mod clock;
pub mod digits;
pub mod fanout;
pub mod keys;
pub mod kv;
pub mod linker;
pub mod rfc3339;
pub mod symptom_log;

verus! {

/// Last representable instant: 9999-12-31T23:59:59Z as seconds since the Unix
/// epoch. Later instants would need a five-digit year, which the stored
/// timestamp form does not admit.
pub const MAX_TS: u64 = 253402300799;

/// A timestamp the store can hold: a UTC instant in seconds since the Unix
/// epoch, no later than the end of year 9999.
pub open spec fn ts_valid(ts: u64) -> bool {
    ts <= MAX_TS
}

/// Local data-corruption errors: stored state that no run of the store could
/// have written. Surfaced to the caller, never silently coerced.
#[derive(Clone, Copy, PartialEq, Eq, Structural, Debug)]
pub enum DataError {
    /// A stored timestamp string is not the serialization of any instant.
    CorruptTimestamp,
    /// A stored symptom log does not pair timestamps with labels.
    CorruptLog,
}

} // verus!
