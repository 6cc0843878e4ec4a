//! The current time, from chrono.

use vstd::prelude::*;

verus! {

/// Relies on chrono's `From<SystemTime> for DateTime<Utc>` and
/// `DateTime::timestamp_micros`: the system clock now, in microseconds since
/// the Unix epoch (negative for clocks set before 1970). Nothing is promised
/// of the value: it is whatever the clock reads.
#[verifier::external_body]
pub(crate) fn now_micros() -> (r: i64) {
    chrono::DateTime::<chrono::Utc>::from(std::time::SystemTime::now()).timestamp_micros()
}

} // verus!
