//! The clock that stamps new records.

use vstd::prelude::*;

verus! {

/// `chrono::Utc::now` and `chrono::DateTime::timestamp_micros`: the current
/// time in microseconds since the Unix epoch. The time is read from the
/// system clock as a span since the epoch, so it is never negative; a clock
/// set before the epoch stops the call. Nothing else is known of the result.
#[verifier::external_body]
pub(crate) fn now_micros() -> (micros: i64)
    ensures
        micros >= 0,
{
    chrono::Utc::now().timestamp_micros()
}

} // verus!
