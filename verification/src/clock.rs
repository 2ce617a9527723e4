use vstd::prelude::*;
use std::time::{SystemTime, UNIX_EPOCH};

verus! {

/// Wall-clock time in milliseconds since the Unix epoch, read through
/// `std::time::SystemTime::now` (a clock before the epoch reads as 0).
/// Nothing is promised of the value: it is whatever the machine's clock says,
/// and two calls may return anything, including a smaller value.
#[verifier::external_body]
pub(crate) fn current_time_ms() -> u64 {
    SystemTime::now().duration_since(UNIX_EPOCH).unwrap_or_default().as_millis() as u64
}

/// Wall-clock time in whole seconds since the Unix epoch, read through
/// `std::time::SystemTime::now` (a clock before the epoch reads as 0).
/// Nothing is promised of the value.
#[verifier::external_body]
pub(crate) fn current_time_secs() -> u64 {
    SystemTime::now().duration_since(UNIX_EPOCH).unwrap_or_default().as_secs()
}

} // verus!
