//! Wall-clock readings, taken on trust; nothing is promised of the values.

use vstd::prelude::*;

verus! {

/// Milliseconds since the Unix epoch.
///
/// Relies on std::time::SystemTime::now and duration_since(UNIX_EPOCH):
/// a clock reading; nothing is promised of the value.
#[verifier::external_body]
pub fn now_millis() -> u64 {
    match std::time::SystemTime::now().duration_since(std::time::UNIX_EPOCH) {
        Ok(d) => d.as_millis() as u64,
        Err(_) => 0,
    }
}

/// Nanoseconds since the Unix epoch.
///
/// Relies on std::time::SystemTime::now and duration_since(UNIX_EPOCH):
/// a clock reading; nothing is promised of the value.
#[verifier::external_body]
pub fn now_nanos() -> u64 {
    match std::time::SystemTime::now().duration_since(std::time::UNIX_EPOCH) {
        Ok(d) => d.as_nanos() as u64,
        Err(_) => 0,
    }
}

} // verus!
