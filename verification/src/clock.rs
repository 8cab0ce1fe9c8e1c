//! The monotonic clock, by which an analysis is timed.

use vstd::prelude::*;

verus! {

/// `std::time::Instant`, a reading of the monotonic clock. What a reading
/// holds is not looked into.
#[verifier::external_type_specification]
#[verifier::external_body]
pub struct ExInstant(std::time::Instant);

/// `Instant::now` reads the clock. Nothing is said of the reading: it differs
/// from call to call.
pub assume_specification[ std::time::Instant::now ]() -> (now: std::time::Instant);

/// `Instant::elapsed` gives the time that has passed since the reading was
/// taken. Nothing is said of it: it depends on when it is asked.
pub assume_specification[ std::time::Instant::elapsed ](start: &std::time::Instant) -> (span:
    std::time::Duration);

/// `Duration::as_millis` gives the whole milliseconds in a span of time.
/// Nothing is said of the number.
pub assume_specification[ std::time::Duration::as_millis ](span: &std::time::Duration) -> (ms:
    u128);

} // verus!
