//! Trusted access to the monotonic clock, for the timing harness alone.
//! Nothing is promised about the values read: elapsed times depend on the
//! machine, so no contract constrains them.

use vstd::prelude::*;

verus! {

/// A point in time of the monotonic clock.
#[verifier::external_type_specification]
#[verifier::external_body]
pub struct ExInstant(std::time::Instant);

/// Relies on std::time::Instant::now: the current instant. Nondeterministic,
/// so nothing is stated of the result.
pub assume_specification[ std::time::Instant::now ]() -> (r: std::time::Instant);

/// Relies on std::time::Instant::elapsed: the time since the instant.
/// Nondeterministic, so nothing is stated of the result.
pub assume_specification[ std::time::Instant::elapsed ](s: &std::time::Instant) -> (r:
    std::time::Duration);

/// Relies on std::time::Duration::as_millis: the duration in whole
/// milliseconds. Nothing is needed of the value.
pub assume_specification[ std::time::Duration::as_millis ](d: &std::time::Duration) -> (r: u128);

} // verus!
