//! Wall-clock time, as the standard library measures it.
use std::time::{Duration, Instant};
use vstd::prelude::*;

verus! {

/// A point in time of the standard library's monotonic clock.
#[verifier::external_type_specification]
#[verifier::external_body]
pub struct ExInstant(Instant);

/// `Instant::now` reads the clock. Nothing is claimed of what it returns.
pub assume_specification[ Instant::now ]() -> Instant
;

/// `Instant::elapsed` gives the time since the instant. Nothing is claimed
/// of the amount.
pub assume_specification[ Instant::elapsed ](start: &Instant) -> Duration
;

/// `Duration::as_millis` gives the whole milliseconds of a duration.
/// Nothing is claimed of the amount.
pub assume_specification[ Duration::as_millis ](d: &Duration) -> u128
;

/// The whole milliseconds that have passed since `start`.
pub fn millis_since(start: &Instant) -> u128 {
    let elapsed = start.elapsed();
    elapsed.as_millis()
}

} // verus!
