//! The clock that the built-in `time` reads.
use vstd::prelude::*;
use std::time::{Duration, Instant};

verus! {

/// The standard library's `Instant`, a point in time.
#[verifier::external_type_specification]
#[verifier::external_body]
pub struct ExInstant(Instant);

/// `Instant::now()`: the current time, taken when a run starts.
#[verifier::external_body]
pub fn init_start_time() -> (r: Instant) {
    Instant::now()
}

/// `Instant::elapsed`: the time passed since `start`; it depends on the clock.
#[verifier::external_body]
fn elapsed(start: &Instant) -> (r: Duration) {
    start.elapsed()
}

/// `Duration::as_secs`: the whole seconds of a duration.
#[verifier::external_body]
fn duration_secs(d: &Duration) -> (r: u64) {
    d.as_secs()
}

/// The whole seconds passed since `start`.
pub fn seconds_since(start: &Instant) -> (r: u64) {
    let d = elapsed(start);
    duration_secs(&d)
}

} // verus!
