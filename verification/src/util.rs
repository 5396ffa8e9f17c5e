//! Timing helpers.

use vstd::prelude::*;
use std::time::{Duration, Instant};

verus! {

/// `std::time::Instant`, a reading of the monotonic clock.
#[verifier::external_type_specification]
#[verifier::external_body]
pub struct ExInstant(std::time::Instant);

/// `Instant::now()`: the current reading of the monotonic clock. It depends
/// on the machine's clock, so nothing is promised of it.
#[verifier::external_body]
fn instant_now() -> (t: Instant) {
    Instant::now()
}

/// `Instant::elapsed()`: the time passed since `start`. It depends on the
/// machine's clock, so nothing is promised of it.
#[verifier::external_body]
fn elapsed_since(start: &Instant) -> (d: Duration) {
    start.elapsed()
}

/// Measure the execution time of a function: run `f` once and return what it
/// returned, with the time it took.
pub fn measure_time<F, T>(f: F) -> (r: (T, Duration))
    where
        F: FnOnce() -> T,
    requires
        f.requires(()),
    ensures
        f.ensures((), r.0),
{
    let start = instant_now();
    let result = f();
    let elapsed = elapsed_since(&start);
    (result, elapsed)
}

} // verus!
