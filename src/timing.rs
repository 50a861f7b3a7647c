//! Measuring how long a piece of work takes.

use vstd::prelude::*;
use std::time::{Duration, Instant};

verus! {

/// Declares std::time::Instant, a point in time of the monotonic clock, so
/// that the timing wrappers below can hand it on.
#[verifier::external_type_specification]
#[verifier::external_body]
pub struct ExInstant(Instant);

/// Relies on std::time::Instant::now: the current time of the monotonic clock.
#[verifier::external_body]
fn now() -> (r: Instant) {
    Instant::now()
}

/// Relies on std::time::Instant::elapsed: the time gone by since `start`.
#[verifier::external_body]
fn elapsed_since(start: &Instant) -> (r: Duration) {
    start.elapsed()
}

/// Run `f` once and return what it returned together with how long it took.
pub fn timeit<F, T>(_label: &str, mut f: F) -> (r: (T, Duration)) where F: FnMut() -> T
    requires
        call_requires(f, ()),
    ensures
        call_ensures(f, (), r.0),
{
    let start = now();
    let t = f();
    let elapsed = elapsed_since(&start);
    (t, elapsed)
}

} // verus!
