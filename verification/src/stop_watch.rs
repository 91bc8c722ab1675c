use vstd::prelude::*;
use std::time::{Duration, Instant};

verus! {

// The wall clock: opaque readings that only the wrappers below produce.
#[verifier::external_type_specification]
#[verifier::external_body]
pub struct ExInstant(Instant);

/// Relies on `Instant::now`: a reading of the clock. Nothing is promised of
/// it; two readings may differ arbitrarily.
#[verifier::external_body]
fn instant_now() -> Instant {
    Instant::now()
}

/// Relies on `Instant::elapsed`: the time since the reading. Nothing is
/// promised of it.
#[verifier::external_body]
fn instant_elapsed(started: &Instant) -> Duration {
    started.elapsed()
}

/// Relies on `Duration::as_nanos`: the whole duration in nanoseconds.
#[verifier::external_body]
fn duration_as_nanos(d: &Duration) -> u128 {
    d.as_nanos()
}

/// A named stopwatch: it remembers when it was started, and reports the
/// time spent since under that name.
pub struct StopWatch {
    associated_name: &'static str,
    time_started: Instant,
}

impl StopWatch {
    /// The name this stopwatch reports under.
    pub closed spec fn name_of(self) -> Seq<char> {
        self.associated_name@
    }

    /// Starts a stopwatch under the given name.
    pub fn start(associated_name: &'static str) -> (r: StopWatch)
        ensures
            r.name_of() == associated_name@,
    {
        StopWatch { associated_name, time_started: instant_now() }
    }

    /// The name this stopwatch reports under.
    pub fn name(&self) -> (r: &'static str)
        ensures
            r@ == self.name_of(),
    {
        self.associated_name
    }

    /// How many nanoseconds the clock says have passed since the start.
    pub fn elapsed_nanos(&self) -> u128 {
        duration_as_nanos(&instant_elapsed(&self.time_started))
    }
}

} // verus!
