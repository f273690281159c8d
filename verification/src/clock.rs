//! The clock that a job's loop reads: nanoseconds since the clock was
//! started, never going back.

use std::time::{Duration, Instant};
use vstd::prelude::*;

verus! {

/// `std::time::Instant`: a moment on the monotonic clock of the machine,
/// carried as a value of which nothing is known.
#[verifier::external_type_specification]
#[verifier::external_body]
pub struct ExInstant(Instant);

/// `std::time::Instant::now`: the present moment on the monotonic clock of
/// the machine. Nothing is claimed of the moment that comes back.
#[verifier::external_body]
fn instant_now() -> (moment: Instant) {
    Instant::now()
}

/// `std::time::Instant::saturating_duration_since`: the time from `earlier`
/// to `later`, or no time where `earlier` is the later one; it does not
/// panic. Nothing is claimed of the span that comes back.
#[verifier::external_body]
fn instant_saturating_duration_since(later: &Instant, earlier: &Instant) -> (span: Duration) {
    later.saturating_duration_since(*earlier)
}

/// `std::time::Duration::as_nanos`: the whole span in nanoseconds. Nothing
/// is claimed of the number that comes back.
#[verifier::external_body]
fn duration_as_nanos(span: &Duration) -> (nanos: u128) {
    span.as_nanos()
}

/// A clock that counts nanoseconds from the moment it was started. Its
/// readings never go back, and they stop at the largest `u64`.
pub struct Clock {
    started: Instant,
    latest: u64,
}

impl Clock {
    /// The last reading that was taken; 0 before the first.
    pub closed spec fn latest(&self) -> u64 {
        self.latest
    }

    /// A clock that starts to count now.
    pub fn start() -> (clock: Clock)
        ensures
            clock.latest() == 0,
    {
        Clock { started: instant_now(), latest: 0 }
    }

    /// Reads the clock. What time it is cannot be known in advance; the
    /// reading is never less than the one before.
    pub fn now(&mut self) -> (reading: u64)
        ensures
            reading == final(self).latest(),
            old(self).latest() <= reading,
    {
        let moment = instant_now();
        let span = instant_saturating_duration_since(&moment, &self.started);
        let nanos: u128 = duration_as_nanos(&span);
        let reading: u64 = if nanos > u64::MAX as u128 {
            u64::MAX
        } else {
            nanos as u64
        };
        if reading > self.latest {
            self.latest = reading;
        }
        self.latest
    }
}

} // verus!
