use vstd::prelude::*;

use std::time::{Duration, Instant};

use crate::sec::Sec;

verus! {

/// A clock: it tells the time relative to an arbitrary moment of its own.
///
/// Successive readings of one clock never decrease.
pub trait Now {
    /// Returns the current time.
    fn now(&self) -> Sec;
}

#[verifier::external_type_specification]
#[verifier::external_body]
pub struct ExInstant(Instant);

/// Relies on `Instant::now`: a reading of the monotonic clock of the system.
#[verifier::external_body]
fn instant_now() -> Instant {
    Instant::now()
}

/// Relies on `Instant::elapsed`: the time passed since the instant was taken.
pub assume_specification[ Instant::elapsed ](i: &Instant) -> Duration;

/// Relies on `Duration::as_nanos`: the whole nanoseconds of a duration.
pub assume_specification[ Duration::as_nanos ](d: &Duration) -> u128;

/// A [Now] over the monotonic clock of the system, counting from the moment
/// it was created.
#[derive(Debug)]
pub struct Std {
    start: Instant,
}

impl Std {
    /// Creates counting from this moment.
    pub fn new() -> (r: Std) {
        Std { start: instant_now() }
    }
}

/// A count of nanoseconds as a duration, held to the range of [Sec].
pub fn from_nanos(n: u128) -> (r: Sec)
    ensures
        r@ == if n > i64::MAX { i64::MAX as int } else { n as int },
{
    if n > i64::MAX as u128 {
        Sec::new(i64::MAX)
    } else {
        Sec::new(n as i64)
    }
}

impl Now for Std {
    fn now(&self) -> Sec {
        let passed = self.start.elapsed();
        from_nanos(passed.as_nanos())
    }
}

} // verus!
