use vstd::prelude::*;

use crate::now::Now;
use crate::stat::Stat;
use crate::timer::{elapsed_at, Timer};
use crate::sec::Sec;

verus! {

/// A profiler of a region of code: it starts a stopwatch when created, and
/// when released adds the time passed to a [Stat] as one event.
pub struct Prf<'a, T: Now> {
    timer: Timer<'a, T>,
}

impl<'a, T: Now> Prf<'a, T> {
    /// The stopwatch's reference point.
    pub closed spec fn reference(&self) -> int {
        self.timer.reference()
    }

    /// The clock of the stopwatch.
    pub closed spec fn clock(&self) -> &'a T {
        self.timer.clock()
    }

    /// Starts profiling with a stopwatch on `now` whose reference point is the
    /// clock's current reading.
    pub fn new(now: &'a T) -> (r: Self)
        ensures
            r.clock() == now,
            i64::MIN <= r.reference() <= i64::MAX,
    {
        let start = now.now();
        Prf::starting_at(now, start)
    }

    /// Starts profiling with a stopwatch whose reference point is `start`.
    pub fn starting_at(now: &'a T, start: Sec) -> (r: Self)
        ensures
            r.clock() == now,
            r.reference() == start@,
            i64::MIN <= r.reference() <= i64::MAX,
    {
        Prf { timer: Timer::starting_at(now, start) }
    }

    /// Ends the region when the clock reads `reading`: the time passed since
    /// the start goes into `acc` as exactly one event.
    pub fn finish_at(self, reading: Sec, acc: &mut Stat)
        ensures
            final(acc)@ == old(acc)@.accumulated(elapsed_at(self.reference(), reading@)),
    {
        acc.accumulate(self.timer.since(reading));
    }

    /// Ends the region now: the time passed since the start goes into `acc`
    /// as exactly one event.
    pub fn finish(self, acc: &mut Stat)
        ensures
            exists|reading: int|
                final(acc)@ == old(acc)@.accumulated(elapsed_at(self.reference(), reading)),
    {
        let reading = self.timer.read();
        self.finish_at(reading, acc);
    }
}

/// The profiler under its longer name.
pub type Profile<'a, T> = Prf<'a, T>;

} // verus!
