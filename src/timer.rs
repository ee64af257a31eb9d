use vstd::prelude::*;

use crate::now::Now;
use crate::sec::{clamp, Sec};

verus! {

/// Time passed at `reading` since `reference`, held to the range of [Sec].
pub open spec fn elapsed_at(reference: int, reading: int) -> int {
    clamp(reading - reference)
}

/// A stopwatch: it finds the time passed since a reference point, reading its
/// clock afresh each time.
pub struct Timer<'a, T: Now> {
    start: Sec,
    now: &'a T,
}

impl<'a, T: Now> Clone for Timer<'a, T> {
    fn clone(&self) -> (r: Self)
        ensures
            r == *self,
    {
        Timer { start: self.start, now: self.now }
    }
}

impl<'a, T: Now> Copy for Timer<'a, T> {
}

impl<'a, T: Now> Timer<'a, T> {
    /// The reference point, on the clock's scale.
    pub closed spec fn reference(&self) -> int {
        self.start@
    }

    /// The clock read.
    pub closed spec fn clock(&self) -> &'a T {
        self.now
    }

    /// The reference point lies in the range of `i64`.
    pub proof fn lemma_reference_range(&self)
        ensures
            i64::MIN <= self.reference() <= i64::MAX,
    {
        Sec::lemma_range(self.start);
    }

    /// Creates with the clock's current reading as the reference point.
    pub fn new(now: &'a T) -> (r: Self)
        ensures
            r.clock() == now,
            i64::MIN <= r.reference() <= i64::MAX,
    {
        let start = now.now();
        Timer::starting_at(now, start)
    }

    /// Creates with the given reference point.
    pub fn starting_at(now: &'a T, start: Sec) -> (r: Self)
        ensures
            r.clock() == now,
            r.reference() == start@,
            i64::MIN <= r.reference() <= i64::MAX,
    {
        proof {
            Sec::lemma_range(start);
        }
        Timer { start, now }
    }

    /// Returns the reference point.
    pub fn start(&self) -> (r: Sec)
        ensures
            r@ == self.reference(),
    {
        self.start
    }

    /// Time passed since the reference point when the clock reads `reading`.
    pub fn since(&self, reading: Sec) -> (r: Sec)
        ensures
            r@ == elapsed_at(self.reference(), reading@),
    {
        reading.sub(self.start)
    }

    /// A fresh reading of the clock.
    pub fn read(&self) -> (r: Sec) {
        self.now.now()
    }

    /// Time passed since the reference point, by a fresh reading of the clock.
    pub fn elapsed(&self) -> (r: Sec)
        ensures
            exists|reading: int| r@ == elapsed_at(self.reference(), reading),
    {
        let reading = self.read();
        self.since(reading)
    }

    /// Whether at least `d` has passed since the reference point, by a fresh
    /// reading of the clock.
    pub fn reached(&self, d: Sec) -> (r: bool)
        ensures
            exists|reading: int| r == (elapsed_at(self.reference(), reading) >= d@),
    {
        self.elapsed().at_least(d)
    }

    /// Moves the reference point to `reading`.
    pub fn restart_at(&mut self, reading: Sec)
        ensures
            final(self).clock() == old(self).clock(),
            final(self).reference() == reading@,
    {
        self.start = reading;
    }

    /// Moves the reference point to the clock's current reading.
    pub fn refresh(&mut self)
        ensures
            final(self).clock() == old(self).clock(),
    {
        let reading = self.read();
        self.restart_at(reading);
    }

    /// Whether at most `d` has passed since the reference point, by a fresh
    /// reading of the clock.
    pub fn within(&self, d: Sec) -> (r: bool)
        ensures
            exists|reading: int| r == (elapsed_at(self.reference(), reading) <= d@),
    {
        d.at_least(self.elapsed())
    }

    /// Whether exactly `d` has passed since the reference point, by a fresh
    /// reading of the clock.
    pub fn is(&self, d: Sec) -> (r: bool)
        ensures
            exists|reading: int| r == (elapsed_at(self.reference(), reading) == d@),
    {
        self.elapsed().as_nanos() == d.as_nanos()
    }

    /// Moves the reference point forward by `d`, without reading the clock:
    /// the time passed shrinks by `d`.
    pub fn advance_by(&mut self, d: Sec)
        ensures
            final(self).clock() == old(self).clock(),
            final(self).reference() == clamp(old(self).reference() + d@),
    {
        self.start = self.start.add(d);
    }
}

/// On a clock whose readings never decrease, the time a stopwatch shows never
/// decreases from one reading to the next, and a stopwatch started at the first
/// reading never shows a negative time.
pub proof fn lemma_elapsed_monotonic(start: Sec, first: Sec, second: Sec)
    requires
        first@ <= second@,
    ensures
        elapsed_at(start@, first@) <= elapsed_at(start@, second@),
        start@ <= first@ ==> 0 <= elapsed_at(start@, first@),
{
}

} // verus!
