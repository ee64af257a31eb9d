use vstd::prelude::*;

use crate::sec::{clamp, div_trunc, Sec};

verus! {

/// `n` held to the range of `u64`.
pub open spec fn cap(n: int) -> int {
    if n > u64::MAX { u64::MAX as int } else { n }
}

/// What a [Stat] holds: the running total, the events counted over its whole
/// life, the events counted in the current cycle, and the cycles begun.
pub ghost struct StatModel {
    pub total: int,
    pub count: int,
    pub rate: int,
    pub cycles: int,
}

impl StatModel {
    /// A fresh statistic: nothing counted, in its first cycle.
    pub open spec fn fresh() -> StatModel {
        StatModel { total: 0, count: 0, rate: 0, cycles: 1 }
    }

    /// One event of duration `d` added.
    pub open spec fn accumulated(self, d: int) -> StatModel {
        StatModel {
            total: clamp(self.total + d),
            count: cap(self.count + 1),
            rate: cap(self.rate + 1),
            cycles: self.cycles,
        }
    }

    /// The current cycle ended.
    pub open spec fn refreshed(self) -> StatModel {
        StatModel { rate: 0, cycles: cap(self.cycles + 1), ..self }
    }

    /// Average duration of an event; zero while nothing was counted.
    pub open spec fn average(self) -> int {
        if self.count == 0 { 0 } else { div_trunc(self.total, self.count) }
    }

    /// Average number of events per cycle, rounded down.
    pub open spec fn average_rate(self) -> int {
        self.count / self.cycles
    }
}

/// Time statistics of a region of code: how long it took in total, how often
/// it ran over the whole life and in the current cycle, and how many cycles
/// have begun. A cycle ends with [Stat::refresh].
#[derive(Debug, Clone, Copy)]
pub struct Stat {
    total: Sec,
    count: u64,
    rate: u64,
    cycles: u64,
}

impl View for Stat {
    type V = StatModel;

    closed spec fn view(&self) -> StatModel {
        StatModel {
            total: self.total@,
            count: self.count as int,
            rate: self.rate as int,
            cycles: self.cycles as int,
        }
    }
}

impl Stat {
    #[verifier::type_invariant]
    spec fn inv(self) -> bool {
        self.cycles >= 1
    }

    /// A fresh statistic.
    pub fn new() -> (r: Stat)
        ensures
            r@ == StatModel::fresh(),
    {
        Stat { total: Sec::zero(), count: 0, rate: 0, cycles: 1 }
    }

    /// Number of events counted over the whole life.
    pub fn count(&self) -> (r: u64)
        ensures
            r == self@.count,
    {
        self.count
    }

    /// Number of events counted in the current cycle.
    pub fn rate(&self) -> (r: u64)
        ensures
            r == self@.rate,
    {
        self.rate
    }

    /// Number of cycles begun; never zero.
    pub fn cycles(&self) -> (r: u64)
        ensures
            r == self@.cycles,
            r >= 1,
    {
        proof {
            use_type_invariant(self);
        }
        self.cycles
    }

    /// Total duration of the events counted.
    pub fn total(&self) -> (r: Sec)
        ensures
            r@ == self@.total,
    {
        self.total
    }

    /// Average duration of an event, rounded toward zero; zero when no event
    /// was counted.
    pub fn dur(&self) -> (r: Sec)
        ensures
            r@ == self@.average(),
    {
        if self.count == 0 {
            Sec::zero()
        } else if self.count <= i64::MAX as u64 {
            let nanos: i64 = self.total.as_nanos();
            let r = self.total.div(self.count as i64);
            proof {
                let t = nanos as int;
                let c = self.count as int;
                let a = crate::sec::abs(t);
                assert(a / c <= a) by (nonlinear_arith)
                    requires c >= 1, a >= 0;
                assert(0 <= a / c) by (nonlinear_arith)
                    requires c >= 1, a >= 0;
                assert(clamp(div_trunc(t, c)) == div_trunc(t, c));
            }
            r
        } else {
            // The count exceeds every magnitude of the total but the lowest one.
            let t: i64 = self.total.as_nanos();
            proof {
                let c = self.count as int;
                let a = crate::sec::abs(t as int);
                if a < c {
                    assert(a / c == 0) by (nonlinear_arith)
                        requires 0 <= a < c;
                } else {
                    assert(a == c);
                    assert(a / c == 1) by (nonlinear_arith)
                        requires a == c, c > 0;
                }
            }
            if t == i64::MIN && self.count == (i64::MAX as u64) + 1 {
                Sec::new(-1)
            } else {
                Sec::zero()
            }
        }
    }

    /// Average number of events per cycle, rounded down.
    pub fn avg_rate(&self) -> (r: u64)
        ensures
            r == self@.average_rate(),
    {
        proof {
            use_type_invariant(self);
            assert(self.count as int / self.cycles as int <= self.count) by (nonlinear_arith)
                requires self.cycles >= 1, self.count >= 0;
        }
        self.count / self.cycles
    }

    /// Adds one event that took `d`.
    pub fn accumulate(&mut self, d: Sec)
        ensures
            final(self)@ == old(self)@.accumulated(d@),
    {
        proof {
            use_type_invariant(&*self);
        }
        self.total = self.total.add(d);
        self.count = self.count.saturating_add(1);
        self.rate = self.rate.saturating_add(1);
    }

    /// Ends the current cycle: its event count starts again from zero.
    pub fn refresh(&mut self)
        ensures
            final(self)@ == old(self)@.refreshed(),
    {
        proof {
            use_type_invariant(&*self);
        }
        self.rate = 0;
        self.cycles = self.cycles.saturating_add(1);
    }
}

impl Default for Stat {
    fn default() -> (r: Stat)
        ensures
            r@ == StatModel::fresh(),
    {
        Stat::new()
    }
}

/// Sum of a sequence of durations.
pub open spec fn sum(ds: Seq<int>) -> int
    decreases ds.len(),
{
    if ds.len() == 0 {
        0
    } else {
        sum(ds.drop_last()) + ds.last()
    }
}

impl StatModel {
    /// The events of durations `ds` added in order.
    pub open spec fn accumulated_all(self, ds: Seq<int>) -> StatModel
        decreases ds.len(),
    {
        if ds.len() == 0 {
            self
        } else {
            self.accumulated_all(ds.drop_last()).accumulated(ds.last())
        }
    }

    /// `k` cycles ended in a row.
    pub open spec fn refreshed_times(self, k: nat) -> StatModel
        decreases k,
    {
        if k == 0 {
            self
        } else {
            self.refreshed_times((k - 1) as nat).refreshed()
        }
    }
}

proof fn lemma_accumulated_all(ds: Seq<int>)
    requires
        ds.len() <= u64::MAX,
        forall|i: int| 0 <= i <= ds.len() ==> i64::MIN <= #[trigger] sum(ds.subrange(0, i)) <= i64::MAX,
    ensures
        StatModel::fresh().accumulated_all(ds) == (StatModel {
            total: sum(ds),
            count: ds.len() as int,
            rate: ds.len() as int,
            cycles: 1,
        }),
    decreases ds.len(),
{
    assert(ds.subrange(0, ds.len() as int) == ds);
    if ds.len() > 0 {
        let p = ds.drop_last();
        assert forall|i: int| 0 <= i <= p.len() implies i64::MIN <= #[trigger] sum(p.subrange(0, i)) <= i64::MAX by {
            assert(p.subrange(0, i) == ds.subrange(0, i));
        }
        lemma_accumulated_all(p);
    }
}

proof fn lemma_refreshed_times(m: StatModel, k: nat)
    requires
        m.cycles + k <= u64::MAX,
    ensures
        m.refreshed_times(k) == (if k == 0 { m } else { StatModel { rate: 0, cycles: m.cycles + k, ..m } }),
    decreases k,
{
    if k > 0 {
        lemma_refreshed_times(m, (k - 1) as nat);
    }
}

proof fn lemma_accumulated_count(ds: Seq<int>)
    requires
        ds.len() <= u64::MAX,
    ensures
        StatModel::fresh().accumulated_all(ds).count == ds.len(),
        StatModel::fresh().accumulated_all(ds).rate == ds.len(),
        StatModel::fresh().accumulated_all(ds).cycles == 1,
    decreases ds.len(),
{
    if ds.len() > 0 {
        lemma_accumulated_count(ds.drop_last());
    }
}

/// However long the events are, after as many events as `ds` holds are added
/// to a fresh statistic and `k` of its cycles end, it counts exactly that many
/// events, none in the current cycle, over `k + 1` cycles.
pub proof fn lemma_counts(ds: Seq<int>, k: nat)
    requires
        ds.len() <= u64::MAX,
        1 <= k < u64::MAX,
    ensures
        ({
            let m = StatModel::fresh().accumulated_all(ds).refreshed_times(k);
            &&& m.count == ds.len()
            &&& m.rate == 0
            &&& m.cycles == k + 1
            &&& m.average_rate() == ds.len() / (k + 1)
        }),
{
    lemma_accumulated_count(ds);
    lemma_refreshed_times(StatModel::fresh().accumulated_all(ds), k);
}

/// After events of durations `ds` are added to a fresh statistic and `k` of
/// its cycles end: it counts as many events as `ds` holds, none in the current
/// cycle, their total and average are those of `ds`, and `k + 1` cycles have
/// begun, over which the average rate is taken.
pub proof fn lemma_statistics(ds: Seq<int>, k: nat)
    requires
        ds.len() <= u64::MAX,
        forall|i: int| 0 <= i <= ds.len() ==> i64::MIN <= #[trigger] sum(ds.subrange(0, i)) <= i64::MAX,
        1 <= k < u64::MAX,
    ensures
        ({
            let m = StatModel::fresh().accumulated_all(ds).refreshed_times(k);
            &&& m.count == ds.len()
            &&& m.rate == 0
            &&& m.total == sum(ds)
            &&& m.average() == if ds.len() == 0 { 0 } else { div_trunc(sum(ds), ds.len() as int) }
            &&& m.cycles == k + 1
            &&& m.average_rate() == ds.len() / (k + 1)
        }),
{
    lemma_accumulated_all(ds);
    lemma_refreshed_times(StatModel::fresh().accumulated_all(ds), k);
}

} // verus!
