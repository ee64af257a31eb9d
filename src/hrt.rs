use vstd::prelude::*;

use crate::now::Now;
use crate::prf::Prf;
use crate::sec::{clamp, Sec, SECOND};
use crate::stat::{Stat, StatModel};
use crate::timer::{elapsed_at, Timer};
use vstd::arithmetic::div_mod::lemma_fundamental_div_mod_converse;

verus! {

/// Rendering limits.
#[derive(Debug, Clone, Copy, Hash, PartialEq, Eq, Structural, PartialOrd, Ord)]
pub enum Lim {
    /// Never render.
    Never,
    /// Render only while nothing was rendered in the current cycle.
    Once,
    /// Render on every beat.
    Always,
}

impl Lim {
    /// Whether a beat renders under this limit, when `rate` frames were
    /// rendered so far in the current cycle.
    pub open spec fn draws(self, rate: int) -> bool {
        match self {
            Lim::Never => false,
            Lim::Once => rate == 0,
            Lim::Always => true,
        }
    }

    /// Decides whether a beat renders, when `rate` frames were rendered so
    /// far in the current cycle.
    pub fn draw(&self, rate: u64) -> (r: bool)
        ensures
            r == self.draws(rate as int),
    {
        match self {
            Lim::Never => false,
            Lim::Once => rate == 0,
            Lim::Always => true,
        }
    }
}

impl Default for Lim {
    fn default() -> (r: Lim)
        ensures
            r == Lim::Always,
    {
        Lim::Always
    }
}

/// State of an application that a [Hrt] runs.
///
/// States form a linear space: rendering blends the previous and the current
/// state by [Stt::scale] and [Stt::add].
pub trait Stt<T: Now>: Sized + Copy + Default {
    /// Superposes two states.
    fn add(self, other: Self) -> Self;

    /// Scales the state by the fraction `num / den`; `den` is positive.
    fn scale(self, num: i64, den: i64) -> Self;

    /// Initializes the state at the start.
    /// The stopwatch passed can measure the time initialization takes.
    fn init<'a>(&mut self, hrt: &mut Hrt<'a, T>, timer: Timer<'a, T>);

    /// Updates the state on each tick.
    fn update<'a>(&mut self, hrt: &mut Hrt<'a, T>);

    /// Profiles the state once each second.
    fn sec<'a>(&mut self, hrt: &mut Hrt<'a, T>);
}

/// Renderer of an application that a [Hrt] runs.
pub trait Render<T: Now, U: Stt<T>>: Sized + Default {
    /// Renders a state, on each frame.
    fn render<'a>(&mut self, hrt: &Hrt<'a, T>, stt: &U);
}

/// Weight of the current state when blending it with the previous one, out of
/// `tar`: the time `elapsed` since the last tick, kept within `0..=tar`.
pub open spec fn weight(elapsed: int, tar: int) -> int {
    if elapsed < 0 {
        0
    } else if elapsed > tar {
        tar
    } else {
        elapsed
    }
}

/// Computes [weight]: how far the moment lies from the last tick toward the
/// next, in nanoseconds out of the tick duration `tar`.
pub fn blend_weight(elapsed: Sec, tar: Sec) -> (r: i64)
    requires
        tar@ > 0,
    ensures
        r == weight(elapsed@, tar@),
{
    let e: i64 = elapsed.as_nanos();
    let t: i64 = tar.as_nanos();
    if e < 0 {
        0
    } else if e > t {
        t
    } else {
        e
    }
}

/// The weights, out of `tar`, of the previous and of the current state in the
/// blend that is rendered when `elapsed` has passed since the last tick.
pub fn blend_weights(elapsed: Sec, tar: Sec) -> (r: (i64, i64))
    requires
        tar@ > 0,
    ensures
        r.1 == weight(elapsed@, tar@),
        r.0 == tar@ - weight(elapsed@, tar@),
{
    let w = blend_weight(elapsed, tar);
    let t = tar.as_nanos();
    (t - w, w)
}

/// Where a heart stands in its life: it runs once, and once stopped it is spent.
#[derive(Debug, Clone, Copy, PartialEq, Eq, Structural)]
pub enum Phase {
    /// Created, not started yet.
    Idle,
    /// Started, not stopped yet.
    Running,
    /// Stopped.
    Stopped,
}

/// What one beat did, and the clock readings it decided on.
#[derive(Debug, Clone, Copy)]
pub struct Beat {
    /// How many updates ran.
    pub updates: u64,
    /// The reading on which the last update was decided; when none ran, the
    /// reading on which the drain stopped.
    pub last_due: Sec,
    /// The reading on which the drain stopped: less than a tick had passed.
    pub settled: Sec,
    /// Whether a frame was rendered.
    pub rendered: bool,
    /// The weight, out of the tick duration, of the current state in the frame.
    pub weight: i64,
    /// The reading of the stopwatch of the seconds.
    pub second_reading: Sec,
    /// Whether a second had passed on it, so that a new cycle began.
    pub second: bool,
}

/// The heart of a real-time application: it updates at a fixed rate and
/// renders as its [Lim] allows, blending the last two states.
///
/// A run goes: [Hrt::start] once, then [Hrt::beat] while [Hrt::is_running].
pub struct Hrt<'a, T: Now> {
    phase: Phase,
    lim: Lim,
    tar: Sec,
    now: &'a T,
    ticks: Stat,
    frames: Stat,
}

/// What carries over from one beat of a [Hrt] to the next: the current and
/// previous states, the renderer, and the stopwatches of the ticks and the
/// seconds.
pub struct Run<'a, T: Now, U: Stt<T>, V: Render<T, U>> {
    cur: U,
    pre: U,
    ren: V,
    iter: Timer<'a, T>,
    sec: Timer<'a, T>,
    tar: Sec,
}

impl<'a, T: Now, U: Stt<T>, V: Render<T, U>> Run<'a, T, U, V> {
    /// The tick duration of the run.
    pub closed spec fn target(&self) -> int {
        self.tar@
    }

    /// The reference point of the tick stopwatch: the moment of the last tick.
    pub closed spec fn tick_reference(&self) -> int {
        self.iter.reference()
    }

    /// The reference point of the stopwatch of the seconds.
    pub closed spec fn second_reference(&self) -> int {
        self.sec.reference()
    }

    /// Returns the moment of the last tick.
    pub fn last_tick(&self) -> (r: Sec)
        ensures
            r@ == self.tick_reference(),
    {
        self.iter.start()
    }

    /// The current state.
    pub closed spec fn state(&self) -> U {
        self.cur
    }

    /// Returns the current state.
    pub fn current(&self) -> (r: &U)
        ensures
            *r == self.state(),
    {
        &self.cur
    }

    /// Whether an update is due when the clock reads `reading`: a full tick
    /// has passed since the last tick.
    pub fn tick_due(&self, reading: Sec) -> (r: bool)
        ensures
            r == (elapsed_at(self.tick_reference(), reading@) >= self.target()),
    {
        self.iter.since(reading).at_least(self.tar)
    }

    /// Whether a cycle ends when the clock reads `reading`: a second has passed
    /// on the stopwatch of the seconds.
    pub fn second_due(&self, reading: Sec) -> (r: bool)
        ensures
            r == (elapsed_at(self.second_reference(), reading@) >= SECOND),
    {
        self.sec.since(reading).at_least(Sec::new(SECOND))
    }
}

impl<'a, T: Now> Hrt<'a, T> {
    #[verifier::type_invariant]
    spec fn inv(self) -> bool {
        self.tar@ > 0
    }

    /// Where it stands in its life.
    pub closed spec fn phase(&self) -> Phase {
        self.phase
    }

    /// Whether it runs.
    pub open spec fn running(&self) -> bool {
        self.phase() == Phase::Running
    }

    /// The clock it runs on.
    pub closed spec fn clock(&self) -> &'a T {
        self.now
    }

    /// The rendering limit.
    pub closed spec fn limit(&self) -> Lim {
        self.lim
    }

    /// The tick duration, in nanoseconds.
    pub closed spec fn period(&self) -> int {
        self.tar@
    }

    /// The statistics of the updates.
    pub closed spec fn tick_stats(&self) -> StatModel {
        self.ticks@
    }

    /// The statistics of the renders.
    pub closed spec fn frame_stats(&self) -> StatModel {
        self.frames@
    }

    /// Creates, idle, with the target tick rate `tar` in hertz, from one tick
    /// per second to one per nanosecond. The tick duration is the whole
    /// nanoseconds of `1 / tar` seconds.
    pub fn new(tar: u64, now: &'a T) -> (r: Self)
        requires
            1 <= tar <= SECOND,
        ensures
            r.phase() == Phase::Idle,
            r.limit() == Lim::Always,
            r.period() == SECOND as int / (tar as int),
            r.tick_stats() == StatModel::fresh(),
            r.frame_stats() == StatModel::fresh(),
            r.clock() == now,
    {
        let period: u64 = SECOND as u64 / tar;
        proof {
            assert(period >= 1) by (nonlinear_arith)
                requires period == SECOND as u64 / tar, 1 <= tar <= SECOND;
        }
        Hrt::with_period(Sec::new(period as i64), now)
    }

    /// Creates, idle, with the given positive tick duration.
    pub fn with_period(period: Sec, now: &'a T) -> (r: Self)
        requires
            period@ > 0,
        ensures
            r.phase() == Phase::Idle,
            r.limit() == Lim::Always,
            r.period() == period@,
            r.tick_stats() == StatModel::fresh(),
            r.frame_stats() == StatModel::fresh(),
            r.clock() == now,
    {
        Hrt {
            phase: Phase::Idle,
            lim: Lim::Always,
            tar: period,
            now,
            ticks: Stat::new(),
            frames: Stat::new(),
        }
    }

    /// Returns the statistics of the updates.
    pub fn ticks(&self) -> (r: &Stat)
        ensures
            r@ == self.tick_stats(),
    {
        &self.ticks
    }

    /// Returns the statistics of the renders.
    pub fn frames(&self) -> (r: &Stat)
        ensures
            r@ == self.frame_stats(),
    {
        &self.frames
    }

    /// Returns the clock it runs on.
    pub fn now(&self) -> (r: &'a T)
        ensures
            r == self.clock(),
    {
        self.now
    }

    /// Returns where it stands in its life.
    pub fn life(&self) -> (r: Phase)
        ensures
            r == self.phase(),
    {
        self.phase
    }

    /// Returns whether it runs.
    pub fn is_running(&self) -> (r: bool)
        ensures
            r == self.running(),
    {
        self.phase == Phase::Running
    }

    /// Returns whether it was never started.
    pub fn is_idle(&self) -> (r: bool)
        ensures
            r == (self.phase() == Phase::Idle),
    {
        self.phase == Phase::Idle
    }

    /// Returns the tick duration.
    pub fn target(&self) -> (r: Sec)
        ensures
            r@ == self.period(),
            r@ > 0,
    {
        proof {
            use_type_invariant(self);
        }
        self.tar
    }

    /// Stops it for good. The beat under way still finishes: it may update
    /// more, render once and profile once.
    pub fn stop(&mut self)
        ensures
            final(self).phase() == Phase::Stopped,
            final(self).limit() == old(self).limit(),
            final(self).period() == old(self).period(),
            final(self).clock() == old(self).clock(),
            final(self).tick_stats() == old(self).tick_stats(),
            final(self).frame_stats() == old(self).frame_stats(),
    {
        proof {
            use_type_invariant(&*self);
        }
        self.phase = Phase::Stopped;
    }

    /// Sets the rendering limit.
    ///
    /// Consider limiting rendering during an intense task, and splitting such
    /// a task over several updates: otherwise the updates that pile up while it
    /// lasts all run at once afterwards.
    pub fn set_lim(&mut self, lim: Lim)
        ensures
            final(self).limit() == lim,
            final(self).phase() == old(self).phase(),
            final(self).period() == old(self).period(),
            final(self).clock() == old(self).clock(),
            final(self).tick_stats() == old(self).tick_stats(),
            final(self).frame_stats() == old(self).frame_stats(),
    {
        proof {
            use_type_invariant(&*self);
        }
        self.lim = lim;
    }

    /// Flags it running and starts the stopwatch handed to initialization.
    fn begin(&mut self) -> (t: Timer<'a, T>)
        requires
            old(self).phase() == Phase::Idle,
        ensures
            final(self).phase() == Phase::Running,
            final(self).limit() == old(self).limit(),
            final(self).period() == old(self).period(),
            final(self).clock() == old(self).clock(),
            final(self).tick_stats() == old(self).tick_stats(),
            final(self).frame_stats() == old(self).frame_stats(),
            t.clock() == old(self).clock(),
    {
        proof {
            use_type_invariant(&*self);
        }
        self.phase = Phase::Running;
        Timer::new(self.now)
    }

    /// Starts it: flags it running, creates the state and the renderer from
    /// their defaults, and initializes the state on the running heart. Returns
    /// what the beats carry over, with the stopwatches started after
    /// initialization. Only an idle heart starts.
    pub fn start<U: Stt<T>, V: Render<T, U>>(&mut self) -> (r: Run<'a, T, U, V>)
        requires
            old(self).phase() == Phase::Idle,
        ensures
            r.target() == old(self).period(),
            r.target() > 0,
    {
        proof {
            use_type_invariant(&*self);
        }
        let tar = self.tar;
        let init = self.begin();
        let ren = V::default();
        let mut cur = U::default();
        cur.init(self, init);
        let pre = U::default();
        let sec = Timer::new(self.now);
        let iter = Timer::new(self.now);
        Run { cur, pre, ren, iter, sec, tar }
    }

    /// Runs the updates that are due: while at least one tick duration has
    /// passed since the last tick, updates once and moves the last tick forward
    /// by exactly one tick duration. Returns how many updates ran, the reading
    /// on which the last one was decided, and the reading on which it stopped.
    fn drain<U: Stt<T>, V: Render<T, U>>(&mut self, run: &mut Run<'a, T, U, V>) -> (r: (u64, Sec, Sec))
        requires
            old(run).target() > 0,
        ensures
            final(run).target() == old(run).target(),
            final(run).second_reference() == old(run).second_reference(),
            final(run).tick_reference() == old(run).tick_reference() + r.0 * old(run).target(),
            elapsed_at(final(run).tick_reference(), r.2@) < final(run).target(),
            r.0 > 0 ==> elapsed_at(old(run).tick_reference() + (r.0 - 1) * old(run).target(), r.1@)
                >= old(run).target(),
            r.0 == 0 ==> r.1 == r.2,
            r.0 == 0 ==> *final(self) == *old(self),
    {
        proof {
            use_type_invariant(&*self);
            run.iter.lemma_reference_range();
            Sec::lemma_range(run.tar);
        }
        let tar = run.tar;
        let mut n: u64 = 0;
        let mut last_due = Sec::zero();
        loop
            invariant
                tar@ == run.tar@,
                tar@ > 0,
                run.target() == old(run).target(),
                run.second_reference() == old(run).second_reference(),
                run.tick_reference() == old(run).tick_reference() + n * tar@,
                i64::MIN <= run.tick_reference() <= i64::MAX,
                i64::MIN <= old(run).tick_reference() <= i64::MAX,
                tar@ <= i64::MAX,
                n > 0 ==> elapsed_at(old(run).tick_reference() + (n - 1) * tar@, last_due@) >= tar@,
                n == 0 ==> *self == *old(self),
            decreases i64::MAX - run.tick_reference(),
        {
            let reading = run.iter.read();
            proof {
                Sec::lemma_range(reading);
            }
            if !run.tick_due(reading) {
                return (n, if n == 0 { reading } else { last_due }, reading);
            }
            last_due = reading;
            let prf = Prf::new(self.now);
            run.pre = run.cur;
            run.cur.update(self);
            proof {
                use_type_invariant(&*self);
            }
            let mut ticks = self.ticks;
            prf.finish(&mut ticks);
            self.ticks = ticks;
            run.iter.advance_by(tar);
            proof {
                let t = tar@;
                assert(n * t + t == (n + 1) * t) by (nonlinear_arith);
                assert(n + 1 <= (n + 1) * t) by (nonlinear_arith)
                    requires t >= 1, n >= 0;
                assert(((n + 1) - 1) * t == n * t);
            }
            n = n + 1;
        }
    }

    /// One beat: runs the updates that are due; renders, if the limit allows,
    /// a blend of the previous and the current state weighted by the time
    /// passed since the last tick at the reading that ended the updates; and,
    /// once a second has passed on the stopwatch of the seconds, moves that
    /// stopwatch forward by exactly one second, profiles the state and ends
    /// the cycle of both statistics.
    pub fn beat<U: Stt<T>, V: Render<T, U>>(&mut self, run: &mut Run<'a, T, U, V>) -> (b: Beat)
        requires
            old(run).target() > 0,
        ensures
            final(run).target() == old(run).target(),
            final(run).tick_reference() == old(run).tick_reference() + b.updates * old(run).target(),
            elapsed_at(final(run).tick_reference(), b.settled@) < old(run).target(),
            b.updates > 0 ==> elapsed_at(
                old(run).tick_reference() + (b.updates - 1) * old(run).target(),
                b.last_due@,
            ) >= old(run).target(),
            b.updates == 0 ==> b.last_due == b.settled,
            b.rendered ==> b.weight == weight(
                elapsed_at(final(run).tick_reference(), b.settled@),
                old(run).target(),
            ),
            b.rendered ==> 0 <= b.weight < old(run).target(),
            b.updates == 0 ==> b.rendered == old(self).limit().draws(old(self).frame_stats().rate),
            b.second == (elapsed_at(old(run).second_reference(), b.second_reading@) >= SECOND),
            final(run).second_reference() == if b.second {
                clamp(old(run).second_reference() + SECOND)
            } else {
                old(run).second_reference()
            },
            b.second ==> final(self).tick_stats().rate == 0 && final(self).frame_stats().rate == 0,
            b.updates == 0 && !b.second ==> final(self).tick_stats() == old(self).tick_stats(),
            b.updates == 0 && !b.second && !b.rendered ==> final(self).frame_stats()
                == old(self).frame_stats(),
            b.updates == 0 && !b.second && b.rendered ==> exists|d: int|
                final(self).frame_stats() == old(self).frame_stats().accumulated(d),
    {
        let (n, last_due, settled) = self.drain(run);
        proof {
            use_type_invariant(&*self);
        }
        let rendered = self.lim.draw(self.frames.rate());
        let mut w: i64 = 0;
        if rendered {
            let prf = Prf::new(self.now);
            let (pw, cw) = blend_weights(run.iter.since(settled), run.tar);
            w = cw;
            let den = run.tar.as_nanos();
            let drawn = run.pre.scale(pw, den).add(run.cur.scale(cw, den));
            run.ren.render(self, &drawn);
            let mut frames = self.frames;
            prf.finish(&mut frames);
            self.frames = frames;
        }
        let second_reading = run.sec.read();
        let second = run.second_due(second_reading);
        if second {
            run.sec.advance_by(Sec::new(SECOND));
            run.cur.sec(self);
            proof {
                use_type_invariant(&*self);
            }
            let mut ticks = self.ticks;
            let mut frames = self.frames;
            ticks.refresh();
            frames.refresh();
            self.ticks = ticks;
            self.frames = frames;
        }
        Beat { updates: n, last_due, settled, rendered, weight: w, second_reading, second }
    }
}

/// Steps are fixed: when the clock holds one reading through the updates of a
/// beat, so that the last update was decided on the same reading that ended
/// them, the beat ran exactly as many updates as whole tick durations had
/// passed since the last tick, and what is left is the part of a tick beyond
/// them. So when three tick durations have passed, three updates run and
/// nothing is left.
pub proof fn lemma_held_clock(start: int, tar: int, updates: nat, reading: int)
    requires
        0 < tar <= i64::MAX,
        0 <= reading - start <= i64::MAX,
        updates > 0 ==> elapsed_at(start + (updates - 1) * tar, reading) >= tar,
        elapsed_at(start + updates * tar, reading) < tar,
    ensures
        updates == (reading - start) / tar,
        elapsed_at(start + updates * tar, reading) == (reading - start) % tar,
        reading - start == 3 * tar ==> updates == 3 && elapsed_at(start + updates * tar, reading) == 0,
{
    let e = reading - start;
    let n = updates as int;
    assert(n * tar == (n - 1) * tar + tar) by (nonlinear_arith);
    assert(e - n * tar >= 0) by {
        if n > 0 {
            assert(clamp(e - (n - 1) * tar) >= tar);
        } else {
            assert(n * tar == 0) by (nonlinear_arith) requires n == 0;
        }
    }
    assert(e - n * tar < tar);
    lemma_fundamental_div_mod_converse(e, tar, n, e - n * tar);
    if e == 3 * tar {
        lemma_fundamental_div_mod_converse(e, tar, 3, 0);
    }
}

} // verus!
