use std::cell::Cell;

use min_timer::{Now, Prf, Profile, Sec, Stat, Std, Timer, MILLI, SECOND};

struct Manual {
    t: Cell<i64>,
}

impl Manual {
    fn at(t: i64) -> Manual {
        Manual { t: Cell::new(t) }
    }

    fn pass(&self, d: i64) {
        self.t.set(self.t.get() + d);
    }
}

impl Now for Manual {
    fn now(&self) -> Sec {
        Sec::new(self.t.get())
    }
}

#[test]
fn timer_measures_from_its_creation() {
    let clock = Manual::at(1_000);
    let timer = Timer::new(&clock);
    assert_eq!(timer.start(), Sec::new(1_000));
    assert_eq!(timer.elapsed(), Sec::zero());
    clock.pass(250);
    assert_eq!(timer.elapsed(), Sec::new(250));
    assert_eq!(timer.since(Sec::new(1_400)), Sec::new(400));
    assert!(timer.reached(Sec::new(250)));
    assert!(!timer.reached(Sec::new(251)));
}

#[test]
fn timer_elapsed_never_decreases() {
    let clock = Manual::at(0);
    let timer = Timer::new(&clock);
    let mut last = timer.elapsed();
    for step in [0, 3, 0, 7, 1, 0, 100] {
        clock.pass(step);
        let now = timer.elapsed();
        assert!(now.at_least(last));
        assert!(now.at_least(Sec::zero()));
        last = now;
    }
}

#[test]
fn timer_advance_by_consumes_time_without_reading() {
    let clock = Manual::at(0);
    let mut timer = Timer::new(&clock);
    clock.pass(35);
    timer.advance_by(Sec::new(10));
    assert_eq!(timer.start(), Sec::new(10));
    assert_eq!(timer.elapsed(), Sec::new(25));
    timer.advance_by(Sec::new(10));
    timer.advance_by(Sec::new(10));
    assert_eq!(timer.elapsed(), Sec::new(5));
}

#[test]
fn timer_refresh_restarts_at_the_reading() {
    let clock = Manual::at(5);
    let mut timer = Timer::starting_at(&clock, Sec::new(-20));
    assert_eq!(timer.elapsed(), Sec::new(25));
    clock.pass(7);
    timer.refresh();
    assert_eq!(timer.start(), Sec::new(12));
    assert_eq!(timer.elapsed(), Sec::zero());
}

#[test]
fn profiler_adds_one_event_of_the_region() {
    let clock = Manual::at(0);
    let mut stat = Stat::new();
    let prf = Prf::new(&clock);
    clock.pass(3 * SECOND);
    prf.finish(&mut stat);
    assert_eq!(stat.count(), 1);
    assert_eq!(stat.rate(), 1);
    assert_eq!(stat.total(), Sec::from_secs(3));

    let other = Profile::new(&clock);
    clock.pass(20 * MILLI);
    other.finish(&mut stat);
    assert_eq!(stat.count(), 2);
    assert_eq!(stat.total(), Sec::new(3 * SECOND + 20 * MILLI));
}

#[test]
fn profiler_finish_at_a_reading() {
    let clock = Manual::at(0);
    let mut stat = Stat::new();
    Prf::starting_at(&clock, Sec::new(100)).finish_at(Sec::new(160), &mut stat);
    assert_eq!(stat.total(), Sec::new(60));
    assert_eq!(stat.count(), 1);
}

#[test]
fn profilers_count_per_cycle() {
    let clock = Std::new();
    let mut stat = Stat::new();
    Prf::new(&clock).finish(&mut stat);
    Prf::new(&clock).finish(&mut stat);
    stat.refresh();
    Prf::new(&clock).finish(&mut stat);
    Prf::new(&clock).finish(&mut stat);
    assert_eq!(stat.count(), 4);
    assert_eq!(stat.rate(), 2);
}

#[test]
fn system_clock_does_not_go_back() {
    let clock = Std::new();
    let a = clock.now();
    let b = clock.now();
    assert!(a.at_least(Sec::zero()));
    assert!(b.at_least(a));
}

#[test]
fn system_clock_profiles_a_wait() {
    let clock = Std::new();
    let mut stat = Stat::new();
    let prf = Prf::new(&clock);
    let begun = clock.now();
    while !clock.now().sub(begun).at_least(Sec::new(20 * MILLI)) {}
    prf.finish(&mut stat);
    assert_eq!(stat.count(), 1);
    assert!(stat.total().at_least(Sec::new(20 * MILLI)));
    assert!(!stat.total().at_least(Sec::new(2 * SECOND)));
}

#[test]
fn timer_copies_share_the_reference() {
    let clock = Manual::at(40);
    let mut timer = Timer::new(&clock);
    let copy = timer.clone();
    timer.advance_by(Sec::new(15));
    clock.pass(20);
    assert_eq!(copy.start(), Sec::new(40));
    assert_eq!(copy.elapsed(), Sec::new(20));
    assert_eq!(timer.elapsed(), Sec::new(5));
}

#[test]
fn timer_within_and_is() {
    let clock = Manual::at(0);
    let mut timer = Timer::new(&clock);
    clock.pass(10);
    assert!(timer.within(Sec::new(10)));
    assert!(!timer.within(Sec::new(9)));
    assert!(timer.is(Sec::new(10)));
    assert!(!timer.is(Sec::new(11)));
    timer.restart_at(Sec::new(4));
    assert_eq!(timer.elapsed(), Sec::new(6));
}
