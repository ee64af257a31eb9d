use std::cell::{Cell, RefCell};

use min_timer::{Hrt, Lim, Now, Phase, Render, Run, Sec, Stt, Timer, MILLI, SECOND};

struct Sim {
    t: Cell<i64>,
    log: RefCell<Vec<String>>,
}

impl Sim {
    fn new() -> Sim {
        Sim { t: Cell::new(0), log: RefCell::new(Vec::new()) }
    }

    fn pass(&self, d: i64) {
        self.t.set(self.t.get() + d);
    }

    fn note(&self, what: String) {
        self.log.borrow_mut().push(what);
    }

    fn take(&self) -> Vec<String> {
        std::mem::take(&mut *self.log.borrow_mut())
    }
}

impl Now for Sim {
    fn now(&self) -> Sec {
        Sec::new(self.t.get())
    }
}

#[derive(Debug, Default, Clone, Copy, PartialEq)]
struct Pos(i64);

impl Stt<Sim> for Pos {
    fn add(self, other: Pos) -> Pos {
        Pos(self.0 + other.0)
    }

    fn scale(self, num: i64, den: i64) -> Pos {
        Pos(self.0 * num / den)
    }

    fn init<'a>(&mut self, hrt: &mut Hrt<'a, Sim>, timer: Timer<'a, Sim>) {
        hrt.now().note(format!("init {}", timer.elapsed().as_nanos()));
    }

    fn update<'a>(&mut self, hrt: &mut Hrt<'a, Sim>) {
        self.0 += 100;
        hrt.now().note(format!("update {}", self.0));
    }

    fn sec<'a>(&mut self, hrt: &mut Hrt<'a, Sim>) {
        hrt.now().note(format!("sec {} {}", hrt.ticks().rate(), hrt.frames().rate()));
    }
}

#[derive(Debug, Default, Clone, Copy, PartialEq)]
struct Quitter(i64);

impl Stt<Sim> for Quitter {
    fn add(self, other: Quitter) -> Quitter {
        Quitter(self.0 + other.0)
    }

    fn scale(self, num: i64, den: i64) -> Quitter {
        Quitter(self.0 * num / den)
    }

    fn init<'a>(&mut self, _: &mut Hrt<'a, Sim>, _: Timer<'a, Sim>) {}

    fn update<'a>(&mut self, hrt: &mut Hrt<'a, Sim>) {
        self.0 += 1;
        hrt.stop();
        hrt.now().note(format!("update {}", self.0));
    }

    fn sec<'a>(&mut self, hrt: &mut Hrt<'a, Sim>) {
        hrt.now().note("sec".to_string());
    }
}

#[derive(Default)]
struct Screen;

impl Render<Sim, Pos> for Screen {
    fn render<'a>(&mut self, hrt: &Hrt<'a, Sim>, stt: &Pos) {
        hrt.now().note(format!("render {}", stt.0));
    }
}

impl Render<Sim, Quitter> for Screen {
    fn render<'a>(&mut self, hrt: &Hrt<'a, Sim>, _: &Quitter) {
        hrt.now().note("render".to_string());
    }
}

fn started<'a>(hrt: &mut Hrt<'a, Sim>) -> Run<'a, Sim, Pos, Screen> {
    hrt.start::<Pos, Screen>()
}

#[test]
fn lim_draw_decides() {
    assert!(!Lim::Never.draw(0));
    assert!(!Lim::Never.draw(3));
    assert!(Lim::Once.draw(0));
    assert!(!Lim::Once.draw(1));
    assert!(Lim::Always.draw(0));
    assert!(Lim::Always.draw(7));
    assert_eq!(Lim::default(), Lim::Always);
}

#[test]
fn blend_weight_stays_within_a_tick() {
    assert_eq!(min_timer::hrt::blend_weight(Sec::new(-5), Sec::new(100)), 0);
    assert_eq!(min_timer::hrt::blend_weight(Sec::new(0), Sec::new(100)), 0);
    assert_eq!(min_timer::hrt::blend_weight(Sec::new(40), Sec::new(100)), 40);
    assert_eq!(min_timer::hrt::blend_weight(Sec::new(170), Sec::new(100)), 100);
}

#[test]
fn new_heart_is_idle() {
    let clock = Sim::new();
    let hrt = Hrt::new(100, &clock);
    assert!(!hrt.is_running());
    assert!(hrt.is_idle());
    assert_eq!(hrt.life(), Phase::Idle);
    assert_eq!(hrt.target(), Sec::new(10 * MILLI));
    assert_eq!(hrt.ticks().count(), 0);
    assert_eq!(hrt.frames().count(), 0);
    assert_eq!(Hrt::new(3, &clock).target(), Sec::new(333_333_333));
}

#[test]
fn stop_and_set_lim() {
    let clock = Sim::new();
    let mut hrt = Hrt::new(10, &clock);
    let _run = started(&mut hrt);
    assert!(hrt.is_running());
    hrt.set_lim(Lim::Never);
    assert!(hrt.is_running());
    hrt.stop();
    assert!(!hrt.is_running());
    assert!(!hrt.is_idle());
    assert_eq!(hrt.life(), Phase::Stopped);
}

#[test]
fn start_initializes_the_state() {
    let clock = Sim::new();
    let mut hrt = Hrt::new(10, &clock);
    let run = started(&mut hrt);
    assert_eq!(clock.take(), vec!["init 0"]);
    assert_eq!(*run.current(), Pos(0));
}

#[test]
fn three_ticks_run_before_the_render() {
    let clock = Sim::new();
    let mut hrt = Hrt::new(10, &clock);
    let mut run = started(&mut hrt);
    clock.take();
    clock.pass(300 * MILLI);
    let b = hrt.beat(&mut run);
    assert_eq!(b.updates, 3);
    assert_eq!(b.last_due, Sec::new(300 * MILLI));
    assert_eq!(b.settled, Sec::new(300 * MILLI));
    assert!(b.rendered);
    assert_eq!(b.weight, 0);
    assert!(!b.second);
    assert_eq!(clock.take(), vec!["update 100", "update 200", "update 300", "render 200"]);
    assert_eq!(run.last_tick(), Sec::new(300 * MILLI));
    assert_eq!(hrt.ticks().count(), 3);
    assert_eq!(hrt.frames().count(), 1);
}

#[test]
fn render_blends_by_the_time_left() {
    let clock = Sim::new();
    let mut hrt = Hrt::new(10, &clock);
    let mut run = started(&mut hrt);
    clock.take();
    clock.pass(150 * MILLI);
    assert_eq!(hrt.beat(&mut run).updates, 1);
    assert_eq!(clock.take(), vec!["update 100", "render 50"]);
    assert_eq!(run.last_tick(), Sec::new(100 * MILLI));
}

#[test]
fn no_update_before_a_full_tick() {
    let clock = Sim::new();
    let mut hrt = Hrt::new(10, &clock);
    let mut run = started(&mut hrt);
    clock.take();
    clock.pass(99 * MILLI);
    assert_eq!(hrt.beat(&mut run).updates, 0);
    assert_eq!(clock.take(), vec!["render 0"]);
}

#[test]
fn once_renders_one_frame_per_cycle() {
    let clock = Sim::new();
    let mut hrt = Hrt::new(10, &clock);
    let mut run = started(&mut hrt);
    hrt.set_lim(Lim::Once);
    clock.take();
    hrt.beat(&mut run);
    hrt.beat(&mut run);
    assert_eq!(clock.take(), vec!["render 0"]);
    clock.pass(SECOND);
    hrt.beat(&mut run);
    let log = clock.take();
    assert_eq!(log.len(), 11);
    assert_eq!(log[10], "sec 10 1");
    hrt.beat(&mut run);
    assert_eq!(clock.take(), vec!["render 900"]);
}

#[test]
fn never_renders_nothing() {
    let clock = Sim::new();
    let mut hrt = Hrt::new(10, &clock);
    let mut run = started(&mut hrt);
    hrt.set_lim(Lim::Never);
    clock.take();
    clock.pass(100 * MILLI);
    hrt.beat(&mut run);
    assert_eq!(clock.take(), vec!["update 100"]);
    assert_eq!(hrt.frames().count(), 0);
}

#[test]
fn each_second_profiles_and_refreshes() {
    let clock = Sim::new();
    let mut hrt = Hrt::new(10, &clock);
    let mut run = started(&mut hrt);
    clock.take();
    clock.pass(SECOND + 50 * MILLI);
    let b = hrt.beat(&mut run);
    assert_eq!(b.updates, 10);
    assert!(b.second);
    assert_eq!(b.second_reading, Sec::new(SECOND + 50 * MILLI));
    assert_eq!(b.weight, 50 * MILLI);
    let log = clock.take();
    assert_eq!(log.len(), 12);
    assert_eq!(log[10], "render 950");
    assert_eq!(log[11], "sec 10 1");
    assert_eq!(hrt.ticks().rate(), 0);
    assert_eq!(hrt.ticks().count(), 10);
    assert_eq!(hrt.ticks().cycles(), 2);
    assert_eq!(hrt.frames().cycles(), 2);
}

#[test]
fn stop_in_update_finishes_the_beat() {
    let clock = Sim::new();
    let mut hrt = Hrt::new(10, &clock);
    let mut run = hrt.start::<Quitter, Screen>();
    clock.pass(SECOND);
    let mut beats = 0;
    while hrt.is_running() {
        hrt.beat(&mut run);
        beats += 1;
        clock.pass(SECOND);
    }
    assert_eq!(beats, 1);
    let log = clock.take();
    assert_eq!(log.len(), 12);
    assert_eq!(log[0], "update 1");
    assert_eq!(log[9], "update 10");
    assert_eq!(log[10], "render");
    assert_eq!(log[11], "sec");
}

#[test]
fn heart_with_a_period() {
    let clock = Sim::new();
    let hrt = Hrt::with_period(Sec::new(2 * SECOND), &clock);
    assert_eq!(hrt.target(), Sec::new(2 * SECOND));
    assert!(hrt.is_idle());
}

#[test]
fn beat_due_steps_take_the_reading() {
    let clock = Sim::new();
    let mut hrt = Hrt::new(10, &clock);
    let run = started(&mut hrt);
    assert!(!run.tick_due(Sec::new(99 * MILLI)));
    assert!(run.tick_due(Sec::new(100 * MILLI)));
    assert!(!run.second_due(Sec::new(SECOND - 1)));
    assert!(run.second_due(Sec::new(SECOND)));
    assert_eq!(min_timer::hrt::blend_weights(Sec::new(30 * MILLI), Sec::new(100 * MILLI)), (70 * MILLI, 30 * MILLI));
}
