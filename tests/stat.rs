use min_timer::{Sec, Stat, SECOND};

#[test]
fn fresh_statistic() {
    let s = Stat::new();
    assert_eq!(s.count(), 0);
    assert_eq!(s.rate(), 0);
    assert_eq!(s.cycles(), 1);
    assert_eq!(s.total(), Sec::zero());
    assert_eq!(Stat::default().cycles(), 1);
}

#[test]
fn accumulate_and_refresh() {
    let mut s = Stat::new();
    s.accumulate(Sec::from_secs(3));
    assert_eq!(s.rate(), 1);
    s.refresh();
    s.accumulate(Sec::from_secs(5));
    assert_eq!(s.dur(), Sec::from_secs(4));
    assert_eq!(s.count(), 2);
    assert_eq!(s.rate(), 1);
    assert_eq!(s.cycles(), 2);
}

#[test]
fn average_duration_of_nothing_is_zero() {
    assert_eq!(Stat::new().dur(), Sec::zero());
    let mut s = Stat::new();
    s.refresh();
    assert_eq!(s.dur(), Sec::zero());
}

#[test]
fn average_duration_rounds_toward_zero() {
    let mut s = Stat::new();
    s.accumulate(Sec::new(-4));
    s.accumulate(Sec::new(-3));
    assert_eq!(s.dur(), Sec::new(-3));
    let mut t = Stat::new();
    t.accumulate(Sec::new(4));
    t.accumulate(Sec::new(3));
    assert_eq!(t.dur(), Sec::new(3));
}

#[test]
fn statistics_after_accumulations_and_refreshes() {
    let ds = [Sec::new(SECOND), Sec::new(2 * SECOND), Sec::new(6 * SECOND)];
    let mut s = Stat::new();
    for d in ds {
        s.accumulate(d);
    }
    s.refresh();
    assert_eq!(s.count(), 3);
    assert_eq!(s.rate(), 0);
    assert_eq!(s.total(), Sec::new(9 * SECOND));
    assert_eq!(s.dur(), Sec::new(3 * SECOND));
    s.refresh();
    s.refresh();
    assert_eq!(s.cycles(), 4);
    assert_eq!(s.avg_rate(), 0);
    let mut busy = Stat::new();
    for _ in 0..10 {
        busy.accumulate(Sec::new(1));
    }
    busy.refresh();
    assert_eq!(busy.avg_rate(), 5);
    busy.refresh();
    busy.refresh();
    assert_eq!(busy.avg_rate(), 2);
}

#[test]
fn total_saturates() {
    let mut s = Stat::new();
    s.accumulate(Sec::new(i64::MAX));
    s.accumulate(Sec::new(i64::MAX));
    assert_eq!(s.total(), Sec::new(i64::MAX));
    assert_eq!(s.dur(), Sec::new(i64::MAX / 2));
}
