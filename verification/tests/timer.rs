use settlement::timer::Timer;

#[test]
fn new_timer_has_counted_nothing() {
    let timer = Timer::new(1000);
    assert_eq!(timer.period_ms, 1000);
    assert_eq!(timer.elapsed_ms, 0);
}

#[test]
fn timer_fires_when_the_period_is_reached() {
    let mut timer = Timer::new(1000);
    assert!(!timer.tick(400));
    assert_eq!(timer.elapsed_ms, 400);
    assert!(!timer.tick(599));
    assert_eq!(timer.elapsed_ms, 999);
    assert!(timer.tick(1));
    assert_eq!(timer.elapsed_ms, 0);
}

#[test]
fn timer_keeps_what_is_left_over() {
    let mut timer = Timer::new(1000);
    assert!(!timer.tick(400));
    assert!(timer.tick(700));
    assert_eq!(timer.elapsed_ms, 100);
}

#[test]
fn timer_fires_once_for_a_tick_of_many_periods() {
    let mut timer = Timer::new(1000);
    assert!(timer.tick(5300));
    assert_eq!(timer.elapsed_ms, 300);
    assert!(!timer.tick(0));
    assert_eq!(timer.elapsed_ms, 300);
}

#[test]
fn timer_takes_the_longest_tick() {
    let mut timer = Timer::new(u32::MAX);
    assert!(!timer.tick(u32::MAX - 1));
    assert!(timer.tick(u32::MAX));
    assert_eq!(timer.elapsed_ms, u32::MAX - 1);
}

#[test]
fn timer_without_a_period_always_fires() {
    let mut timer = Timer::new(0);
    assert!(timer.tick(0));
    assert!(timer.tick(17));
    assert_eq!(timer.elapsed_ms, 0);
}

#[test]
fn ticks_of_one_period_fire_every_time() {
    let mut timer = Timer::new(250);
    assert!(!timer.tick(100));
    let mut n = 0;
    while n < 10 {
        assert!(timer.tick(250));
        assert_eq!(timer.elapsed_ms, 100);
        n += 1;
    }
}

#[test]
fn a_timer_must_not_have_counted_a_whole_period() {
    assert!(Timer { period_ms: 10, elapsed_ms: 9 }.is_wf());
    assert!(!Timer { period_ms: 10, elapsed_ms: 10 }.is_wf());
    assert!(Timer { period_ms: 0, elapsed_ms: 0 }.is_wf());
    assert!(!Timer { period_ms: 0, elapsed_ms: 1 }.is_wf());
}
