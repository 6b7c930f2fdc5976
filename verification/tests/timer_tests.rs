use tilepop::Timer;

#[test]
fn fires_after_one_interval_and_restarts() {
    let mut t = Timer::new(100, 1_000);
    assert!(!t.ready(1_050));
    assert!(!t.ready(1_099));
    assert!(t.ready(1_100));
    // the countdown restarts from the firing
    assert!(!t.ready(1_150));
    assert!(t.ready(1_250));
}

#[test]
fn time_until_ready_counts_down_to_zero() {
    let t = Timer::new(100, 1_000);
    assert_eq!(t.time_until_ready(1_000), 100);
    assert_eq!(t.time_until_ready(1_060), 40);
    assert_eq!(t.time_until_ready(1_100), 0);
    assert_eq!(t.time_until_ready(2_000), 0);
}

#[test]
fn clock_before_last_firing_counts_as_no_time() {
    let mut t = Timer::new(50, 1_000);
    assert!(!t.ready(900));
    assert_eq!(t.time_until_ready(900), 50);
}
