use autocomplete_rs::probe::{NopProbe, Probe, TimerProbe};
use std::time::{Duration, Instant};

/// Lets the given time pass.
fn wait(time: Duration) {
    let begin = Instant::now();
    while begin.elapsed() < time {
        std::hint::spin_loop();
    }
}

#[test]
fn test_nop_probe() {
    let mut probe = NopProbe;
    // These should not panic
    probe.start(0);
    probe.stop(0);
}

#[test]
fn timer_probe_starts_at_zero() {
    let probe = TimerProbe::new(3);
    assert_eq!(probe.get_duration(0), 0);
    assert_eq!(probe.get_duration(1), 0);
    assert_eq!(probe.get_duration(2), 0);
}

#[test]
fn timer_probe_accumulates() {
    let mut probe = TimerProbe::new(2);
    probe.start(0);
    wait(Duration::from_millis(2));
    probe.stop(0);
    let first = probe.get_duration(0);
    assert!(first >= Duration::from_millis(2).as_nanos());
    probe.start(0);
    wait(Duration::from_millis(3));
    probe.stop(0);
    let second = probe.get_duration(0);
    assert!(second >= first + Duration::from_millis(3).as_nanos());
    // The other timer was never started.
    assert_eq!(probe.get_duration(1), 0);
}

#[test]
fn timer_probe_stop_without_start_changes_nothing() {
    let mut probe = TimerProbe::new(1);
    probe.stop(0);
    assert_eq!(probe.get_duration(0), 0);
    probe.start(0);
    probe.stop(0);
    let measured = probe.get_duration(0);
    probe.stop(0);
    assert_eq!(probe.get_duration(0), measured);
}

#[test]
fn timer_probe_without_timers() {
    let probe = TimerProbe::new(0);
    let _ = probe;
}

#[test]
fn test_timer_probe_single() {
    let mut probe = TimerProbe::new(1);

    probe.start(0);
    wait(Duration::from_millis(100));
    probe.stop(0);

    let duration = probe.get_duration(0);
    assert!(duration >= Duration::from_millis(100).as_nanos());
}

#[test]
fn test_timer_probe_multiple() {
    let mut probe = TimerProbe::new(3);

    // Timer 0
    probe.start(0);
    wait(Duration::from_millis(100));
    probe.stop(0);

    // Timer 1
    probe.start(1);
    wait(Duration::from_millis(200));
    probe.stop(1);

    // Timer 2
    probe.start(2);
    wait(Duration::from_millis(300));
    probe.stop(2);

    assert!(probe.get_duration(0) >= Duration::from_millis(100).as_nanos());
    assert!(probe.get_duration(1) >= Duration::from_millis(200).as_nanos());
    assert!(probe.get_duration(2) >= Duration::from_millis(300).as_nanos());
}

#[test]
fn test_timer_probe_accumulation() {
    let mut probe = TimerProbe::new(1);

    // First interval
    probe.start(0);
    wait(Duration::from_millis(100));
    probe.stop(0);

    // Second interval
    probe.start(0);
    wait(Duration::from_millis(100));
    probe.stop(0);

    let duration = probe.get_duration(0);
    assert!(duration >= Duration::from_millis(200).as_nanos());
}

#[test]
fn timer_probe_restart_forgets_the_open_interval() {
    let mut probe = TimerProbe::new(1);
    probe.start(0);
    wait(Duration::from_millis(50));
    // Started again: what is measured began after this point, so the first
    // 50 ms are not part of it.
    let restarted = Instant::now();
    probe.start(0);
    probe.stop(0);
    let bound = restarted.elapsed();
    assert!(probe.get_duration(0) <= bound.as_nanos());
}

#[test]
fn stop_after_adds_what_has_passed() {
    let mut probe = TimerProbe::new(2);
    probe.start(0);
    probe.stop_after(0, 100);
    assert_eq!(probe.get_duration(0), 100);
    probe.start(0);
    probe.stop_after(0, 250);
    assert_eq!(probe.get_duration(0), 350);
    // Not running: nothing is added.
    probe.stop_after(0, 1000);
    probe.stop_after(1, 1000);
    assert_eq!(probe.get_duration(0), 350);
    assert_eq!(probe.get_duration(1), 0);
}

#[test]
fn stop_after_stops_at_the_largest() {
    let mut probe = TimerProbe::new(1);
    probe.start(0);
    probe.stop_after(0, u128::MAX - 5);
    probe.start(0);
    probe.stop_after(0, 5);
    assert_eq!(probe.get_duration(0), u128::MAX);
    probe.start(0);
    probe.stop_after(0, 7);
    assert_eq!(probe.get_duration(0), u128::MAX);
    let mut other = TimerProbe::new(1);
    other.start(0);
    other.stop_after(0, u128::MAX - 5);
    other.start(0);
    other.stop_after(0, 6);
    assert_eq!(other.get_duration(0), u128::MAX);
}
