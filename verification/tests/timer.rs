use timepour::time::{Clock, Duration, Instant};
use timepour::timer::{ActiveTimer, SessionKind};

#[test]
fn focus_defaults_to_twenty_five_minutes() {
    let started_at = Clock::start().now();
    let timer = ActiveTimer::new(SessionKind::Focus, None, started_at);

    assert_eq!(timer.total_duration(), Duration::from_secs(25 * 60));
}

#[test]
fn break_defaults_to_five_minutes() {
    let started_at = Clock::start().now();
    let timer = ActiveTimer::new(SessionKind::Break, None, started_at);

    assert_eq!(timer.total_duration(), Duration::from_secs(5 * 60));
}

#[test]
fn explicit_duration_configures_timer() {
    let started_at = Clock::start().now();
    let timer = ActiveTimer::new(
        SessionKind::Focus,
        Some(Duration::from_secs(90)),
        started_at,
    );

    assert_eq!(timer.total_duration(), Duration::from_secs(90));
}

#[test]
fn pause_freezes_elapsed_time_until_resume() {
    let started_at = Clock::start().now();
    let mut timer = ActiveTimer::new(
        SessionKind::Focus,
        Some(Duration::from_secs(60)),
        started_at,
    );

    timer.pause(started_at + Duration::from_secs(10));

    assert_eq!(
        timer.elapsed_at(started_at + Duration::from_secs(30)),
        Duration::from_secs(10)
    );

    timer.resume(started_at + Duration::from_secs(40));

    assert_eq!(
        timer.elapsed_at(started_at + Duration::from_secs(50)),
        Duration::from_secs(20)
    );
}

#[test]
fn remaining_time_saturates_at_zero() {
    let started_at = Clock::start().now();
    let timer = ActiveTimer::new(
        SessionKind::Focus,
        Some(Duration::from_secs(10)),
        started_at,
    );

    assert_eq!(
        timer.remaining_at(started_at + Duration::from_secs(20)),
        Duration::zero()
    );
}

#[test]
fn default_minutes_per_kind() {
    assert_eq!(SessionKind::Focus.default_minutes(), 25);
    assert_eq!(SessionKind::Break.default_minutes(), 5);
}

#[test]
fn kind_and_pause_state_are_reported() {
    let start = Instant::from_origin(Duration::from_secs(1000));
    let mut timer = ActiveTimer::new(SessionKind::Break, None, start);
    assert_eq!(timer.kind(), SessionKind::Break);
    assert!(!timer.is_paused());
    timer.toggle_pause(start + Duration::from_secs(1));
    assert!(timer.is_paused());
    timer.toggle_pause(start + Duration::from_secs(5));
    assert!(!timer.is_paused());
    // 10 seconds on the clock, 4 of them paused.
    assert_eq!(
        timer.elapsed_at(start + Duration::from_secs(10)),
        Duration::from_secs(6)
    );
    assert_eq!(
        timer.remaining_at(start + Duration::from_secs(10)),
        Duration::from_secs(5 * 60 - 6)
    );
}

#[test]
fn pausing_twice_keeps_the_first_pause() {
    let start = Instant::from_origin(Duration::from_secs(0));
    let mut timer = ActiveTimer::new(SessionKind::Focus, None, start);
    timer.pause(start + Duration::from_secs(3));
    timer.pause(start + Duration::from_secs(7));
    assert_eq!(
        timer.elapsed_at(start + Duration::from_secs(100)),
        Duration::from_secs(3)
    );
    // Resuming a running timer changes nothing.
    timer.resume(start + Duration::from_secs(8));
    timer.resume(start + Duration::from_secs(9));
    assert_eq!(
        timer.elapsed_at(start + Duration::from_secs(10)),
        Duration::from_secs(5)
    );
}

#[test]
fn pause_then_resume_at_the_same_instant_changes_nothing() {
    let start = Instant::from_origin(Duration::from_secs(50));
    let mut timer = ActiveTimer::new(SessionKind::Focus, None, start);
    let before = timer.elapsed_at(start + Duration::from_secs(30));
    timer.pause(start + Duration::from_secs(12));
    timer.resume(start + Duration::from_secs(12));
    assert_eq!(timer.elapsed_at(start + Duration::from_secs(30)), before);
}

#[test]
fn clock_before_start_counts_nothing() {
    let start = Instant::from_origin(Duration::from_secs(100));
    let timer = ActiveTimer::new(SessionKind::Focus, None, start);
    let earlier = Instant::from_origin(Duration::from_secs(40));
    assert_eq!(timer.elapsed_at(earlier), Duration::zero());
    assert_eq!(timer.remaining_at(earlier), Duration::from_secs(25 * 60));
}

#[test]
fn the_clock_counts_from_its_start_and_never_goes_back() {
    let clock = Clock::start();
    let first = clock.now();
    // Started a moment ago: well under a minute has passed.
    assert!(first.since_origin().as_secs() < 60);
    assert!(first.since_origin().subsec_nanos() < 1_000_000_000);
    let second = clock.now();
    assert!(first.since_origin().as_nanos() <= second.since_origin().as_nanos());
    assert_eq!(first.saturating_duration_since(second), Duration::zero());
    let later = first + Duration::from_secs(5);
    assert_eq!(later.saturating_duration_since(first), Duration::from_secs(5));
    assert_eq!(first.saturating_duration_since(later), Duration::zero());
    assert_eq!(first.checked_add(Duration::from_secs(5)), Some(later));
}

#[test]
fn durations_hold_what_std_durations_hold() {
    let max = Duration::from_secs(u64::MAX)
        .checked_add(Duration::from_nanos_below_second(999_999_999))
        .unwrap();
    assert_eq!(max.as_secs(), u64::MAX);
    assert_eq!(max.subsec_nanos(), 999_999_999);
    assert_eq!(max.checked_add(Duration::from_nanos_below_second(1)), None);
    assert_eq!(Duration::from_millis(1500).as_secs(), 1);
    assert_eq!(Duration::from_millis(1500).subsec_nanos(), 500_000_000);
    assert_eq!(Duration::from_millis(1500).as_nanos(), 1_500_000_000);
    assert_eq!(
        Duration::from_secs(3).saturating_sub(Duration::from_secs(5)),
        Duration::zero()
    );
    assert!(Duration::zero().is_zero());
    assert_eq!(Duration::from_nanos_below_second(1_000_000_000), Duration::zero());
}

#[test]
fn pause_and_resume_in_any_order_keep_kind_and_length() {
    let start = Instant::from_origin(Duration::from_secs(0));
    let at = |s: u64| Instant::from_origin(Duration::from_secs(s));
    let mut timer = ActiveTimer::new(SessionKind::Break, Some(Duration::from_secs(120)), start);
    assert!(!timer.is_paused());
    timer.pause(at(10));
    assert!(timer.is_paused());
    timer.pause(at(15));
    assert!(timer.is_paused());
    timer.resume(at(20));
    assert!(!timer.is_paused());
    // The pause from 10 to 20 is not counted.
    assert_eq!(timer.elapsed_at(at(30)), Duration::from_secs(20));
    timer.resume(at(25));
    assert!(!timer.is_paused());
    timer.toggle_pause(at(40));
    assert!(timer.is_paused());
    timer.toggle_pause(at(45));
    assert!(!timer.is_paused());
    assert_eq!(timer.elapsed_at(at(50)), Duration::from_secs(35));
    assert_eq!(timer.kind(), SessionKind::Break);
    assert_eq!(timer.total_duration(), Duration::from_secs(120));
    // Pause and resume at one instant cancel out.
    let before = timer;
    timer.pause(at(60));
    timer.resume(at(60));
    assert_eq!(timer.elapsed_at(at(90)), before.elapsed_at(at(90)));
}
