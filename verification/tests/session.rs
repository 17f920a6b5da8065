use timepour::cli::parse_duration;
use timepour::render::blockstack::VisualState;
use timepour::session::{format_remaining, handle_key, running_tick, visual_state_for, Key, LoopState};
use timepour::time::{Duration, Instant};
use timepour::timer::{ActiveTimer, SessionKind};

#[test]
fn countdown_text() {
    assert_eq!(format_remaining(Duration::from_secs(25 * 60)), "25:00");
    assert_eq!(format_remaining(Duration::from_secs(65)), "01:05");
    assert_eq!(format_remaining(Duration::zero()), "00:00");
    assert_eq!(format_remaining(Duration::from_millis(59_999)), "00:59");
    assert_eq!(format_remaining(Duration::from_secs(6005)), "100:05");
}

#[test]
fn visual_state_follows_the_timer() {
    assert_eq!(visual_state_for(Duration::zero(), true), VisualState::Completed);
    assert_eq!(visual_state_for(Duration::zero(), false), VisualState::Completed);
    assert_eq!(visual_state_for(Duration::from_secs(1), true), VisualState::Paused);
    assert_eq!(visual_state_for(Duration::from_millis(1), false), VisualState::Running);
}

#[test]
fn ticks_count_120_milliseconds() {
    assert_eq!(running_tick(Duration::from_millis(119)), 0);
    assert_eq!(running_tick(Duration::from_millis(240)), 2);
    assert_eq!(running_tick(Duration::from_secs(12)), 100);
}

#[test]
fn frozen_tick_holds_while_paused() {
    let mut state = LoopState::new();
    assert_eq!(state.frame_tick(false, 7), 7);
    assert_eq!(state.frame_tick(true, 20), 7);
    assert_eq!(state.frame_tick(false, 21), 21);
    assert_eq!(state.frozen_tick, 21);
}

#[test]
fn keys_quit_or_toggle_the_pause() {
    let start = Instant::from_origin(Duration::from_secs(10));
    let mut timer = ActiveTimer::new(SessionKind::Focus, None, start);
    let mut state = LoopState::new();
    let at = start + Duration::from_secs(3);
    assert!(!handle_key(&mut timer, &mut state, Key::Char('p'), at, 25));
    assert!(timer.is_paused());
    assert_eq!(state.frozen_tick, 25);
    assert!(!handle_key(&mut timer, &mut state, Key::Char('p'), at + Duration::from_secs(2), 42));
    assert!(!timer.is_paused());
    assert_eq!(state.frozen_tick, 25);
    assert!(!handle_key(&mut timer, &mut state, Key::Char('x'), at, 50));
    assert!(!handle_key(&mut timer, &mut state, Key::Other, at, 50));
    assert_eq!(state.frozen_tick, 25);
    assert!(handle_key(&mut timer, &mut state, Key::Char('q'), at, 0));
    assert!(handle_key(&mut timer, &mut state, Key::Enter, at, 0));
    assert!(handle_key(&mut timer, &mut state, Key::Esc, at, 0));
    assert!(!timer.is_paused());
}

#[test]
fn countdown_reads_back_as_a_duration() {
    for secs in [1u64, 5, 59, 60, 65, 599, 1500, 6005, 360_000] {
        let shown = format_remaining(Duration::from_millis(secs * 1000 + 999));
        assert_eq!(parse_duration(&shown), Ok(Duration::from_secs(secs)));
    }
    assert_eq!(
        parse_duration(&format_remaining(Duration::from_millis(999))),
        Err("must be at least 1".to_string())
    );
}
