//! The decisions of a running session: what the screen shows at each frame and
//! what a key press does. The terminal loop that performs them stands outside
//! the library.
use vstd::prelude::*;
use vstd::string::StringExecFns;

use crate::cli::{decimal, digit_char, law_two_digit_clock_format, spec_parse_duration, two_digits};
use crate::render::blockstack::VisualState;
use crate::time::{Duration, Instant, MAX_NANOS, NANOS_PER_SEC};
use crate::timer::{resume_fits, spec_remaining, spec_toggle, ActiveTimer};

verus! {

/// The countdown text of `d`: whole minutes and the seconds left over, `MM:SS`.
pub open spec fn spec_format_remaining(d: nat) -> Seq<char> {
    let total = d / (NANOS_PER_SEC as nat);
    two_digits(total / 60) + seq![':'] + two_digits(total % 60)
}

/// The countdown shown for a time left reads back, as a duration argument, as the
/// whole seconds of that time; under one second (`00:00`) it is refused as too short.
pub proof fn law_countdown_reads_back(d: nat)
    requires
        d <= MAX_NANOS,
    ensures
        spec_parse_duration(spec_format_remaining(d)) == (if d / (NANOS_PER_SEC as nat) >= 1 {
            Ok::<nat, Seq<char>>(d / (NANOS_PER_SEC as nat))
        } else {
            Err("must be at least 1"@)
        }),
{
    let total = d / (NANOS_PER_SEC as nat);
    assert(total <= u64::MAX) by (nonlinear_arith)
        requires
            d <= MAX_NANOS,
            total == d / 1_000_000_000,
    ;
    assert((total / 60) * 60 + total % 60 == total) by (nonlinear_arith);
    law_two_digit_clock_format(total / 60, total % 60);
}

/// The one-character text of the digit `d`.
fn digit_text(d: u64) -> (t: &'static str)
    requires
        d < 10,
    ensures
        t@ == seq![digit_char(d as nat)],
{
    proof {
        reveal_strlit("0");
        reveal_strlit("1");
        reveal_strlit("2");
        reveal_strlit("3");
        reveal_strlit("4");
        reveal_strlit("5");
        reveal_strlit("6");
        reveal_strlit("7");
        reveal_strlit("8");
        reveal_strlit("9");
    }
    match d {
        0 => "0",
        1 => "1",
        2 => "2",
        3 => "3",
        4 => "4",
        5 => "5",
        6 => "6",
        7 => "7",
        8 => "8",
        _ => "9",
    }
}

/// Appends the decimal digits of `n` to `out`.
fn push_decimal(out: &mut String, n: u64)
    ensures
        final(out)@ == old(out)@ + decimal(n as nat),
    decreases n,
{
    if n < 10 {
        out.append(digit_text(n));
    } else {
        push_decimal(out, n / 10);
        out.append(digit_text(n % 10));
    }
}

/// Appends `n` in the format `{n:02}` to `out`.
fn push_two_digits(out: &mut String, n: u64)
    ensures
        final(out)@ == old(out)@ + two_digits(n as nat),
{
    if n < 10 {
        proof {
            reveal_strlit("0");
        }
        out.append("0");
        push_decimal(out, n);
        assert(final(out)@ =~= old(out)@ + two_digits(n as nat));
    } else {
        push_decimal(out, n);
    }
}

/// Helper function defining formatted countdown string strings.
pub fn format_remaining(duration: Duration) -> (s: String)
    ensures
        s@ == spec_format_remaining(duration@),
{
    let total = duration.as_secs();
    let minutes = total / 60;
    let seconds = total % 60;
    let mut s = String::new();
    push_two_digits(&mut s, minutes);
    proof {
        reveal_strlit(":");
    }
    s.append(":");
    push_two_digits(&mut s, seconds);
    assert(s@ =~= spec_format_remaining(duration@));
    s
}

/// What the screen shows for a timer with `remaining` time left: done once it
/// reaches zero, else paused or running.
pub fn visual_state_for(remaining: Duration, paused: bool) -> (v: VisualState)
    ensures
        remaining@ == 0 ==> v == VisualState::Completed,
        remaining@ != 0 && paused ==> v == VisualState::Paused,
        remaining@ != 0 && !paused ==> v == VisualState::Running,
{
    if remaining.is_zero() {
        VisualState::Completed
    } else if paused {
        VisualState::Paused
    } else {
        VisualState::Running
    }
}

/// The frame counter of the running clock: one tick per 120 milliseconds of
/// `since_start` (taken modulo 2^64).
pub fn running_tick(since_start: Duration) -> (t: u64)
    ensures
        t == ((since_start@ / 1_000_000) % 0x1_0000_0000_0000_0000) / 120,
{
    let millis = since_start.as_nanos() / 1_000_000;
    (millis % 0x1_0000_0000_0000_0000) as u64 / 120
}

/// A key the session reacts to.
#[derive(Debug, Clone, Copy, PartialEq, Eq, Structural)]
pub enum Key {
    Char(char),
    Enter,
    Esc,
    /// Any other key.
    Other,
}

/// What the loop keeps between frames: the tick at which the animation stands
/// while the timer is paused.
#[derive(Debug, Clone, Copy, PartialEq, Eq, Structural)]
pub struct LoopState {
    pub frozen_tick: u64,
}

impl LoopState {
    /// The state at the start of a session.
    pub fn new() -> (s: LoopState)
        ensures
            s.frozen_tick == 0,
    {
        LoopState { frozen_tick: 0 }
    }

    /// The tick to draw this frame with: while paused the frozen one; while
    /// running the running one, which also becomes the frozen one.
    pub fn frame_tick(&mut self, paused: bool, running_tick: u64) -> (t: u64)
        ensures
            paused ==> t == old(self).frozen_tick && final(self).frozen_tick == old(self).frozen_tick,
            !paused ==> t == running_tick && final(self).frozen_tick == running_tick,
    {
        if paused {
            self.frozen_tick
        } else {
            self.frozen_tick = running_tick;
            running_tick
        }
    }
}

/// Whether `key` ends the session: `q`, Enter or Esc.
pub open spec fn is_quit_key(key: Key) -> bool {
    key == Key::Char('q') || key == Key::Enter || key == Key::Esc
}

/// Reacts to `key` pressed at `now`, with the clock at `running_tick`: `q`,
/// Enter and Esc end the session (the result is `true`); `p` toggles the pause,
/// and a pause freezes the animation at `running_tick`; other keys do nothing.
pub fn handle_key(
    timer: &mut ActiveTimer,
    state: &mut LoopState,
    key: Key,
    now: Instant,
    running_tick: u64,
) -> (quit: bool)
    requires
        key == Key::Char('p') ==> resume_fits(old(timer)@, now@),
    ensures
        quit == is_quit_key(key),
        key == Key::Char('p') ==> final(timer)@ == spec_toggle(old(timer)@, now@),
        key == Key::Char('p') ==> final(state).frozen_tick == (if final(timer)@.paused_at is Some {
            running_tick
        } else {
            old(state).frozen_tick
        }),
        key != Key::Char('p') ==> final(timer)@ == old(timer)@ && *final(state) == *old(state),
{
    match key {
        Key::Char('q') | Key::Enter | Key::Esc => true,
        Key::Char('p') => {
            timer.toggle_pause(now);
            if timer.is_paused() {
                state.frozen_tick = running_tick;
            }
            false
        },
        _ => false,
    }
}

} // verus!
