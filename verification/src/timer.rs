//! The countdown: session kinds, pause and resume, elapsed and remaining time.
use vstd::prelude::*;

use crate::time::{Duration, Instant, MAX_NANOS, NANOS_PER_SEC};

verus! {

/// Represents the type of Pomodoro session currently active.
#[derive(Debug, Clone, Copy, PartialEq, Eq, Structural)]
pub enum SessionKind {
    /// A high-focus work block, typically 25 minutes.
    Focus,
    /// A shorter restorative break block, typically 5 minutes.
    Break,
}

/// The default length of a session of `kind`, in minutes.
pub open spec fn spec_default_minutes(kind: SessionKind) -> nat {
    match kind {
        SessionKind::Focus => 25,
        SessionKind::Break => 5,
    }
}

impl SessionKind {
    /// Returns the default duration in minutes for the given session kind.
    pub fn default_minutes(self) -> (m: u64)
        ensures
            m == spec_default_minutes(self),
    {
        match self {
            SessionKind::Focus => 25,
            SessionKind::Break => 5,
        }
    }
}

/// The abstract state of a timer, in nanoseconds.
pub struct TimerView {
    pub kind: SessionKind,
    /// The configured length of the session.
    pub total: nat,
    /// The point at which the session started.
    pub started_at: nat,
    /// The sum of all completed pauses.
    pub paused_total: nat,
    /// The point at which the current pause began, if the timer is paused.
    pub paused_at: Option<nat>,
}

/// `a - b`, or zero where `b` is the larger one.
pub open spec fn sat_sub(a: nat, b: nat) -> nat {
    if a >= b {
        (a - b) as nat
    } else {
        0
    }
}

/// The active (unpaused) time of a timer in state `t`, as seen at `now`:
/// while paused the clock stands at the point where the pause began.
pub open spec fn spec_elapsed(t: TimerView, now: nat) -> nat {
    let effective_now = match t.paused_at {
        Some(p) => p,
        None => now,
    };
    sat_sub(sat_sub(effective_now, t.started_at), t.paused_total)
}

/// The time left of a timer in state `t` at `now`; zero once the session is over.
pub open spec fn spec_remaining(t: TimerView, now: nat) -> nat {
    sat_sub(t.total, spec_elapsed(t, now))
}

/// The length a new timer gets: the explicit one, else the kind's default.
pub open spec fn spec_initial_total(kind: SessionKind, duration: Option<Duration>) -> nat {
    match duration {
        Some(d) => d@,
        None => spec_default_minutes(kind) * 60 * (NANOS_PER_SEC as nat),
    }
}

/// The state after pausing a timer in state `t` at `now`: a paused timer stays as it is.
pub open spec fn spec_pause(t: TimerView, now: nat) -> TimerView {
    match t.paused_at {
        Some(_) => t,
        None => TimerView { paused_at: Some(now), ..t },
    }
}

/// The state after resuming a timer in state `t` at `now`: the pause that ends
/// is added to the sum of pauses; a running timer stays as it is.
pub open spec fn spec_resume(t: TimerView, now: nat) -> TimerView {
    match t.paused_at {
        Some(p) => TimerView { paused_total: t.paused_total + sat_sub(now, p), paused_at: None, ..t },
        None => t,
    }
}

/// The state after toggling the pause of a timer in state `t` at `now`.
pub open spec fn spec_toggle(t: TimerView, now: nat) -> TimerView {
    if t.paused_at is Some {
        spec_resume(t, now)
    } else {
        spec_pause(t, now)
    }
}

/// Whether resuming a timer in state `t` at `now` keeps the sum of its pauses
/// within what a `Duration` holds.
pub open spec fn resume_fits(t: TimerView, now: nat) -> bool {
    match t.paused_at {
        Some(p) => t.paused_total + sat_sub(now, p) <= MAX_NANOS,
        None => true,
    }
}

/// The core state tracking mechanism for a countdown timer.
///
/// Manages pause/resume logic and the calculation of remaining time
/// and progress percentage regardless of the current system clock jitter.
#[derive(Debug, Clone, Copy)]
pub struct ActiveTimer {
    kind: SessionKind,
    total_duration: Duration,
    started_at: Instant,
    paused_total: Duration,
    paused_at: Option<Instant>,
}

impl View for ActiveTimer {
    type V = TimerView;

    closed spec fn view(&self) -> TimerView {
        TimerView {
            kind: self.kind,
            total: self.total_duration@,
            started_at: self.started_at@,
            paused_total: self.paused_total@,
            paused_at: match self.paused_at {
                Some(p) => Some(p@),
                None => None,
            },
        }
    }
}

/// Whether every span and point of the timer state `t` is one that a
/// `Duration` or an `Instant` holds.
pub open spec fn view_fits(t: TimerView) -> bool {
    &&& t.total <= MAX_NANOS
    &&& t.started_at <= MAX_NANOS
    &&& t.paused_total <= MAX_NANOS
    &&& t.paused_at matches Some(p) ==> p <= MAX_NANOS
}

impl ActiveTimer {
    /// Whether the timer's state is one that its fields hold: every `ActiveTimer` is.
    #[verifier::type_invariant]
    pub closed spec fn well_formed(self) -> bool {
        view_fits(self@)
    }

    /// The spans and points of a timer's state are ones that a `Duration` or an
    /// `Instant` holds; in particular the sum of its pauses fits a `Duration`.
    pub proof fn lemma_view_fits(self)
        requires
            self.well_formed(),
        ensures
            view_fits(self@),
    {
    }

    /// Creates a new `ActiveTimer` instance.
    ///
    /// # Arguments
    /// * `kind` - The type of session (Focus/Break).
    /// * `duration` - Optional explicit duration override.
    /// * `started_at` - The absolute start timestamp.
    pub fn new(kind: SessionKind, duration: Option<Duration>, started_at: Instant) -> (t: Self)
        ensures
            t@.kind == kind,
            t@.total == spec_initial_total(kind, duration),
            t@.started_at == started_at@,
            t@.paused_total == 0,
            t@.paused_at is None,
    {
        let total_duration = match duration {
            Some(d) => d,
            None => Duration::from_secs(kind.default_minutes() * 60),
        };
        proof {
            use_type_invariant(&total_duration);
            use_type_invariant(&started_at);
            total_duration.lemma_bounded();
            started_at.lemma_bounded();
        }

        ActiveTimer {
            kind,
            total_duration,
            started_at,
            paused_total: Duration::zero(),
            paused_at: None,
        }
    }

    /// Returns the kind of the current session.
    pub fn kind(&self) -> (k: SessionKind)
        ensures
            k == self@.kind,
    {
        self.kind
    }

    /// Returns the total configured duration for this timer.
    pub fn total_duration(&self) -> (d: Duration)
        ensures
            d@ == self@.total,
    {
        self.total_duration
    }

    /// Returns true if the timer is currently in a paused state.
    pub fn is_paused(&self) -> (b: bool)
        ensures
            b <==> self@.paused_at is Some,
    {
        self.paused_at.is_some()
    }

    /// Transitions the timer into a paused state.
    pub fn pause(&mut self, now: Instant)
        ensures
            final(self)@ == spec_pause(old(self)@, now@),
    {
        proof {
            use_type_invariant(&*self);
            use_type_invariant(&now);
            now.lemma_bounded();
        }
        if self.paused_at.is_none() {
            self.paused_at = Some(now);
        }
    }

    /// Transitions the timer out of a paused state and accumulates the elapsed pause time.
    pub fn resume(&mut self, now: Instant)
        requires
            resume_fits(old(self)@, now@),
        ensures
            final(self)@ == spec_resume(old(self)@, now@),
    {
        proof {
            use_type_invariant(&*self);
        }
        if let Some(paused_at) = self.paused_at {
            let gap = now.saturating_duration_since(paused_at);
            match self.paused_total.checked_add(gap) {
                Some(sum) => {
                    self.paused_total = sum;
                },
                None => {},
            }
            self.paused_at = None;
        }
    }

    /// Whether resuming the timer at `now` keeps the sum of its pauses within
    /// what a `Duration` holds (always so for a running timer).
    pub fn can_resume_at(&self, now: Instant) -> (b: bool)
        ensures
            b == resume_fits(self@, now@),
    {
        match self.paused_at {
            Some(p) => self.paused_total.checked_add(now.saturating_duration_since(p)).is_some(),
            None => true,
        }
    }

    /// Toggles the pause state of the timer.
    pub fn toggle_pause(&mut self, now: Instant)
        requires
            resume_fits(old(self)@, now@),
        ensures
            final(self)@ == spec_toggle(old(self)@, now@),
    {
        if self.is_paused() {
            self.resume(now);
        } else {
            self.pause(now);
        }
    }

    /// Calculates the total active (unpaused) time elapsed since start.
    pub fn elapsed_at(&self, now: Instant) -> (d: Duration)
        ensures
            d@ == spec_elapsed(self@, now@),
    {
        let effective_now = match self.paused_at {
            Some(p) => p,
            None => now,
        };
        effective_now.saturating_duration_since(self.started_at).saturating_sub(self.paused_total)
    }

    /// Calculates the amount of time remaining until the timer reaches zero.
    pub fn remaining_at(&self, now: Instant) -> (d: Duration)
        ensures
            d@ == spec_remaining(self@, now@),
    {
        self.total_duration.saturating_sub(self.elapsed_at(now))
    }
}

/// While a timer is paused, its elapsed time does not depend on when it is read.
pub proof fn law_pause_freezes_elapsed(t: TimerView, a: nat, b: nat)
    requires
        t.paused_at is Some,
    ensures
        spec_elapsed(t, a) == spec_elapsed(t, b),
{
}

/// A running timer paused at `p` and resumed at `r` counts, at any later `now`,
/// the time it had counted at `p` plus the time since `r`: the pause is not counted.
/// (Stated where the timer had not counted less than its earlier pauses at `p`.)
pub proof fn law_pause_resume_skips_the_pause(t: TimerView, p: nat, r: nat, now: nat)
    requires
        t.paused_at is None,
        t.started_at + t.paused_total <= p,
        p <= r,
        r <= now,
    ensures
        spec_elapsed(spec_resume(spec_pause(t, p), r), now) == spec_elapsed(t, p) + (now - r),
{
}

/// Pausing a running timer and resuming it at the same instant changes nothing.
pub proof fn law_pause_resume_same_instant(t: TimerView, now: nat)
    requires
        t.paused_at is None,
    ensures
        spec_resume(spec_pause(t, now), now) == t,
{
}

/// Toggling the pause twice at the same instant gives back a running timer unchanged.
pub proof fn law_toggle_twice_same_instant(t: TimerView, now: nat)
    requires
        t.paused_at is None,
    ensures
        spec_toggle(spec_toggle(t, now), now) == t,
{
}

/// Remaining and elapsed time add up to the session length until it runs out;
/// after that the remaining time stays at zero.
pub proof fn law_remaining_complements_elapsed(t: TimerView, now: nat)
    ensures
        spec_elapsed(t, now) <= t.total ==> spec_remaining(t, now) + spec_elapsed(t, now) == t.total,
        spec_elapsed(t, now) >= t.total ==> spec_remaining(t, now) == 0,
        spec_remaining(t, now) <= t.total,
{
}

/// While a timer runs, later readings never show less elapsed or more remaining time.
pub proof fn law_running_time_is_monotone(t: TimerView, a: nat, b: nat)
    requires
        t.paused_at is None,
        a <= b,
    ensures
        spec_elapsed(t, a) <= spec_elapsed(t, b),
        spec_remaining(t, a) >= spec_remaining(t, b),
{
}

/// A timer never counts more active time than has passed on the clock since it started.
pub proof fn law_elapsed_within_clock_time(t: TimerView, now: nat)
    ensures
        spec_elapsed(t, now) <= sat_sub(
            match t.paused_at {
                Some(p) => p,
                None => now,
            },
            t.started_at,
        ),
        t.paused_at is None ==> spec_elapsed(t, now) <= sat_sub(now, t.started_at),
{
}

/// A call that changes a timer's pause state, with the instant it is made at.
pub enum TimerCall {
    Pause(nat),
    Resume(nat),
    Toggle(nat),
}

/// The instant at which the call `c` is made.
pub open spec fn call_instant(c: TimerCall) -> nat {
    match c {
        TimerCall::Pause(n) => n,
        TimerCall::Resume(n) => n,
        TimerCall::Toggle(n) => n,
    }
}

/// The state after the call `c` on a timer in state `t`.
pub open spec fn apply_call(t: TimerView, c: TimerCall) -> TimerView {
    match c {
        TimerCall::Pause(n) => spec_pause(t, n),
        TimerCall::Resume(n) => spec_resume(t, n),
        TimerCall::Toggle(n) => spec_toggle(t, n),
    }
}

/// The state after the calls `calls`, in order, on a timer in state `t`.
pub open spec fn apply_calls(t: TimerView, calls: Seq<TimerCall>) -> TimerView
    decreases calls.len(),
{
    if calls.len() == 0 {
        t
    } else {
        apply_call(apply_calls(t, calls.drop_last()), calls.last())
    }
}

/// Whether a timer is paused after `calls`, where `paused` says whether it was
/// before them: a pause pauses it, a resume lets it run, a toggle flips it.
pub open spec fn paused_after(paused: bool, calls: Seq<TimerCall>) -> bool
    decreases calls.len(),
{
    if calls.len() == 0 {
        paused
    } else {
        match calls.last() {
            TimerCall::Pause(_) => true,
            TimerCall::Resume(_) => false,
            TimerCall::Toggle(_) => !paused_after(paused, calls.drop_last()),
        }
    }
}

/// Whether the calls are made in order of time, none before `start`.
pub open spec fn calls_in_order(start: nat, calls: Seq<TimerCall>) -> bool {
    &&& forall|i: int| 0 <= i < calls.len() ==> start <= call_instant(#[trigger] calls[i])
    &&& forall|i: int, j: int|
        0 <= i <= j < calls.len() ==> call_instant(#[trigger] calls[i]) <= call_instant(
            #[trigger] calls[j],
        )
}

/// The instant of the last of `calls`, `start` where there is none.
pub open spec fn last_instant(start: nat, calls: Seq<TimerCall>) -> nat {
    if calls.len() == 0 {
        start
    } else {
        call_instant(calls.last())
    }
}

/// Whether the pauses of a timer in state `t` fit in the time that has passed
/// on the clock up to `now`: the start and the sum of pauses come no later than
/// the current pause, if any, which comes no later than `now`.
pub open spec fn pauses_within(t: TimerView, now: nat) -> bool {
    match t.paused_at {
        Some(p) => t.started_at + t.paused_total <= p <= now,
        None => t.started_at + t.paused_total <= now,
    }
}

/// Pausing, resuming and toggling never change a timer's kind, length or start,
/// whatever calls are made.
pub proof fn law_calls_keep_kind_and_length(t: TimerView, calls: Seq<TimerCall>)
    ensures
        apply_calls(t, calls).kind == t.kind,
        apply_calls(t, calls).total == t.total,
        apply_calls(t, calls).started_at == t.started_at,
    decreases calls.len(),
{
    if calls.len() > 0 {
        law_calls_keep_kind_and_length(t, calls.drop_last());
    }
}

/// Over any calls, a timer is paused exactly as `paused_after` says: a new timer
/// runs, a pause pauses it, a resume lets it run and a toggle flips it; so,
/// without toggles, it is paused exactly where the last call was a pause.
pub proof fn law_pause_flag_follows_calls(t: TimerView, calls: Seq<TimerCall>)
    ensures
        (apply_calls(t, calls).paused_at is Some) == paused_after(t.paused_at is Some, calls),
    decreases calls.len(),
{
    if calls.len() > 0 {
        law_pause_flag_follows_calls(t, calls.drop_last());
    }
}

/// For a timer that starts running with no pauses, calls made in order of time
/// keep its pauses within the time that has passed on the clock up to the last call.
pub proof fn law_calls_keep_pauses_within_clock(t: TimerView, calls: Seq<TimerCall>)
    requires
        t.paused_at is None,
        t.paused_total == 0,
        calls_in_order(t.started_at, calls),
    ensures
        pauses_within(apply_calls(t, calls), last_instant(t.started_at, calls)),
    decreases calls.len(),
{
    if calls.len() > 0 {
        let prev = calls.drop_last();
        assert(calls_in_order(t.started_at, prev)) by {
            assert forall|i: int| 0 <= i < prev.len() implies t.started_at <= call_instant(
                #[trigger] prev[i],
            ) by {
                assert(prev[i] == calls[i]);
            }
            assert forall|i: int, j: int| 0 <= i <= j < prev.len() implies call_instant(
                #[trigger] prev[i],
            ) <= call_instant(#[trigger] prev[j]) by {
                assert(prev[i] == calls[i]);
                assert(prev[j] == calls[j]);
            }
        }
        law_calls_keep_pauses_within_clock(t, prev);
        let n = call_instant(calls.last());
        assert(last_instant(t.started_at, prev) <= n) by {
            if prev.len() > 0 {
                assert(prev.last() == calls[prev.len() - 1]);
                assert(call_instant(calls[prev.len() - 1]) <= call_instant(calls[calls.len() - 1]));
            } else {
                assert(t.started_at <= call_instant(calls[calls.len() - 1]));
            }
        }
        law_calls_keep_kind_and_length(t, prev);
    }
}

/// Resuming a paused timer whose pauses fit in the clock time up to `now`: it runs
/// again, and from `now` on it counts the time it had counted when the pause
/// began plus the time since `now`, so the paused interval is not counted; its
/// kind and length stay.
pub proof fn law_resume_skips_the_pause(t: TimerView, now: nat, later: nat)
    requires
        t.paused_at is Some,
        pauses_within(t, now),
        now <= later,
    ensures
        spec_resume(t, now).paused_at is None,
        spec_elapsed(spec_resume(t, now), later) == spec_elapsed(t, now) + (later - now),
        spec_resume(t, now).kind == t.kind,
        spec_resume(t, now).total == t.total,
{
}

/// Resuming a timer that runs changes nothing.
pub proof fn law_resume_running_changes_nothing(t: TimerView, now: nat)
    requires
        t.paused_at is None,
    ensures
        spec_resume(t, now) == t,
{
}

/// Toggling flips whether a timer is paused: it resumes a paused timer and
/// pauses a running one.
pub proof fn law_toggle_flips(t: TimerView, now: nat)
    ensures
        (spec_toggle(t, now).paused_at is Some) == !(t.paused_at is Some),
        t.paused_at is Some ==> spec_toggle(t, now) == spec_resume(t, now),
        t.paused_at is None ==> spec_toggle(t, now) == spec_pause(t, now),
{
}

} // verus!
