//! Spans of time and points in time, as plain integers of nanoseconds.
//!
//! `Duration` holds the same range of values as `std::time::Duration`
//! (whole seconds that fit a `u64`, plus a sub-second part), and `Instant`
//! is a point on a monotone axis measured from an arbitrary origin.
use vstd::prelude::*;
use vstd::std_specs::ops::AddSpec;

verus! {

/// Nanoseconds in one second.
pub const NANOS_PER_SEC: u128 = 1_000_000_000;

/// The largest number of nanoseconds a `Duration` can hold:
/// `u64::MAX` seconds plus 999_999_999 nanoseconds.
pub const MAX_NANOS: u128 = 18_446_744_073_709_551_615_999_999_999;

/// A span of time, in nanoseconds.
#[derive(Debug, Clone, Copy, PartialEq, Eq, Structural)]
pub struct Duration {
    nanos: u128,
}

impl View for Duration {
    type V = nat;

    /// The span in nanoseconds.
    closed spec fn view(&self) -> nat {
        self.nanos as nat
    }
}

impl Duration {
    /// Whether the span is one that a `Duration` holds: every `Duration` is.
    #[verifier::type_invariant]
    pub closed spec fn well_formed(self) -> bool {
        self.nanos <= MAX_NANOS
    }

    /// A span that a `Duration` holds is at most `MAX_NANOS` long.
    pub proof fn lemma_bounded(self)
        requires
            self.well_formed(),
        ensures
            self@ <= MAX_NANOS,
    {
    }

    /// The empty span.
    pub fn zero() -> (d: Duration)
        ensures
            d@ == 0,
    {
        Duration { nanos: 0 }
    }

    /// A span of `secs` whole seconds.
    pub fn from_secs(secs: u64) -> (d: Duration)
        ensures
            d@ == secs * NANOS_PER_SEC,
    {
        assert(secs * NANOS_PER_SEC <= MAX_NANOS) by (nonlinear_arith)
            requires
                secs <= u64::MAX,
        ;
        Duration { nanos: (secs as u128) * NANOS_PER_SEC }
    }

    /// A span of `millis` milliseconds.
    pub fn from_millis(millis: u64) -> (d: Duration)
        ensures
            d@ == millis * 1_000_000,
    {
        assert(millis * 1_000_000 <= MAX_NANOS) by (nonlinear_arith)
            requires
                millis <= u64::MAX,
        ;
        Duration { nanos: (millis as u128) * 1_000_000 }
    }

    /// A span of `nanos` nanoseconds, less than one second.
    pub fn from_nanos_below_second(nanos: u32) -> (d: Duration)
        ensures
            d@ == (if nanos < NANOS_PER_SEC {
                nanos as nat
            } else {
                0
            }),
    {
        if (nanos as u128) < NANOS_PER_SEC {
            Duration { nanos: nanos as u128 }
        } else {
            Duration { nanos: 0 }
        }
    }

    /// The span in nanoseconds, as a machine integer.
    pub fn as_nanos(&self) -> (n: u128)
        ensures
            n == self@,
            n <= MAX_NANOS,
    {
        proof {
            use_type_invariant(self);
        }
        self.nanos
    }

    /// The whole seconds of the span.
    pub fn as_secs(&self) -> (s: u64)
        ensures
            s == self@ / (NANOS_PER_SEC as nat),
    {
        proof {
            use_type_invariant(self);
        }
        (self.nanos / NANOS_PER_SEC) as u64
    }

    /// The part of the span below one second, in nanoseconds.
    pub fn subsec_nanos(&self) -> (n: u32)
        ensures
            n == self@ % (NANOS_PER_SEC as nat),
    {
        (self.nanos % NANOS_PER_SEC) as u32
    }

    /// Whether the span is empty.
    pub fn is_zero(&self) -> (b: bool)
        ensures
            b <==> self@ == 0,
    {
        self.nanos == 0
    }

    /// `self - other`, or the empty span where `other` is the longer one.
    pub fn saturating_sub(self, other: Duration) -> (d: Duration)
        ensures
            d@ == (if self@ >= other@ {
                self@ - other@
            } else {
                0
            }),
    {
        if self.nanos >= other.nanos {
            proof {
                use_type_invariant(&self);
            }
            Duration { nanos: self.nanos - other.nanos }
        } else {
            Duration { nanos: 0 }
        }
    }

    /// `self + other`, or `None` where the sum is longer than a `Duration` holds.
    pub fn checked_add(self, other: Duration) -> (d: Option<Duration>)
        ensures
            d matches Some(v) ==> v@ == self@ + other@,
            d is None <==> self@ + other@ > MAX_NANOS,
    {
        proof {
            use_type_invariant(&self);
            use_type_invariant(&other);
        }
        let sum = self.nanos + other.nanos;
        if sum <= MAX_NANOS {
            Some(Duration { nanos: sum })
        } else {
            None
        }
    }
}

/// A point in time, measured from an origin that stays fixed while a program runs.
#[derive(Debug, Clone, Copy, PartialEq, Eq, Structural)]
pub struct Instant {
    since_origin: Duration,
}

impl View for Instant {
    type V = nat;

    /// Nanoseconds from the origin to this point.
    closed spec fn view(&self) -> nat {
        self.since_origin@
    }
}

impl Instant {
    /// Whether the point is one that an `Instant` holds: every `Instant` is.
    #[verifier::type_invariant]
    pub closed spec fn well_formed(self) -> bool {
        self.since_origin@ <= MAX_NANOS
    }

    /// A point that an `Instant` holds lies at most `MAX_NANOS` after the origin.
    pub proof fn lemma_bounded(self)
        requires
            self.well_formed(),
        ensures
            self@ <= MAX_NANOS,
    {
    }

    /// The point that lies `since_origin` after the origin.
    pub fn from_origin(since_origin: Duration) -> (t: Instant)
        ensures
            t@ == since_origin@,
    {
        proof {
            use_type_invariant(&since_origin);
        }
        Instant { since_origin }
    }

    /// The span from the origin to this point.
    pub fn since_origin(&self) -> (d: Duration)
        ensures
            d@ == self@,
    {
        self.since_origin
    }

    /// The span from `earlier` to `self`, or the empty span where `earlier` lies after `self`.
    pub fn saturating_duration_since(&self, earlier: Instant) -> (d: Duration)
        ensures
            d@ == (if self@ >= earlier@ {
                self@ - earlier@
            } else {
                0
            }),
    {
        self.since_origin.saturating_sub(earlier.since_origin)
    }

    /// The point `d` after `self`, or `None` where it lies beyond what an `Instant` holds.
    pub fn checked_add(&self, d: Duration) -> (t: Option<Instant>)
        ensures
            t matches Some(v) ==> v@ == self@ + d@,
            t is None <==> self@ + d@ > MAX_NANOS,
    {
        match self.since_origin.checked_add(d) {
            Some(s) => Some(Instant { since_origin: s }),
            None => None,
        }
    }
}

#[verifier::external_type_specification]
#[verifier::external_body]
pub struct ExStdInstant(std::time::Instant);

/// Reads the monotonic clock with `std::time::Instant::now`. Nothing is stated
/// of the reading: it depends on the machine and the moment.
#[verifier::external_body]
fn monotonic_now() -> std::time::Instant {
    std::time::Instant::now()
}

/// `start.elapsed()` as whole seconds and nanoseconds below one second. The
/// contract states only that the nanoseconds are below one second, as
/// `std::time::Duration::subsec_nanos` documents; the span itself depends on
/// the moment of the call.
#[verifier::external_body]
fn elapsed_since(start: &std::time::Instant) -> (r: (u64, u32))
    ensures
        r.1 < NANOS_PER_SEC,
{
    let d = start.elapsed();
    (d.as_secs(), d.subsec_nanos())
}

/// A monotonic clock, whose origin is the moment it was started: the points in
/// time it reads never go backwards while a program runs.
pub struct Clock {
    start: std::time::Instant,
}

impl Clock {
    /// A clock whose origin is now.
    pub fn start() -> (c: Clock) {
        Clock { start: monotonic_now() }
    }

    /// The current point in time: the span since the clock was started, read
    /// from the monotonic clock. Of the reading nothing is stated beyond what
    /// every `Instant` holds.
    pub fn now(&self) -> (t: Instant)
        ensures
            t@ <= MAX_NANOS,
    {
        let (secs, subsec) = elapsed_since(&self.start);
        let whole = Duration::from_secs(secs);
        let part = Duration::from_nanos_below_second(subsec);
        let since_origin = match whole.checked_add(part) {
            Some(d) => d,
            None => whole,
        };
        Instant::from_origin(since_origin)
    }
}

/// What `t + d` gives, where the sum stays within what an `Instant` holds:
/// the point `d@` nanoseconds after `t`.
pub broadcast proof fn lemma_instant_add(t: Instant, d: Duration)
    requires
        t@ + d@ <= MAX_NANOS,
    ensures
        #[trigger] t.add_spec(d)@ == t@ + d@,
{
}

impl core::ops::Add<Duration> for Instant {
    type Output = Instant;

    /// The point `d` after `self`; the sum must stay within what an `Instant` holds.
    fn add(self, d: Duration) -> (t: Instant) {
        proof {
            use_type_invariant(&self.since_origin);
            use_type_invariant(&d);
        }
        Instant { since_origin: Duration { nanos: self.since_origin.nanos + d.nanos } }
    }
}

impl vstd::std_specs::ops::AddSpecImpl<Duration> for Instant {
    open spec fn obeys_add_spec() -> bool {
        true
    }

    open spec fn add_req(self, d: Duration) -> bool {
        self@ + d@ <= MAX_NANOS
    }

    closed spec fn add_spec(self, d: Duration) -> Instant {
        Instant { since_origin: Duration { nanos: (self.since_origin.nanos + d.nanos) as u128 } }
    }
}

} // verus!
