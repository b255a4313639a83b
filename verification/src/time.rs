//! Time values and spans.
//!
//! Timing is kept as an exact count of nanoseconds so that durations
//! accumulated by the track combinators and the clip offsets
//! accumulated when delaying a sequence can never disagree.

use vstd::prelude::*;

verus! {

/// Nanoseconds in one second.
pub const NANOS_PER_SEC: u128 = 1_000_000_000;

/// The largest representable duration in nanoseconds:
/// `u64::MAX` seconds plus `999_999_999` nanoseconds.
pub const MAX_NANOS: u128 = 18_446_744_073_709_551_615_999_999_999;

/// The largest representable duration, as a number.
pub open spec fn max_nanos() -> nat {
    MAX_NANOS as nat
}

/// The saturating sum of two durations, in nanoseconds.
pub open spec fn sat_add(a: nat, b: nat) -> nat {
    if a + b <= max_nanos() { a + b } else { max_nanos() }
}

/// The saturating difference of two durations, in nanoseconds.
pub open spec fn sat_sub(a: nat, b: nat) -> nat {
    if a >= b { (a - b) as nat } else { 0 }
}

pub open spec fn nat_min(a: nat, b: nat) -> nat {
    if a <= b { a } else { b }
}

pub open spec fn nat_max(a: nat, b: nat) -> nat {
    if a >= b { a } else { b }
}

/// A span of time with nanosecond precision, ranging from zero to
/// `u64::MAX` seconds plus `999_999_999` nanoseconds.
///
/// Its view is the number of nanoseconds it spans.
#[derive(Clone, Copy, Debug, PartialEq, Eq, PartialOrd, Ord, Hash, Default)]
pub struct Duration {
    nanos: u128,
}

impl View for Duration {
    type V = nat;

    closed spec fn view(&self) -> nat {
        self.nanos as nat
    }
}

impl Duration {
    /// The duration spanning `nanos` nanoseconds, for `nanos` in range.
    pub closed spec fn spec_from_nanos(nanos: nat) -> Duration {
        Duration { nanos: nanos as u128 }
    }

    /// A duration is the one built from its own count of nanoseconds.
    pub proof fn lemma_from_nanos(d: Duration)
        ensures
            d == Duration::spec_from_nanos(d@),
    {
    }

    /// Building from a count in range keeps the count.
    pub proof fn lemma_from_nanos_view(nanos: nat)
        requires
            nanos <= max_nanos(),
        ensures
            Duration::spec_from_nanos(nanos)@ == nanos,
    {
    }

    #[verifier::type_invariant]
    closed spec fn inv(self) -> bool {
        self.nanos <= MAX_NANOS
    }

    /// The empty duration.
    pub fn zero() -> (r: Duration)
        ensures
            r@ == 0,
    {
        Duration { nanos: 0 }
    }

    /// The largest representable duration.
    pub fn max_value() -> (r: Duration)
        ensures
            r@ == max_nanos(),
    {
        Duration { nanos: MAX_NANOS }
    }

    /// Every duration is at most [`Self::max_value`].
    pub fn bounded(&self)
        ensures
            self@ <= max_nanos(),
    {
        proof {
            use_type_invariant(self);
        }
    }

    /// A duration of whole seconds.
    pub fn from_secs(secs: u64) -> (r: Duration)
        ensures
            r@ == secs * NANOS_PER_SEC,
    {
        assert(secs * NANOS_PER_SEC <= MAX_NANOS) by (nonlinear_arith)
            requires secs <= u64::MAX;
        Duration { nanos: secs as u128 * NANOS_PER_SEC }
    }

    /// A duration of whole milliseconds.
    pub fn from_millis(millis: u64) -> (r: Duration)
        ensures
            r@ == millis * 1_000_000,
    {
        assert(millis * 1_000_000 <= MAX_NANOS) by (nonlinear_arith)
            requires millis <= u64::MAX;
        Duration { nanos: millis as u128 * 1_000_000 }
    }

    /// A duration of whole nanoseconds.
    pub fn from_nanos(nanos: u64) -> (r: Duration)
        ensures
            r@ == nanos,
    {
        Duration { nanos: nanos as u128 }
    }

    /// The whole number of nanoseconds spanned.
    pub fn as_nanos(&self) -> (r: u128)
        ensures
            r == self@,
    {
        self.nanos
    }

    /// The whole number of seconds spanned.
    pub fn as_secs(&self) -> (r: u64)
        ensures
            r == self@ / (NANOS_PER_SEC as nat),
    {
        proof {
            use_type_invariant(self);
        }
        assert(self.nanos / NANOS_PER_SEC <= u64::MAX) by (nonlinear_arith)
            requires self.nanos <= MAX_NANOS;
        (self.nanos / NANOS_PER_SEC) as u64
    }

    /// The fractional part, in whole nanoseconds.
    pub fn subsec_nanos(&self) -> (r: u32)
        ensures
            r == self@ % (NANOS_PER_SEC as nat),
    {
        (self.nanos % NANOS_PER_SEC) as u32
    }

    /// `self + other`, saturating at [`Self::max_value`].
    pub fn saturating_add(self, other: Duration) -> (r: Duration)
        ensures
            r@ == sat_add(self@, other@),
    {
        proof {
            use_type_invariant(&self);
            use_type_invariant(&other);
        }
        if self.nanos <= MAX_NANOS - other.nanos {
            Duration { nanos: self.nanos + other.nanos }
        } else {
            Duration { nanos: MAX_NANOS }
        }
    }

    /// `self - other`, saturating at zero.
    pub fn saturating_sub(self, other: Duration) -> (r: Duration)
        ensures
            r@ == sat_sub(self@, other@),
    {
        proof {
            use_type_invariant(&self);
        }
        if self.nanos >= other.nanos {
            Duration { nanos: self.nanos - other.nanos }
        } else {
            Duration { nanos: 0 }
        }
    }

    /// The distance between two durations.
    pub fn abs_diff(self, other: Duration) -> (r: Duration)
        ensures
            r@ == if self@ >= other@ { self@ - other@ } else { other@ - self@ },
    {
        proof {
            use_type_invariant(&self);
            use_type_invariant(&other);
        }
        if self.nanos >= other.nanos {
            Duration { nanos: self.nanos - other.nanos }
        } else {
            Duration { nanos: other.nanos - self.nanos }
        }
    }

    /// The smaller of two durations.
    pub fn min(self, other: Duration) -> (r: Duration)
        ensures
            r@ == nat_min(self@, other@),
            r == self || r == other,
    {
        if self.nanos <= other.nanos { self } else { other }
    }

    /// The larger of two durations.
    pub fn max(self, other: Duration) -> (r: Duration)
        ensures
            r@ == nat_max(self@, other@),
            r == self || r == other,
    {
        if self.nanos >= other.nanos { self } else { other }
    }

    /// `self / divisor`, truncated to whole nanoseconds.
    pub fn div_u32(self, divisor: u32) -> (r: Duration)
        requires
            divisor != 0,
        ensures
            r@ == self@ / (divisor as nat),
    {
        proof {
            use_type_invariant(&self);
        }
        assert(self.nanos / (divisor as u128) <= self.nanos) by (nonlinear_arith)
            requires divisor != 0;
        Duration { nanos: self.nanos / (divisor as u128) }
    }

    /// `self < other`.
    pub fn lt(&self, other: &Duration) -> (r: bool)
        ensures
            r == (self@ < other@),
    {
        self.nanos < other.nanos
    }

    /// `self <= other`.
    pub fn le(&self, other: &Duration) -> (r: bool)
        ensures
            r == (self@ <= other@),
    {
        self.nanos <= other.nanos
    }

    /// `self == other`, by the time spanned.
    pub fn same(&self, other: &Duration) -> (r: bool)
        ensures
            r == (self@ == other@),
    {
        self.nanos == other.nanos
    }

    /// Two durations that span the same time are the same value.
    pub proof fn lemma_view_injective(a: Duration, b: Duration)
        requires
            a@ == b@,
        ensures
            a == b,
    {
    }
}

/// Whole seconds as a [`Duration`].
pub fn s(secs: u64) -> (r: Duration)
    ensures
        r@ == secs * NANOS_PER_SEC,
{
    Duration::from_secs(secs)
}

/// Whole centiseconds (hundredths of a second) as a [`Duration`].
///
/// The count of milliseconds saturates at `u64::MAX`.
pub fn cs(centis: u64) -> (r: Duration)
    ensures
        r@ == (if centis * 10 <= u64::MAX { centis * 10 } else { u64::MAX as int }) * 1_000_000,
{
    let millis: u64 = if centis <= u64::MAX / 10 { centis * 10 } else { u64::MAX };
    Duration::from_millis(millis)
}

/// Whole milliseconds as a [`Duration`].
pub fn ms(millis: u64) -> (r: Duration)
    ensures
        r@ == millis * 1_000_000,
{
    Duration::from_millis(millis)
}

/// Whole nanoseconds as a [`Duration`].
pub fn ns(nanos: u64) -> (r: Duration)
    ensures
        r@ == nanos,
{
    Duration::from_nanos(nanos)
}

/// A half-open time span `[start, end)`.
#[derive(Default, Debug, PartialEq, Eq, Clone, Copy)]
pub struct Range {
    pub start: Duration,
    pub end: Duration,
}

impl Range {
    /// True when the two spans share any point, a boundary-only touch
    /// included.
    pub open spec fn spec_overlap(self, other: Range) -> bool {
        self.start@ <= other.end@ && other.start@ <= self.end@
    }

    /// True when the two [`Range`]s share any point, including a
    /// boundary-only touch.
    pub fn overlap(&self, other: &Self) -> (r: bool)
        ensures
            r == self.spec_overlap(*other),
    {
        self.start.le(&other.end) && other.start.le(&self.end)
    }

    /// The bounds of the span both share: the later start and the
    /// earlier end.
    pub open spec fn spec_intersect_bounds(self, other: Range) -> (nat, nat) {
        (nat_max(self.start@, other.start@), nat_min(self.end@, other.end@))
    }

    /// The two spans share a span of positive length.
    pub open spec fn spec_intersects(self, other: Range) -> bool {
        self.spec_intersect_bounds(other).0 < self.spec_intersect_bounds(other).1
    }

    /// The span shared by both [`Range`]s, or `None` when they share
    /// no span of positive length. A boundary-only touch is `None`.
    pub fn intersect(&self, other: &Self) -> (r: Option<Self>)
        ensures
            r is Some == self.spec_intersects(*other),
            r matches Some(i) ==> (i.start@, i.end@) == self.spec_intersect_bounds(*other),
    {
        let start = self.start.max(other.start);
        let end = self.end.min(other.end);
        if start.lt(&end) {
            Some(Range { start, end })
        } else {
            None
        }
    }
}

/// Overlap does not depend on the order of the two spans.
pub proof fn lemma_overlap_symmetric(a: Range, b: Range)
    ensures
        a.spec_overlap(b) == b.spec_overlap(a),
{
}

/// The shared span does not depend on the order of the two spans.
pub proof fn lemma_intersect_symmetric(a: Range, b: Range)
    ensures
        a.spec_intersects(b) == b.spec_intersects(a),
        a.spec_intersect_bounds(b) == b.spec_intersect_bounds(a),
{
}

/// Spans that share a span of positive length overlap.
pub proof fn lemma_intersect_implies_overlap(a: Range, b: Range)
    requires
        a.spec_intersects(b),
    ensures
        a.spec_overlap(b),
{
}

/// A span that ends where the next begins overlaps it, at the boundary
/// only, and shares no span with it.
pub proof fn lemma_touch_overlaps_without_intersecting(a: Range, b: Range)
    requires
        a.start@ <= a.end@,
        b.start@ <= b.end@,
        a.end@ == b.start@,
    ensures
        a.spec_overlap(b),
        !a.spec_intersects(b),
{
}

} // verus!
