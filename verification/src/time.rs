//! Points in time and spans of time, as plain nanosecond counts.

use vstd::prelude::*;

verus! {

/// A span of time.
#[derive(Clone, Copy, PartialEq, Eq, Structural, Debug)]
pub struct Duration {
    pub nanos: u128,
}

/// A point in time, as the span since an origin that the caller fixes once.
#[derive(Clone, Copy, PartialEq, Eq, Structural, Debug)]
pub struct Instant {
    pub nanos: u128,
}

impl Duration {
    /// A span of whole seconds.
    pub fn from_secs(secs: u64) -> (r: Self)
        ensures
            r.nanos == secs * 1_000_000_000,
    {
        Duration { nanos: secs as u128 * 1_000_000_000 }
    }
}

impl Instant {
    /// The point that lies `since_origin` after the origin.
    pub fn at(since_origin: Duration) -> (r: Self)
        ensures
            r.nanos == since_origin.nanos,
    {
        Instant { nanos: since_origin.nanos }
    }

    /// The point `span` after `self`, where there is one.
    pub open spec fn after(self, span: Duration) -> Instant {
        Instant { nanos: (self.nanos + span.nanos) as u128 }
    }

    /// Whether a point `span` after `self` exists.
    pub open spec fn reaches(self, span: Duration) -> bool {
        self.nanos + span.nanos <= u128::MAX
    }

    /// Advances by `span`; `None` if the result is not representable.
    pub fn checked_add(self, span: Duration) -> (r: Option<Self>)
        ensures
            r == (if self.reaches(span) {
                Some(self.after(span))
            } else {
                None
            }),
            r matches Some(later) ==> later.nanos == self.nanos + span.nanos,
            r is None <==> self.nanos + span.nanos > u128::MAX,
    {
        match self.nanos.checked_add(span.nanos) {
            Some(nanos) => Some(Instant { nanos }),
            None => None,
        }
    }

    /// Whether this point has been reached at `now`.
    pub fn is_due(self, now: Instant) -> (r: bool)
        ensures
            r == (now.nanos >= self.nanos),
    {
        now.nanos >= self.nanos
    }
}

/// A later point exists if and only if its nanoseconds can be counted, and then
/// the two points lie as far apart as the span says.
pub proof fn later_point_lies_one_span_ahead(start: Instant, span: Duration)
    ensures
        start.reaches(span) <==> start.nanos + span.nanos <= u128::MAX,
        start.reaches(span) ==> start.after(span).nanos - start.nanos == span.nanos,
{
}

} // verus!
