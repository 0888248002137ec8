//! Wall-clock timestamps as plain values.
//!
//! The index stores, for every document, the moment it was last indexed.
//! The clock itself is an outside collaborator: callers read the time and
//! hand it in as seconds and nanoseconds since the Unix epoch.

use vstd::prelude::*;

verus! {

/// A point in time: seconds and nanoseconds since the Unix epoch.
///
/// `nanos` counts the fraction of the current second, so it is always
/// below one billion; [`Timestamp::wf`] records that.
#[derive(Clone, Copy, PartialEq, Eq, Structural, Debug)]
pub struct Timestamp {
    pub secs: u64,
    pub nanos: u32,
}

/// Nanoseconds in one second; the exclusive bound on `Timestamp::nanos`.
pub const NANOS_PER_SEC: u32 = 1_000_000_000;

impl Timestamp {
    /// A well-formed timestamp keeps its nanosecond part below one second.
    pub open spec fn wf(self) -> bool {
        self.nanos < NANOS_PER_SEC
    }

    /// The timestamp as a single number of nanoseconds, for ordering.
    pub open spec fn as_nanos(self) -> int {
        self.secs * (NANOS_PER_SEC as int) + self.nanos
    }

    /// The Unix epoch itself: the `indexed_at` value of a document that has
    /// never been indexed.
    pub fn epoch() -> (r: Timestamp)
        ensures
            r == (Timestamp { secs: 0u64, nanos: 0u32 }),
    {
        Timestamp { secs: 0, nanos: 0 }
    }

    /// True when `self` is strictly before `other` on the time line.
    pub fn lt(&self, other: &Timestamp) -> (r: bool)
        requires
            self.wf(),
            other.wf(),
        ensures
            r == (self.as_nanos() < other.as_nanos()),
    {
        proof {
            lemma_nanos_order(*self, *other);
        }
        self.secs < other.secs || (self.secs == other.secs && self.nanos < other.nanos)
    }
}

/// Ordering timestamps by `(secs, nanos)` lexicographically agrees with
/// ordering them by their total nanosecond count.
proof fn lemma_nanos_order(a: Timestamp, b: Timestamp)
    requires
        a.wf(),
        b.wf(),
    ensures
        (a.as_nanos() < b.as_nanos()) == (a.secs < b.secs || (a.secs == b.secs
            && a.nanos < b.nanos)),
{
    if a.secs < b.secs {
        assert(a.secs * (NANOS_PER_SEC as int) + NANOS_PER_SEC <= b.secs * (
        NANOS_PER_SEC as int)) by (nonlinear_arith)
            requires
                a.secs < b.secs,
        ;
    } else if b.secs < a.secs {
        assert(b.secs * (NANOS_PER_SEC as int) + NANOS_PER_SEC <= a.secs * (
        NANOS_PER_SEC as int)) by (nonlinear_arith)
            requires
                b.secs < a.secs,
        ;
    }
}

} // verus!
