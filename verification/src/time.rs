//! Moments and lengths of time.

use vstd::prelude::*;

verus! {

/// The longest length of time, in nanoseconds: as many whole seconds as
/// fit sixty-four bits, and one nanosecond short of another.
pub const LONGEST: u128 = 18_446_744_073_709_551_615_999_999_999;

/// The latest moment anything is measured at, in nanoseconds.
pub const LATEST: u128 = 0x7FFF_FFFF_FFFF_FFFF_FFFF_FFFF_FFFF_FFFF;

/// A length of time.
#[derive(Clone, Copy, Debug, PartialEq, Eq, PartialOrd, Ord, Hash, Structural)]
pub struct Duration {
    /// How long it is, in nanoseconds.
    pub nanos: u128,
}

impl Duration {
    /// Whether it is within what a length of time may be.
    pub open spec fn wf(self) -> bool {
        self.nanos <= LONGEST
    }

    /// No time at all.
    pub fn zero() -> (r: Self)
        ensures
            r.nanos == 0,
            r.wf(),
    {
        Duration { nanos: 0 }
    }

    /// So many seconds.
    pub fn from_secs(secs: u64) -> (r: Self)
        ensures
            r.nanos == secs * 1_000_000_000,
            r.wf(),
    {
        Duration { nanos: secs as u128 * 1_000_000_000 }
    }

    /// So many milliseconds.
    pub fn from_millis(millis: u64) -> (r: Self)
        ensures
            r.nanos == millis * 1_000_000,
            r.wf(),
    {
        Duration { nanos: millis as u128 * 1_000_000 }
    }

    /// So many nanoseconds.
    pub fn from_nanos(nanos: u64) -> (r: Self)
        ensures
            r.nanos == nanos,
            r.wf(),
    {
        Duration { nanos: nanos as u128 }
    }
}

/// A moment, on a clock that only moves forward.
#[derive(Clone, Copy, Debug, PartialEq, Eq, PartialOrd, Ord, Hash, Structural)]
pub struct Instant {
    /// How long after the clock's own beginning it is, in nanoseconds.
    pub nanos: u128,
}

impl Instant {
    /// Whether it is within what a moment may be.
    pub open spec fn wf(self) -> bool {
        self.nanos <= LATEST
    }

    /// The moment so much later.
    pub open spec fn later(self, wait: Duration) -> Instant {
        Instant { nanos: (self.nanos + wait.nanos) as u128 }
    }

    /// The moment so much later.
    pub fn after(self, wait: Duration) -> (r: Self)
        requires
            self.wf(),
            wait.wf(),
        ensures
            r == self.later(wait),
            r.nanos == self.nanos + wait.nanos,
    {
        Instant { nanos: self.nanos + wait.nanos }
    }
}

/// Waits, for as long as it is told to.
pub trait Pause {
    /// Every wait there was, in order. An implementation that keeps count of
    /// them says here how.
    open spec fn waits(&self) -> Seq<Duration> {
        seq![]
    }

    fn pause(&mut self, wait: Duration)
        ensures
            final(self).waits() == old(self).waits().push(wait),
    ;
}

} // verus!
