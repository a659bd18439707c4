//! Spans of time and points in time, at a granularity of one second.

use vstd::prelude::*;

verus! {

/// A non-negative span of time in whole seconds.
#[derive(Clone, Copy, Debug, PartialEq, Eq, Structural)]
pub struct Duration {
    pub secs: u64,
}

impl View for Duration {
    type V = nat;

    open spec fn view(&self) -> nat {
        self.secs as nat
    }
}

impl Duration {
    /// The span of `secs` seconds.
    pub fn from_secs(secs: u64) -> (d: Duration)
        ensures
            d@ == secs,
            d.secs == secs,
    {
        Duration { secs }
    }

    /// The number of whole seconds in the span.
    pub fn as_secs(&self) -> (secs: u64)
        ensures
            secs == self@,
    {
        self.secs
    }

    /// `self - other`, clamped at zero.
    pub fn saturating_sub(self, other: Duration) -> (d: Duration)
        ensures
            d@ == if self@ >= other@ { self@ - other@ } else { 0 },
    {
        if self.secs >= other.secs {
            Duration { secs: self.secs - other.secs }
        } else {
            Duration { secs: 0 }
        }
    }
}

/// A point in time: whole seconds since an epoch that the caller fixes once
/// and keeps for the lifetime of a scheduler.
#[derive(Clone, Copy, Debug, PartialEq, Eq, Structural)]
pub struct Instant {
    pub secs: u64,
}

impl View for Instant {
    type V = nat;

    open spec fn view(&self) -> nat {
        self.secs as nat
    }
}

/// The span from `earlier` to `later`, zero where `earlier` is not earlier.
pub open spec fn span(later: nat, earlier: nat) -> nat {
    if later >= earlier {
        (later - earlier) as nat
    } else {
        0
    }
}

impl Instant {
    /// The instant `secs` seconds after the epoch.
    pub fn from_secs(secs: u64) -> (i: Instant)
        ensures
            i@ == secs,
            i.secs == secs,
    {
        Instant { secs }
    }

    /// Seconds since the epoch.
    pub fn as_secs(&self) -> (secs: u64)
        ensures
            secs == self@,
    {
        self.secs
    }

    /// The time elapsed from `earlier` to `self`, zero if `earlier` is later
    /// than `self`.
    pub fn duration_since(&self, earlier: Instant) -> (d: Duration)
        ensures
            d@ == span(self@, earlier@),
    {
        if self.secs >= earlier.secs {
            Duration { secs: self.secs - earlier.secs }
        } else {
            Duration { secs: 0 }
        }
    }

    /// The instant `d` before `self`, clamped at the epoch.
    pub fn minus(&self, d: Duration) -> (i: Instant)
        ensures
            i@ == span(self@, d@),
    {
        if self.secs >= d.secs {
            Instant { secs: self.secs - d.secs }
        } else {
            Instant { secs: 0 }
        }
    }
}

} // verus!
