//! Time sources: a settable one for simulation, and the post-processing that
//! makes wall-clock readings strictly increasing.
use vstd::prelude::*;

verus! {

/// Nanoseconds in one microsecond.
pub const NANOS_PER_MICRO: u64 = 1_000;

/// Nanoseconds in one millisecond.
pub const NANOS_PER_MILLI: u64 = 1_000_000;

/// Nanoseconds in one second.
pub const NANOS_PER_SECOND: u64 = 1_000_000_000;

/// A time source whose instant is set by its owner and never moves backwards.
pub struct FixedTime {
    ns: u64,
}

impl View for FixedTime {
    type V = nat;

    closed spec fn view(&self) -> nat {
        self.ns as nat
    }
}

impl FixedTime {
    /// Creates a source that reads `ns`.
    pub fn new(ns: u64) -> (r: FixedTime)
        ensures
            r@ == ns,
    {
        FixedTime { ns }
    }

    /// The current instant in nanoseconds.
    pub fn now_ns(&self) -> (r: u64)
        ensures
            r == self@,
    {
        self.ns
    }

    /// The current instant in whole microseconds.
    pub fn now_us(&self) -> (r: u64)
        ensures
            r == self@ / NANOS_PER_MICRO as nat,
    {
        self.ns / NANOS_PER_MICRO
    }

    /// The current instant in whole milliseconds.
    pub fn now_ms(&self) -> (r: u64)
        ensures
            r == self@ / NANOS_PER_MILLI as nat,
    {
        self.ns / NANOS_PER_MILLI
    }

    /// The current instant in whole seconds.
    pub fn now_seconds(&self) -> (r: u64)
        ensures
            r == self@ / NANOS_PER_SECOND as nat,
    {
        self.ns / NANOS_PER_SECOND
    }

    /// Moves the instant to `ns`, which must not lie before the current one.
    pub fn set(&mut self, ns: u64)
        requires
            old(self)@ <= ns,
        ensures
            final(self)@ == ns,
    {
        self.ns = ns;
    }
}

} // verus!

verus! {

/// The post-processing of a wall-clock source: each reading it hands out is
/// later than the one before, even where the raw clock stands still or steps
/// back.
pub struct MonotonicTime {
    last: u64,
}

impl View for MonotonicTime {
    type V = nat;

    /// The last instant handed out.
    closed spec fn view(&self) -> nat {
        self.last as nat
    }
}

/// The instant handed out for a raw reading `raw` after `last`.
pub open spec fn monotonic_reading(last: nat, raw: nat) -> nat {
    if raw > last {
        raw
    } else if last < u64::MAX {
        last + 1
    } else {
        last
    }
}

impl MonotonicTime {
    /// A source that has handed out nothing yet.
    pub fn new() -> (r: MonotonicTime)
        ensures
            r@ == 0,
    {
        MonotonicTime { last: 0 }
    }

    /// The last instant handed out.
    pub fn last_ns(&self) -> (r: u64)
        ensures
            r == self@,
    {
        self.last
    }

    /// Takes a raw reading and hands out the instant for it: the reading
    /// itself if it is later than the last one, else one nanosecond after it.
    pub fn observe(&mut self, raw: u64) -> (r: u64)
        ensures
            r == monotonic_reading(old(self)@, raw as nat),
            final(self)@ == r,
            r >= old(self)@,
            old(self)@ < u64::MAX ==> r > old(self)@,
    {
        if raw > self.last {
            self.last = raw;
        } else if self.last < u64::MAX {
            self.last = self.last + 1;
        }
        self.last
    }
}

} // verus!
