//! Time sources for frame scheduling: a monotonic clock trait and a clock
//! advanced by hand.

use vstd::prelude::*;

verus! {

/// A monotonic time source, in nanoseconds.
pub trait Clock {
    /// Monotonic nanoseconds since a fixed, arbitrary epoch.
    fn now_nanos(&self) -> u64;
}

/// A clock advanced by hand, for tests and headless rendering.
#[derive(Debug, Default)]
pub struct ManualClock {
    nanos: u64,
}

/// `x` capped at `u64::MAX`.
pub open spec fn saturate(x: int) -> u64 {
    if x > u64::MAX { u64::MAX } else { x as u64 }
}

impl ManualClock {
    /// The clock's current time in nanoseconds.
    pub closed spec fn time(&self) -> u64 {
        self.nanos
    }

    /// A clock starting at `t = 0`.
    pub fn new() -> (c: ManualClock)
        ensures
            c.time() == 0,
    {
        ManualClock { nanos: 0 }
    }

    /// Advances the clock by `delta` nanoseconds, saturating at `u64::MAX`.
    pub fn advance(&mut self, delta: u64)
        ensures
            final(self).time() == saturate(old(self).time() + delta),
    {
        self.nanos = self.nanos.saturating_add(delta);
    }

    /// Advances the clock by `millis` milliseconds, saturating.
    pub fn advance_millis(&mut self, millis: u64)
        ensures
            final(self).time() == saturate(old(self).time() + saturate(millis * 1_000_000)),
    {
        let delta = match millis.checked_mul(1_000_000) {
            Some(d) => d,
            None => u64::MAX,
        };
        self.advance(delta);
    }

    /// The current time in nanoseconds.
    pub fn now(&self) -> (t: u64)
        ensures
            t == self.time(),
    {
        self.nanos
    }
}

impl Clock for ManualClock {
    /// The clock's current time in nanoseconds.
    fn now_nanos(&self) -> (t: u64)
        ensures
            t == self.time(),
    {
        self.nanos
    }
}

/// Advancing a manual clock never moves it backwards.
pub proof fn law_manual_clock_monotonic(before: u64, delta: u64)
    ensures
        before <= saturate(before + delta),
{
}

} // verus!
