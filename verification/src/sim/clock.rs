//! Deterministic clock.

use vstd::prelude::*;

verus! {

/// Read-only logical time source.
pub trait Clock {
    /// Returns the current logical tick without advancing time.
    fn now(&self) -> u64;
}

/// Simulation clock with a fixed logical time step.
///
/// Time is single-threaded and driver-owned: only the simulator advances it.
#[derive(Debug)]
pub struct SimClock {
    tick: u64,
}

impl View for SimClock {
    type V = u64;

    closed spec fn view(&self) -> u64 {
        self.tick
    }
}

impl Default for SimClock {
    fn default() -> (r: Self)
        ensures
            r@ == 0,
    {
        SimClock { tick: 0 }
    }
}

impl SimClock {
    /// Creates a clock at logical tick zero.
    pub fn new() -> (r: Self)
        ensures
            r@ == 0,
    {
        Self::default()
    }

    /// Advances logical time by `ticks`.
    pub fn advance(&mut self, ticks: u64)
        requires
            old(self)@ + ticks <= u64::MAX,
        ensures
            final(self)@ == old(self)@ + ticks,
    {
        self.tick = self.tick + ticks;
    }
}

impl Clock for SimClock {
    fn now(&self) -> (r: u64)
        ensures
            r == self@,
    {
        self.tick
    }
}

} // verus!
