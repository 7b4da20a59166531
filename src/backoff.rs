//! Exponential backoff for retry loops on contended atomics.

use vstd::prelude::*;

verus! {

/// Past this step, spinning longer does not help: the caller should yield instead.
pub const SPIN_LIMIT: u32 = 6;

/// Relies on `core::hint::spin_loop`: a processor hint with no effect on program state.
pub assume_specification[ core::hint::spin_loop ]();

/// Waits a little longer on each call, doubling the spin up to `SPIN_LIMIT`.
pub struct Backoff {
    step: u32,
}

impl Backoff {
    /// How many calls to `snooze` have spun so far.
    pub closed spec fn step_spec(&self) -> nat {
        self.step as nat
    }

    /// A backoff that has not waited yet.
    pub fn new() -> (r: Backoff)
        ensures
            r.step_spec() == 0,
    {
        Backoff { step: 0 }
    }

    /// Spins `2^step` times and moves to the next step, until the spin limit is passed; after
    /// that it returns at once.
    pub fn snooze(&mut self)
        requires
            old(self).step_spec() <= SPIN_LIMIT + 1,
        ensures
            final(self).step_spec() == if old(self).step_spec() <= SPIN_LIMIT {
                old(self).step_spec() + 1
            } else {
                old(self).step_spec()
            },
    {
        if self.step <= SPIN_LIMIT {
            let rounds: u32 = 1u32 << self.step;
            let mut i: u32 = 0;
            while i < rounds
                invariant
                    i <= rounds,
                decreases rounds - i,
            {
                core::hint::spin_loop();
                i = i + 1;
            }
            self.step = self.step + 1;
        }
    }

    /// Whether spinning is over and the caller should yield or block instead.
    pub fn is_completed(&self) -> (r: bool)
        ensures
            r == (self.step_spec() > SPIN_LIMIT),
    {
        self.step > SPIN_LIMIT
    }
}

} // verus!
