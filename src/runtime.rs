//! The clock a repository reads.

use vstd::prelude::*;

verus! {

/// The clock a repository reads: a counter that moves on at every read.
#[derive(Debug)]
pub struct Runtime {
    pub current_time: usize,
}

/// The reading that follows `t`; it stays at the top of the range once there.
pub open spec fn tick(t: usize) -> usize {
    if t < usize::MAX {
        (t + 1) as usize
    } else {
        t
    }
}

impl Runtime {
    /// A clock that starts at 10.
    pub fn new() -> (r: Self)
        ensures
            r.current_time == 10,
    {
        Runtime { current_time: 10 }
    }

    /// A clock that starts at `t`.
    pub fn starting_at(t: usize) -> (r: Self)
        ensures
            r.current_time == t,
    {
        Runtime { current_time: t }
    }

    /// Moves the clock on and reads it.
    pub fn now(&mut self) -> (r: usize)
        ensures
            r == tick(old(self).current_time),
            final(self).current_time == r,
    {
        if self.current_time < usize::MAX {
            self.current_time = self.current_time + 1;
        }
        self.current_time
    }
}

} // verus!
