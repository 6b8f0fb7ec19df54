//! The guard of the run queue, as far as the queue depends on it: a flag that
//! is taken before the tree is touched and given back afterwards.

use vstd::prelude::*;

verus! {

/// A mutual-exclusion guard. It is not reentrant: taking it while it is held
/// is a fault of the caller.
#[derive(Debug)]
pub struct Spinlock {
    /// Whether the guard is held.
    pub locked: bool,
}

impl Spinlock {
    /// A guard that nobody holds.
    pub fn new() -> (lock: Spinlock)
        ensures
            !lock.locked,
    {
        Spinlock { locked: false }
    }

    /// Whether the guard is held.
    pub fn holding(&self) -> (held: bool)
        ensures
            held == self.locked,
    {
        self.locked
    }

    /// Takes the guard.
    pub fn acquire(&mut self)
        requires
            !old(self).locked,
        ensures
            final(self).locked,
    {
        self.locked = true;
    }

    /// Gives the guard back.
    pub fn release(&mut self)
        requires
            old(self).locked,
        ensures
            !final(self).locked,
    {
        self.locked = false;
    }
}

} // verus!
