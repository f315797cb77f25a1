//! Guard counter for deterministic `__kobo_guard_{N}` name generation.
use vstd::prelude::*;

verus! {

/// Monotonically-incrementing counter for guard name generation.
///
/// One instance per function, shared across all strict blocks within that
/// function so guard names never collide.
pub struct StrictGuardCounter {
    next_n: usize,
}

impl View for StrictGuardCounter {
    type V = nat;

    /// The index that the next call of `next` hands out.
    closed spec fn view(&self) -> nat {
        self.next_n as nat
    }
}

impl StrictGuardCounter {
    /// A counter whose first allocated index is zero.
    pub fn new() -> (counter: Self)
        ensures
            counter@ == 0,
    {
        Self { next_n: 0 }
    }

    /// Allocate the next guard index and advance the counter.
    pub fn next(&mut self) -> (n: usize)
        requires
            old(self)@ < usize::MAX,
        ensures
            n == old(self)@,
            final(self)@ == old(self)@ + 1,
    {
        let n = self.next_n;
        self.next_n = self.next_n + 1;
        n
    }
}

impl Default for StrictGuardCounter {
    fn default() -> (counter: Self)
        ensures
            counter@ == 0,
    {
        Self::new()
    }
}

} // verus!
