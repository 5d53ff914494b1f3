use vstd::prelude::*;

verus! {

/// Identifier handed out by an [`IDGenerator`].
pub type Id = u64;

/// Monotonic counter that issues the identifiers 1, 2, 3, ... in order.
#[derive(Debug, PartialEq, Eq, Structural)]
pub struct IDGenerator {
    pub curr: Id,
}

impl IDGenerator {
    pub fn new() -> (r: Self)
        ensures
            r.curr == 0,
    {
        IDGenerator { curr: 0 }
    }

    /// Advances the counter by one and returns the new value.
    pub fn next_id(&mut self) -> (r: Id)
        requires
            old(self).curr < u64::MAX,
        ensures
            final(self).curr == old(self).curr + 1,
            r == final(self).curr,
    {
        self.curr = self.curr + 1;
        self.curr
    }
}

} // verus!
