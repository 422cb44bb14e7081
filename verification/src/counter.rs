//! The source of call identifiers.

use vstd::prelude::*;

verus! {

/// Hands out call identifiers in increasing order. One counter serves all
/// the checks that are alive at a time, so that no two of them ask under the
/// same identifier.
#[derive(Debug, PartialEq, Eq)]
pub struct Counter {
    next: u64,
}

impl View for Counter {
    type V = u64;

    closed spec fn view(&self) -> u64 {
        self.next
    }
}

/// The identifier that follows `id`: one more, and zero after the largest.
pub open spec fn following(id: u64) -> u64 {
    if id == u64::MAX {
        0
    } else {
        (id + 1) as u64
    }
}

impl Counter {
    /// A counter whose first identifier is `first`.
    pub fn new(first: u64) -> (r: Counter)
        ensures
            r@ == first,
    {
        Counter { next: first }
    }

    /// The next identifier. After the largest one the counter starts again
    /// at zero.
    pub fn next(&mut self) -> (id: u64)
        ensures
            id == old(self)@,
            final(self)@ == following(old(self)@),
    {
        let id = self.next;
        self.next = if id == u64::MAX {
            0
        } else {
            id + 1
        };
        id
    }
}

impl Default for Counter {
    fn default() -> (r: Counter)
        ensures
            r@ == 1,
    {
        Counter { next: 1 }
    }
}

} // verus!
