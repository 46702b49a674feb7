//! The monotonic work claimer: the counter that hands each workgroup its
//! block, in the order in which the workgroups ask.

use vstd::prelude::*;

verus! {

/// A counter that hands out the indices `0, 1, 2, ...` below a limit, each
/// once.
pub struct ClaimCounter {
    next: usize,
    limit: usize,
}

impl ClaimCounter {
    #[verifier::type_invariant]
    spec fn well_formed(self) -> bool {
        self.next <= self.limit
    }

    /// Number of indices handed out so far, which is also the next index.
    pub closed spec fn issued(self) -> int {
        self.next as int
    }

    /// Number of indices that the counter hands out in all.
    pub closed spec fn limit(self) -> int {
        self.limit as int
    }

    /// A counter at zero that hands out the `limit` indices below `limit`.
    pub fn new(limit: usize) -> (counter: ClaimCounter)
        ensures
            counter.issued() == 0,
            counter.limit() == limit,
    {
        ClaimCounter { next: 0, limit }
    }

    /// Puts the counter back to zero, for a pass that hands out the indices
    /// below `limit`.
    pub fn reset(&mut self, limit: usize)
        ensures
            final(self).issued() == 0,
            final(self).limit() == limit,
    {
        self.next = 0;
        self.limit = limit;
    }

    /// Hands out the next index and moves on, or hands out nothing once all
    /// indices are out.
    pub fn claim(&mut self) -> (index: Option<usize>)
        ensures
            final(self).limit() == old(self).limit(),
            index is Some <==> old(self).issued() < old(self).limit(),
            index matches Some(i) ==> i == old(self).issued() && final(self).issued() == i + 1,
            index is None ==> final(self).issued() == old(self).issued(),
    {
        proof {
            use_type_invariant(&*self);
        }
        if self.next < self.limit {
            let index = self.next;
            self.next = self.next + 1;
            Some(index)
        } else {
            None
        }
    }

    /// Number of indices handed out so far.
    pub fn taken(&self) -> (count: usize)
        ensures
            count == self.issued(),
            count <= self.limit(),
    {
        proof {
            use_type_invariant(self);
        }
        self.next
    }
}

} // verus!
