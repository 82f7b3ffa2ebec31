//! A set of pair positions ranked by how much it weighs, then by its pair.

use vstd::prelude::*;

use std::collections::HashSet;

use crate::Token;

verus! {

/// A set of positions of a pair, the pair, and the weight of each
/// position.
pub struct StableOrdHashSet(pub HashSet<(usize, usize)>, pub (Token, Token), pub u32);

impl StableOrdHashSet {
    /// The total weight: positions times the weight of each.
    pub open spec fn total(&self) -> int {
        vstd::std_specs::hash::spec_hash_set_len(&self.0) * self.2
    }

    /// The total weight: positions times the weight of each.
    pub fn len(&self) -> (r: usize)
        requires
            self.total() <= usize::MAX,
        ensures
            r == self.total(),
    {
        let n = self.0.len();
        let w = self.2 as usize;
        proof {
            assert(n * w == self.total());
        }
        n * w
    }

    /// Two sets rank the same: the same total and the same pair.
    pub fn same_rank(&self, other: &Self) -> (r: bool)
        requires
            self.total() <= usize::MAX,
            other.total() <= usize::MAX,
        ensures
            r == (self.total() == other.total() && self.1 == other.1),
    {
        self.len() == other.len() && self.1.0 == other.1.0 && self.1.1 == other.1.1
    }

    /// This set ranks below `other`: a smaller total, or the same total and
    /// a smaller pair (first token, then second).
    pub fn ranks_below(&self, other: &Self) -> (r: bool)
        requires
            self.total() <= usize::MAX,
            other.total() <= usize::MAX,
        ensures
            r == (self.total() < other.total() || (self.total() == other.total() && (self.1.0
                < other.1.0 || (self.1.0 == other.1.0 && self.1.1 < other.1.1)))),
    {
        let a = self.len();
        let b = other.len();
        a < b || (a == b && (self.1.0 < other.1.0 || (self.1.0 == other.1.0 && self.1.1
            < other.1.1)))
    }
}

} // verus!
