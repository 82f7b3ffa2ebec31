//! The priority of a pair of tokens during training: its count, then the
//! pair itself.

use vstd::prelude::*;

use crate::token_type::TokenType;

verus! {

/// A pair of tokens with the number of times it occurs.
pub struct PairOrd<T>(pub u32, pub (T, T));

/// `a` ranks below `b`: a smaller count, or the same count and a smaller
/// pair (first token, then second).
pub open spec fn ranks_below(a: (u32, (usize, usize)), b: (u32, (usize, usize))) -> bool {
    a.0 < b.0 || (a.0 == b.0 && (a.1.0 < b.1.0 || (a.1.0 == b.1.0 && a.1.1 < b.1.1)))
}

impl<T: TokenType> PairOrd<T> {
    /// The count.
    pub fn len(&self) -> (r: usize)
        ensures
            r == self.0,
    {
        self.0 as usize
    }

    /// Two entries are equal when they are about the same pair, whatever
    /// their counts.
    pub fn same_pair(&self, other: &Self) -> (r: bool)
        ensures
            r == (self.1.0.index_view() == other.1.0.index_view() && self.1.1.index_view()
                == other.1.1.index_view()),
    {
        self.1.0.to_index() == other.1.0.to_index() && self.1.1.to_index() == other.1.1.to_index()
    }

    /// The count and the ids of the pair, as the queue orders them.
    pub fn key(&self) -> (r: (u32, (usize, usize)))
        ensures
            r.0 == self.0,
            r.1.0 as int == self.1.0.index_view(),
            r.1.1 as int == self.1.1.index_view(),
    {
        (self.0, (self.1.0.to_index(), self.1.1.to_index()))
    }

    /// This entry ranks below `other`: count first, then the pair.
    pub fn ranks_below(&self, other: &Self) -> (r: bool)
        ensures
            r == ranks_below(
                (self.0, (self.1.0.index_view() as usize, self.1.1.index_view() as usize)),
                (other.0, (other.1.0.index_view() as usize, other.1.1.index_view() as usize)),
            ),
    {
        let a = self.key();
        let b = other.key();
        a.0 < b.0 || (a.0 == b.0 && (a.1.0 < b.1.0 || (a.1.0 == b.1.0 && a.1.1 < b.1.1)))
    }
}

} // verus!
