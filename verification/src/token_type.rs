//! Integer types that can stand for a token id.

use vstd::prelude::*;

verus! {

/// An integer type whose values stand for token ids `0..=max_index()`.
///
/// `index_view` is the integer value of a token; `index_limit` is the
/// largest id the type can hold (its `MAX`).
pub trait TokenType: Copy + Eq + core::hash::Hash + Ord + TryFrom<usize> + 'static {
    /// The id of this token: its value as a `usize`.
    spec fn index_view(self) -> int;

    /// The largest id the type can hold.
    spec fn index_limit() -> nat;

    /// The token that `from_index(i)` gives.
    spec fn token_of(i: int) -> Self;

    /// Every id that the type holds, and that a `usize` holds, is the id of
    /// the token made from it.
    proof fn lemma_token_of(i: int)
        requires
            0 <= i <= Self::index_limit(),
            i <= usize::MAX,
        ensures
            Self::token_of(i).index_view() == i,
    ;

    /// The id as an index.
    fn to_index(self) -> (r: usize)
        ensures
            r as int == self.index_view(),
    ;

    /// The token with id `i`; past the type's range, `i` is cast with `as`
    /// (its low bits are kept), as each type's own contract states.
    fn from_index(i: usize) -> (r: Self)
        ensures
            r == Self::token_of(i as int),
            i <= Self::index_limit() ==> r.index_view() == i as int,
    ;

    /// The id as a `u32`, exact for every id up to `Self::index_limit()`
    /// that fits in a `u32`.
    spec fn fits_u32(self) -> bool;

    fn to_u32(self) -> (r: u32)
        ensures
            self.fits_u32() ==> r as int == self.index_view(),
    ;

    /// The largest id the type can hold, capped at `usize::MAX`.
    fn max_index() -> (r: usize)
        ensures
            r as int == if Self::index_limit() <= usize::MAX {
                Self::index_limit() as int
            } else {
                usize::MAX as int
            },
    ;
}

impl TokenType for u8 {
    proof fn lemma_token_of(i: int) {
    }

    open spec fn token_of(i: int) -> Self {
        i as u8
    }

    open spec fn index_view(self) -> int {
        (self as usize) as int
    }

    open spec fn fits_u32(self) -> bool {
        0 <= self as int <= u32::MAX
    }

    open spec fn index_limit() -> nat {
        u8::MAX as nat
    }

    fn to_index(self) -> (r: usize) {
        self as usize
    }

    fn from_index(i: usize) -> (r: Self)
        ensures
            r == i as u8,
    {
        i as u8
    }

    fn to_u32(self) -> (r: u32) {
        self as u32
    }

    fn max_index() -> (r: usize) {
        u8::MAX as usize
    }
}

impl TokenType for u16 {
    proof fn lemma_token_of(i: int) {
    }

    open spec fn token_of(i: int) -> Self {
        i as u16
    }

    open spec fn index_view(self) -> int {
        (self as usize) as int
    }

    open spec fn fits_u32(self) -> bool {
        0 <= self as int <= u32::MAX
    }

    open spec fn index_limit() -> nat {
        u16::MAX as nat
    }

    fn to_index(self) -> (r: usize) {
        self as usize
    }

    fn from_index(i: usize) -> (r: Self)
        ensures
            r == i as u16,
    {
        i as u16
    }

    fn to_u32(self) -> (r: u32) {
        self as u32
    }

    fn max_index() -> (r: usize) {
        u16::MAX as usize
    }
}

impl TokenType for u32 {
    proof fn lemma_token_of(i: int) {
    }

    open spec fn token_of(i: int) -> Self {
        i as u32
    }

    open spec fn index_view(self) -> int {
        (self as usize) as int
    }

    open spec fn fits_u32(self) -> bool {
        0 <= self as int <= u32::MAX
    }

    open spec fn index_limit() -> nat {
        u32::MAX as nat
    }

    fn to_index(self) -> (r: usize) {
        self as usize
    }

    fn from_index(i: usize) -> (r: Self)
        ensures
            r == i as u32,
    {
        i as u32
    }

    fn to_u32(self) -> (r: u32) {
        self as u32
    }

    fn max_index() -> (r: usize) {
        u32::MAX as usize
    }
}

impl TokenType for u64 {
    proof fn lemma_token_of(i: int) {
    }

    open spec fn token_of(i: int) -> Self {
        i as u64
    }

    open spec fn index_view(self) -> int {
        (self as usize) as int
    }

    open spec fn fits_u32(self) -> bool {
        0 <= self as int <= u32::MAX
    }

    open spec fn index_limit() -> nat {
        u64::MAX as nat
    }

    fn to_index(self) -> (r: usize) {
        self as usize
    }

    fn from_index(i: usize) -> (r: Self)
        ensures
            r == i as u64,
    {
        i as u64
    }

    fn to_u32(self) -> (r: u32) {
        self as u32
    }

    fn max_index() -> (r: usize) {
        if u64::MAX as u64 <= usize::MAX as u64 {
            u64::MAX as usize
        } else {
            usize::MAX
        }
    }
}

impl TokenType for usize {
    proof fn lemma_token_of(i: int) {
    }

    open spec fn token_of(i: int) -> Self {
        i as usize
    }

    open spec fn index_view(self) -> int {
        (self as usize) as int
    }

    open spec fn fits_u32(self) -> bool {
        0 <= self as int <= u32::MAX
    }

    open spec fn index_limit() -> nat {
        usize::MAX as nat
    }

    fn to_index(self) -> (r: usize) {
        self as usize
    }

    fn from_index(i: usize) -> (r: Self)
        ensures
            r == i as usize,
    {
        i as usize
    }

    fn to_u32(self) -> (r: u32) {
        self as u32
    }

    fn max_index() -> (r: usize) {
        usize::MAX as usize
    }
}

impl TokenType for i8 {
    proof fn lemma_token_of(i: int) {
    }

    open spec fn token_of(i: int) -> Self {
        i as i8
    }

    open spec fn index_view(self) -> int {
        (self as usize) as int
    }

    open spec fn fits_u32(self) -> bool {
        0 <= self as int <= u32::MAX
    }

    open spec fn index_limit() -> nat {
        i8::MAX as nat
    }

    fn to_index(self) -> (r: usize) {
        self as usize
    }

    fn from_index(i: usize) -> (r: Self)
        ensures
            r == i as i8,
    {
        i as i8
    }

    fn to_u32(self) -> (r: u32) {
        self as u32
    }

    fn max_index() -> (r: usize) {
        i8::MAX as usize
    }
}

impl TokenType for i16 {
    proof fn lemma_token_of(i: int) {
    }

    open spec fn token_of(i: int) -> Self {
        i as i16
    }

    open spec fn index_view(self) -> int {
        (self as usize) as int
    }

    open spec fn fits_u32(self) -> bool {
        0 <= self as int <= u32::MAX
    }

    open spec fn index_limit() -> nat {
        i16::MAX as nat
    }

    fn to_index(self) -> (r: usize) {
        self as usize
    }

    fn from_index(i: usize) -> (r: Self)
        ensures
            r == i as i16,
    {
        i as i16
    }

    fn to_u32(self) -> (r: u32) {
        self as u32
    }

    fn max_index() -> (r: usize) {
        i16::MAX as usize
    }
}

impl TokenType for i32 {
    proof fn lemma_token_of(i: int) {
    }

    open spec fn token_of(i: int) -> Self {
        i as i32
    }

    open spec fn index_view(self) -> int {
        (self as usize) as int
    }

    open spec fn fits_u32(self) -> bool {
        0 <= self as int <= u32::MAX
    }

    open spec fn index_limit() -> nat {
        i32::MAX as nat
    }

    fn to_index(self) -> (r: usize) {
        self as usize
    }

    fn from_index(i: usize) -> (r: Self)
        ensures
            r == i as i32,
    {
        i as i32
    }

    fn to_u32(self) -> (r: u32) {
        self as u32
    }

    fn max_index() -> (r: usize) {
        i32::MAX as usize
    }
}

impl TokenType for i64 {
    proof fn lemma_token_of(i: int) {
    }

    open spec fn token_of(i: int) -> Self {
        i as i64
    }

    open spec fn index_view(self) -> int {
        (self as usize) as int
    }

    open spec fn fits_u32(self) -> bool {
        0 <= self as int <= u32::MAX
    }

    open spec fn index_limit() -> nat {
        i64::MAX as nat
    }

    fn to_index(self) -> (r: usize) {
        self as usize
    }

    fn from_index(i: usize) -> (r: Self)
        ensures
            r == i as i64,
    {
        i as i64
    }

    fn to_u32(self) -> (r: u32) {
        self as u32
    }

    fn max_index() -> (r: usize) {
        if i64::MAX as u64 <= usize::MAX as u64 {
            i64::MAX as usize
        } else {
            usize::MAX
        }
    }
}

impl TokenType for isize {
    proof fn lemma_token_of(i: int) {
    }

    open spec fn token_of(i: int) -> Self {
        i as isize
    }

    open spec fn index_view(self) -> int {
        (self as usize) as int
    }

    open spec fn fits_u32(self) -> bool {
        0 <= self as int <= u32::MAX
    }

    open spec fn index_limit() -> nat {
        isize::MAX as nat
    }

    fn to_index(self) -> (r: usize) {
        self as usize
    }

    fn from_index(i: usize) -> (r: Self)
        ensures
            r == i as isize,
    {
        i as isize
    }

    fn to_u32(self) -> (r: u32) {
        self as u32
    }

    fn max_index() -> (r: usize) {
        isize::MAX as usize
    }
}

} // verus!
