//! A tokenizer operating on Unicode codepoints, with byte fallback for
//! characters outside its vocabulary and an optional BPE merging stage.

use vstd::prelude::*;

pub mod error;
pub mod pair_ordering;
pub mod prepare;
pub mod token_type;
pub mod tokenizer;

pub use crate::error::TokenizerError;
pub use crate::token_type::TokenType;
pub use crate::tokenizer::Tokenizer;

verus! {

/// The default token type.
pub type Token = u16;

} // verus!
