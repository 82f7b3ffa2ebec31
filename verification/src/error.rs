//! Errors of the tokenizer.

use vstd::prelude::*;

use daachorse::errors::DaachorseError;

verus! {

#[verifier::external_type_specification]
#[verifier::external_body]
pub struct ExIoError(std::io::Error);

#[verifier::external_type_specification]
#[verifier::external_body]
pub struct ExJsonError(serde_json::Error);

/// What can go wrong when a tokenizer is built, loaded or saved.
#[derive(Debug)]
pub enum TokenizerError {
    /// Reading or writing a vocabulary file failed.
    Io(std::io::Error),
    /// A vocabulary file is not the JSON it should be.
    Deserialization(serde_json::Error),
    /// A vocabulary is of another major version, or too large for the
    /// token type; the string says which.
    Vocabulary(String),
    /// The pattern automaton of the vocabulary could not be built.
    Automaton(DaachorseError),
}

} // verus!
