use vstd::prelude::*;
use vstd::std_specs::convert::FromSpecImpl;
use crate::token::Token;

verus! {

/// A character outside the alphabet, with the place where it was met.
#[derive(Debug, PartialEq, Eq, Structural, Hash)]
pub struct LexiconError {
    /// Zero-based index of the character in the scanned text.
    pub error_point: u32,
    /// The character itself.
    pub error_char: char,
}

impl LexiconError {
    pub fn new(error_point: u32, error_char: char) -> (e: Self)
        ensures
            e == (LexiconError { error_point, error_char }),
    {
        LexiconError { error_point, error_char }
    }
}

/// The two ways in which a token sequence can fail to be one formula.
#[derive(Debug, PartialEq, Eq, Structural, Hash)]
pub enum FormulaError {
    /// Applications are left waiting for operands.
    NotEnoughAtoms,
    /// Tokens or values are left over once a formula is complete.
    SurplusTokens,
}

/// Any failure between a text and its value.
#[derive(Debug, PartialEq, Eq, Structural, Hash)]
pub enum InvalidError {
    LexiconError(LexiconError),
    FormulaError(FormulaError),
}

impl From<LexiconError> for InvalidError {
    fn from(e: LexiconError) -> (r: Self) {
        InvalidError::LexiconError(e)
    }
}

impl FromSpecImpl<LexiconError> for InvalidError {
    open spec fn obeys_from_spec() -> bool {
        true
    }

    open spec fn from_spec(e: LexiconError) -> Self {
        InvalidError::LexiconError(e)
    }
}

impl From<FormulaError> for InvalidError {
    fn from(e: FormulaError) -> (r: Self) {
        InvalidError::FormulaError(e)
    }
}

impl FromSpecImpl<FormulaError> for InvalidError {
    open spec fn obeys_from_spec() -> bool {
        true
    }

    open spec fn from_spec(e: FormulaError) -> Self {
        InvalidError::FormulaError(e)
    }
}

/// A token that cannot stand where a combinator is expected.
#[derive(Debug, PartialEq, Eq, Structural, Hash)]
pub struct InvalidTokenAsArgument(pub Token);

impl InvalidTokenAsArgument {
    pub fn new(arg: Token) -> (e: Self)
        ensures
            e == InvalidTokenAsArgument(arg),
    {
        InvalidTokenAsArgument(arg)
    }
}

} // verus!
