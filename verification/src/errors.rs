//! The error taxonomy of the generator and driver.

use vstd::prelude::*;

verus! {

/// Everything that can go wrong while building a grammar or driving a parse.
#[derive(Clone, Copy, Debug, PartialEq, Eq, Structural)]
pub enum LrError {
    /// A head or the goal is not a declared non-terminal, or a reserved name
    /// collides with a declared one.
    InvalidGrammar,
    /// An ACTION cell holding more than one action was reached, or the driver
    /// failed to settle within its step budget.
    AmbiguousGrammar,
    /// No ACTION entry for the current state and token.
    UnexpectedToken,
    /// The token stream ran out while the driver expected another token.
    UnexpectedEndOfInput,
    /// A reduction asked for more entries than the stack holds, or the stack
    /// or tables are corrupt.  Does not occur for a validated LR(1) grammar.
    EmptyStack,
}

impl LrError {
    /// A short stable description.
    pub fn describe(&self) -> (r: &'static str)
        ensures
            r@ == match self {
                LrError::InvalidGrammar => "invalid grammar"@,
                LrError::AmbiguousGrammar => "ambiguous grammar"@,
                LrError::UnexpectedToken => "unexpected token"@,
                LrError::UnexpectedEndOfInput => "unexpected end of input"@,
                LrError::EmptyStack => "empty stack"@,
            },
    {
        match self {
            LrError::InvalidGrammar => "invalid grammar",
            LrError::AmbiguousGrammar => "ambiguous grammar",
            LrError::UnexpectedToken => "unexpected token",
            LrError::UnexpectedEndOfInput => "unexpected end of input",
            LrError::EmptyStack => "empty stack",
        }
    }
}

} // verus!
