//! The token interface consumed by the parse driver.

use vstd::prelude::*;

verus! {

/// Anything exposing a terminal-name `kind` and a textual `lexeme`.  A pair
/// of strings satisfies it trivially.
pub trait TokenLike {
    fn kind(&self) -> &String;

    fn lexeme(&self) -> &String;
}

impl TokenLike for (String, String) {
    fn kind(&self) -> (r: &String)
        ensures
            r@ == self.0@,
    {
        &self.0
    }

    fn lexeme(&self) -> (r: &String)
        ensures
            r@ == self.1@,
    {
        &self.1
    }
}

} // verus!
