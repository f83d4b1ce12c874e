//! The minimum contract a token must satisfy for the driver.

use vstd::prelude::*;

verus! {

/// Anything exposing a terminal-name `kind` and a textual `lexeme`.  The
/// driver consults only the kind; the lexeme is carried for consumers of the
/// tree.
pub trait Token {
    fn kind(&self) -> &String;

    fn lexeme(&self) -> &String;
}

impl Token for (String, String) {
    fn kind(&self) -> (r: &String)
        ensures
            r@ == self.0@,
    {
        &self.0
    }

    fn lexeme(&self) -> (r: &String)
        ensures
            r@ == self.1@,
    {
        &self.1
    }
}

} // verus!
