//! Grammar symbols: terminals and non-terminals.
//!
//! A symbol is a name tagged as terminal or non-terminal.  Three names are
//! reserved: `EOF` (end-of-input sentinel), `LAMBDA` (empty-string marker in
//! FIRST sets) and `FAKE_GOAL` (augmented start symbol).

use vstd::prelude::*;
use vstd::string::StringExecFns;

verus! {

/// Mathematical value of a [`Symbol`]: the name as a character sequence,
/// tagged with the terminal / non-terminal distinction.
#[verifier::ext_equal]
pub enum SymbolV {
    T(Seq<char>),
    NT(Seq<char>),
}

impl SymbolV {
    /// The name, whichever the tag.
    pub open spec fn name(self) -> Seq<char> {
        match self {
            SymbolV::T(s) => s,
            SymbolV::NT(s) => s,
        }
    }

    pub open spec fn is_t(self) -> bool {
        self is T
    }

    pub open spec fn is_nt(self) -> bool {
        self is NT
    }
}

/// The reserved end-of-input sentinel, as a spec value.
pub open spec fn eof_v() -> SymbolV {
    SymbolV::T("EOF"@)
}

/// The reserved empty-string marker, as a spec value.
pub open spec fn lambda_v() -> SymbolV {
    SymbolV::T("LAMBDA"@)
}

/// The reserved augmented start symbol, as a spec value.
pub open spec fn fake_goal_v() -> SymbolV {
    SymbolV::NT("FAKE_GOAL"@)
}

/// A grammar symbol: `T` is a terminal, `NT` a non-terminal.  Equality is by
/// variant and name.
pub enum Symbol {
    T(String),
    NT(String),
}

impl View for Symbol {
    type V = SymbolV;

    open spec fn view(&self) -> SymbolV {
        match self {
            Symbol::T(s) => SymbolV::T(s@),
            Symbol::NT(s) => SymbolV::NT(s@),
        }
    }
}

impl Symbol {
    /// A terminal with the given name.
    pub fn new_t(s: &str) -> (r: Symbol)
        ensures
            r@ == SymbolV::T(s@),
    {
        Symbol::T(s.to_owned())
    }

    /// A non-terminal with the given name.
    pub fn new_nt(s: &str) -> (r: Symbol)
        ensures
            r@ == SymbolV::NT(s@),
    {
        Symbol::NT(s.to_owned())
    }

    /// The reserved end-of-input terminal.
    pub fn eof() -> (r: Symbol)
        ensures
            r@ == eof_v(),
    {
        Symbol::T("EOF".to_owned())
    }

    /// The reserved empty-string terminal.
    pub fn lambda() -> (r: Symbol)
        ensures
            r@ == lambda_v(),
    {
        Symbol::T("LAMBDA".to_owned())
    }

    pub fn is_terminal(&self) -> (r: bool)
        ensures
            r == self@.is_t(),
    {
        match self {
            Symbol::T(_) => true,
            Symbol::NT(_) => false,
        }
    }

    pub fn is_non_terminal(&self) -> (r: bool)
        ensures
            r == self@.is_nt(),
    {
        match self {
            Symbol::NT(_) => true,
            Symbol::T(_) => false,
        }
    }

    /// The underlying name.
    pub fn to_string(&self) -> (r: &String)
        ensures
            r@ == self@.name(),
    {
        match self {
            Symbol::T(s) => s,
            Symbol::NT(s) => s,
        }
    }

    /// The underlying name as a string slice.
    pub fn as_str(&self) -> (r: &str)
        ensures
            r@ == self@.name(),
    {
        match self {
            Symbol::T(s) => s.as_str(),
            Symbol::NT(s) => s.as_str(),
        }
    }

    /// An owned copy.
    pub fn dup(&self) -> (r: Symbol)
        ensures
            r == *self,
    {
        match self {
            Symbol::T(s) => Symbol::T(s.clone()),
            Symbol::NT(s) => Symbol::NT(s.clone()),
        }
    }

    /// Value equality: same variant and same name.
    pub fn sym_eq(&self, other: &Symbol) -> (r: bool)
        ensures
            r == (self@ == other@),
    {
        match (self, other) {
            (Symbol::T(a), Symbol::NT(b)) => false,
            (Symbol::NT(a), Symbol::T(b)) => false,
            (Symbol::T(a), Symbol::T(b)) => a.eq(b),
            (Symbol::NT(a), Symbol::NT(b)) => a.eq(b),
        }
    }

    /// Does the name equal the given string?
    pub fn name_is(&self, s: &str) -> (r: bool)
        ensures
            r == (self@.name() == s@),
    {
        let n = String::from_str(s);
        self.to_string().eq(&n)
    }
}

/// The views of a sequence of symbols.
pub open spec fn views(s: Seq<Symbol>) -> Seq<SymbolV> {
    s.map_values(|x: Symbol| x@)
}

/// Viewing commutes with appending one symbol.
pub proof fn lemma_views_push(s: Seq<Symbol>, x: Symbol)
    ensures
        views(s.push(x)) =~= views(s).push(x@),
{
}

/// Membership of a symbol view in an executable symbol list.
pub fn syms_contain(v: &Vec<Symbol>, x: &Symbol) -> (r: bool)
    ensures
        r == views(v@).contains(x@),
{
    let mut i: usize = 0;
    while i < v.len()
        invariant
            0 <= i <= v.len(),
            forall|k: int| 0 <= k < i ==> views(v@)[k] != x@,
        decreases v.len() - i,
    {
        if v[i].sym_eq(x) {
            assert(views(v@)[i as int] == x@);
            return true;
        }
        i += 1;
    }
    false
}

} // verus!
