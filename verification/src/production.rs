//! Productions: rewrite rules `A -> X1 X2 ... Xn`.

use vstd::prelude::*;
use vstd::string::StringExecFns;
use crate::symbol::{views, Symbol, SymbolV};
use crate::text::{join_strs, push_str, strs_views};

verus! {

/// Mathematical value of a [`Production`].
#[verifier::ext_equal]
pub struct ProductionV {
    pub from: SymbolV,
    pub to: Seq<SymbolV>,
}

/// A rewrite rule: a head symbol and an ordered body.  Immutable once
/// constructed; the head is expected to be a non-terminal.
pub struct Production {
    pub from: Symbol,
    pub to: Vec<Symbol>,
}

impl View for Production {
    type V = ProductionV;

    open spec fn view(&self) -> ProductionV {
        ProductionV { from: self.from@, to: views(self.to@) }
    }
}

impl Production {
    pub fn new(from: Symbol, to: Vec<Symbol>) -> (r: Production)
        ensures
            r@ == (ProductionV { from: from@, to: views(to@) }),
    {
        Production { from, to }
    }

    /// An owned copy.
    pub fn dup(&self) -> (r: Production)
        ensures
            r@ == self@,
    {
        let mut to: Vec<Symbol> = Vec::new();
        let mut i: usize = 0;
        while i < self.to.len()
            invariant
                0 <= i <= self.to.len(),
                views(to@) =~= views(self.to@).take(i as int),
            decreases self.to.len() - i,
        {
            let ghost oldto = to@;
            to.push(self.to[i].dup());
            proof {
                crate::symbol::lemma_views_push(oldto, to@.last());
                assert(views(to@) =~= views(self.to@).take(i + 1));
            }
            i += 1;
        }
        assert(views(self.to@).take(self.to@.len() as int) =~= views(self.to@));
        Production { from: self.from.dup(), to }
    }

    /// Value equality: same head and same body.
    pub fn prod_eq(&self, other: &Production) -> (r: bool)
        ensures
            r == (self@ == other@),
    {
        if !self.from.sym_eq(&other.from) {
            return false;
        }
        if self.to.len() != other.to.len() {
            assert(self@.to.len() != other@.to.len());
            return false;
        }
        let mut i: usize = 0;
        while i < self.to.len()
            invariant
                0 <= i <= self.to.len(),
                self.to.len() == other.to.len(),
                forall|k: int| 0 <= k < i ==> views(self.to@)[k] == views(other.to@)[k],
            decreases self.to.len() - i,
        {
            if !self.to[i].sym_eq(&other.to[i]) {
                assert(views(self.to@)[i as int] != views(other.to@)[i as int]);
                return false;
            }
            i += 1;
        }
        assert(views(self.to@) =~= views(other.to@));
        true
    }
}

/// The views of a sequence of productions.
pub open spec fn prod_views(s: Seq<Production>) -> Seq<ProductionV> {
    s.map_values(|p: Production| p@)
}

/// Viewing commutes with appending one production.
pub proof fn lemma_prod_views_push(s: Seq<Production>, x: Production)
    ensures
        prod_views(s.push(x)) =~= prod_views(s).push(x@),
{
}


/// The names of a symbol sequence.
pub open spec fn name_views(ss: Seq<SymbolV>) -> Seq<Seq<char>> {
    ss.map_values(|x: SymbolV| x.name())
}

/// A production printed as `head -> s1 s2 ...`.
pub open spec fn prod_str(p: ProductionV) -> Seq<char> {
    p.from.name() + " -> "@ + join_strs(name_views(p.to), " "@)
}

impl Production {
    /// The production as text: `head -> s1 s2 ...`.
    pub fn describe(&self) -> (r: String)
        ensures
            r@ == prod_str(self@),
    {
        let mut s = String::new();
        push_str(&mut s, self.from.as_str());
        push_str(&mut s, " -> ");
        let mut parts: Vec<String> = Vec::new();
        let mut i: usize = 0;
        proof {
            assert(strs_views(parts@) =~= name_views(views(self.to@)).take(0));
        }
        while i < self.to.len()
            invariant
                0 <= i <= self.to@.len(),
                strs_views(parts@) == name_views(views(self.to@)).take(i as int),
            decreases self.to@.len() - i,
        {
            let ghost oldparts = parts@;
            parts.push(String::from_str(self.to[i].as_str()));
            proof {
                crate::text::lemma_strs_views_push(oldparts, parts@.last());
                assert(strs_views(parts@) =~= name_views(views(self.to@)).take(i + 1));
            }
            i += 1;
        }
        proof {
            assert(name_views(views(self.to@)).take(self.to@.len() as int) =~= name_views(
                views(self.to@),
            ));
        }
        crate::text::join_into(&mut s, &parts, " ");
        proof {
            assert(s@ =~= prod_str(self@));
        }
        s
    }
}

} // verus!
