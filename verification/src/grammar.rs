//! Grammars: an ordered list of productions with derived FIRST sets.
//!
//! A grammar holds its goal, its productions in definition order, the list of
//! symbols appearing anywhere, and the FIRST map.  The FIRST map is the least
//! fixed point of the standard recurrence: terminals (including `EOF` and
//! `LAMBDA`) start at their singleton and every production folds the walk of
//! its body into its head's entry until nothing changes.

use vstd::prelude::*;
use vstd::seq_lib::*;
use vstd::string::StringExecFns;
use crate::errors::LrError;
use crate::first::{
    entries_ok, first_closed, first_least, first_tbase, lemma_map_of_props, lemma_map_of_update,
    lemma_sum_lens_bound, lemma_sum_lens_nonneg, lemma_sum_lens_update, lemma_walk_elems,
    lemma_walk_monotone, map_of, pointwise_le, row_views, sum_lens, walk, FirstMap,
};
use crate::production::{prod_views, Production, ProductionV};
use crate::sets::{
    find_key, find_pos, insert_unique, lemma_find_pos, lemma_find_pos_unique,
    lemma_no_dup_len_bound, union_into, union_minus_lambda,
};
use crate::symbol::{eof_v, lambda_v, syms_contain, views, Symbol, SymbolV};

verus! {

/// Mathematical value of a [`Grammar`].
#[verifier::ext_equal]
pub struct GrammarV {
    pub goal: SymbolV,
    pub prods: Seq<ProductionV>,
    pub first: FirstMap,
    pub syms: Seq<SymbolV>,
}

/// The symbols appearing in the grammar: the goal, every head, every body
/// symbol.
pub open spec fn base_syms(goal: SymbolV, prods: Seq<ProductionV>) -> Set<SymbolV> {
    Set::new(
        |s: SymbolV|
            s == goal || exists|i: int|
                0 <= i < prods.len() && ((#[trigger] prods[i]).from == s || prods[i].to.contains(
                    s,
                )),
    )
}

/// The FIRST domain: the grammar's symbols plus `EOF` and `LAMBDA`.
pub open spec fn gsyms(goal: SymbolV, prods: Seq<ProductionV>) -> Set<SymbolV> {
    base_syms(goal, prods).insert(eof_v()).insert(lambda_v())
}

/// The symbol listing in collection order: the goal, then for each production
/// its head followed by its body.
pub open spec fn sym_listing(goal: SymbolV, prods: Seq<ProductionV>) -> Seq<SymbolV>
    decreases prods.len(),
{
    if prods.len() == 0 {
        seq![goal]
    } else {
        sym_listing(goal, prods.drop_last()) + seq![prods.last().from] + prods.last().to
    }
}

/// The listing contains exactly the grammar's symbols.
pub proof fn lemma_sym_listing_set(goal: SymbolV, prods: Seq<ProductionV>)
    ensures
        sym_listing(goal, prods).to_set() =~= base_syms(goal, prods),
    decreases prods.len(),
{
    let l = sym_listing(goal, prods);
    if prods.len() == 0 {
        assert forall|s: SymbolV| base_syms(goal, prods).contains(s) implies l.to_set().contains(
            s,
        ) by {
            assert(l[0] == goal);
        }
    } else {
        let rest = prods.drop_last();
        lemma_sym_listing_set(goal, rest);
        let lr = sym_listing(goal, rest);
        assert forall|s: SymbolV| l.to_set().contains(s) implies base_syms(
            goal,
            prods,
        ).contains(s) by {
            let i = choose|i: int| 0 <= i < l.len() && l[i] == s;
            if i < lr.len() {
                assert(lr.to_set().contains(s));
                if s != goal {
                    let j = choose|j: int|
                        0 <= j < rest.len() && ((#[trigger] rest[j]).from == s
                            || rest[j].to.contains(s));
                    assert(prods[j].from == s || prods[j].to.contains(s));
                }
            } else if i == lr.len() {
                assert(prods[prods.len() - 1].from == s);
            } else {
                assert(prods.last().to[i - lr.len() - 1] == s);
            }
        }
        assert forall|s: SymbolV| base_syms(goal, prods).contains(s) implies l.to_set().contains(
            s,
        ) by {
            if s == goal {
                assert(lr.to_set().contains(s));
                let i = choose|i: int| 0 <= i < lr.len() && lr[i] == s;
                assert(l[i] == s);
            } else {
                let j = choose|j: int|
                    0 <= j < prods.len() && ((#[trigger] prods[j]).from == s
                        || prods[j].to.contains(s));
                if j < prods.len() - 1 {
                    assert(rest[j].from == s || rest[j].to.contains(s));
                    assert(base_syms(goal, rest).contains(s));
                    let i = choose|i: int| 0 <= i < lr.len() && lr[i] == s;
                    assert(l[i] == s);
                } else {
                    if prods[j].from == s {
                        assert(l[lr.len() as int] == s);
                    } else {
                        let k = choose|k: int|
                            0 <= k < prods[j].to.len() && prods[j].to[k] == s;
                        assert(l[lr.len() + 1 + k] == s);
                    }
                }
            }
        }
    }
}

/// Well-formedness of a grammar value: heads and goal are non-terminals, and
/// the FIRST map is the least fixed point of the recurrence over exactly the
/// grammar's symbols plus `EOF` and `LAMBDA`.
pub open spec fn gram_wf(g: GrammarV) -> bool {
    &&& g.goal.is_nt()
    &&& forall|i: int| 0 <= i < g.prods.len() ==> (#[trigger] g.prods[i]).from.is_nt()
    &&& g.first.dom() == gsyms(g.goal, g.prods)
    &&& g.first.dom().finite()
    &&& entries_ok(g.first)
    &&& forall|s: SymbolV|
        g.first.dom().contains(s) && s.is_t() ==> (#[trigger] g.first[s]) == set![s]
    &&& first_closed(g.prods, g.first)
    &&& first_least(g.prods, g.first)
    &&& g.syms.to_set() == base_syms(g.goal, g.prods)
}

/// A context-free grammar with its FIRST map.  Built once; immutable
/// thereafter.
pub struct Grammar {
    pub goal: Symbol,
    pub productions: Vec<Production>,
    pub first_keys: Vec<Symbol>,
    pub first_vals: Vec<Vec<Symbol>>,
    pub symbols: Vec<Symbol>,
}

impl View for Grammar {
    type V = GrammarV;

    open spec fn view(&self) -> GrammarV {
        GrammarV {
            goal: self.goal@,
            prods: prod_views(self.productions@),
            first: map_of(views(self.first_keys@), row_views(self.first_vals@)),
            syms: views(self.symbols@),
        }
    }
}

impl Grammar {
    /// Representation invariant plus mathematical well-formedness.
    pub open spec fn wf(&self) -> bool {
        &&& views(self.first_keys@).no_duplicates()
        &&& self.first_vals@.len() == self.first_keys@.len()
        &&& forall|k: int|
            0 <= k < self.first_vals@.len() ==> views(
                (#[trigger] self.first_vals@[k])@,
            ).no_duplicates()
        &&& gram_wf(self@)
    }
}

impl Grammar {
    /// Build a grammar from its goal and productions and compute its FIRST
    /// map.  Heads and the goal must be non-terminals.
    pub fn new(goal: Symbol, prods: Vec<Production>) -> (r: Grammar)
        requires
            goal@.is_nt(),
            forall|i: int|
                0 <= i < prods@.len() ==> (#[trigger] prod_views(prods@)[i]).from.is_nt(),
        ensures
            r.wf(),
            r@.goal == goal@,
            r@.prods == prod_views(prods@),
            r@.syms == sym_listing(goal@, prod_views(prods@)),
    {
        let ghost pv = prod_views(prods@);
        let mut symbols: Vec<Symbol> = Vec::new();
        symbols.push(goal.dup());
        proof {
            assert(views(symbols@) =~= sym_listing(goal@, pv.take(0)));
        }
        let mut pi: usize = 0;
        while pi < prods.len()
            invariant
                0 <= pi <= prods@.len(),
                pv == prod_views(prods@),
                views(symbols@) == sym_listing(goal@, pv.take(pi as int)),
            decreases prods@.len() - pi,
        {
            let ghost oldsyms = symbols@;
            symbols.push(prods[pi].from.dup());
            proof {
                crate::symbol::lemma_views_push(oldsyms, symbols@.last());
                assert(pv[pi as int].to.take(0) =~= Seq::<SymbolV>::empty());
                assert(views(symbols@) =~= sym_listing(goal@, pv.take(pi as int)) + seq![
                    pv[pi as int].from,
                ] + pv[pi as int].to.take(0));
            }
            let body = &prods[pi].to;
            let mut bj: usize = 0;
            while bj < body.len()
                invariant
                    0 <= bj <= body@.len(),
                    0 <= pi < prods@.len(),
                    pv == prod_views(prods@),
                    body == &prods@[pi as int].to,
                    views(symbols@) == sym_listing(goal@, pv.take(pi as int)) + seq![
                        pv[pi as int].from,
                    ] + pv[pi as int].to.take(bj as int),
                decreases body@.len() - bj,
            {
                let ghost oldsyms = symbols@;
                symbols.push(body[bj].dup());
                proof {
                    crate::symbol::lemma_views_push(oldsyms, symbols@.last());
                    assert(pv[pi as int].to.take(bj + 1) =~= pv[pi as int].to.take(
                        bj as int,
                    ).push(pv[pi as int].to[bj as int]));
                    assert(views(symbols@) =~= sym_listing(goal@, pv.take(pi as int)) + seq![
                        pv[pi as int].from,
                    ] + pv[pi as int].to.take(bj + 1));
                }
                bj += 1;
            }
            proof {
                assert(pv.take(pi + 1).drop_last() =~= pv.take(pi as int));
                assert(pv[pi as int].to.take(body@.len() as int) =~= pv[pi as int].to);
                assert(views(symbols@) =~= sym_listing(goal@, pv.take(pi + 1)));
            }
            pi += 1;
        }
        proof {
            assert(pv.take(pv.len() as int) =~= pv);
        }
        let fm = calc_first(&goal, &prods);
        let (first_keys, first_vals) = fm;
        let g = Grammar { goal, productions: prods, first_keys, first_vals, symbols };
        proof {
            lemma_sym_listing_set(g@.goal, pv);
            assert(g@.syms.to_set() == base_syms(g@.goal, g@.prods));
            assert forall|k: int| 0 <= k < g.first_vals@.len() implies views(
                (#[trigger] g.first_vals@[k])@,
            ).no_duplicates() by {
                assert(row_views(g.first_vals@)[k] == views(g.first_vals@[k]@));
            }
            assert(gram_wf(g@));
        }
        g
    }

    /// The augmented grammar: `FAKE_GOAL -> goal` prepended, goal set to
    /// `FAKE_GOAL`, FIRST recomputed.
    pub fn with_fake_goal(&self) -> (r: Grammar)
        requires
            self.wf(),
        ensures
            r.wf(),
            r@.goal == crate::symbol::fake_goal_v(),
            r@.prods == seq![
                ProductionV { from: crate::symbol::fake_goal_v(), to: seq![self@.goal] },
            ] + self@.prods,
    {
        let fake_goal = Symbol::new_nt("FAKE_GOAL");
        let mut body: Vec<Symbol> = Vec::new();
        body.push(self.goal.dup());
        let fake_prod = Production::new(fake_goal.dup(), body);
        let mut prods: Vec<Production> = Vec::new();
        prods.push(fake_prod);
        proof {
            assert(prod_views(prods@) =~~= seq![
                ProductionV { from: crate::symbol::fake_goal_v(), to: seq![self@.goal] },
            ]);
        }
        let mut i: usize = 0;
        while i < self.productions.len()
            invariant
                0 <= i <= self.productions@.len(),
                prod_views(prods@) == seq![
                    ProductionV { from: crate::symbol::fake_goal_v(), to: seq![self@.goal] },
                ] + prod_views(self.productions@).take(i as int),
            decreases self.productions@.len() - i,
        {
            let ghost oldprods = prods@;
            prods.push(self.productions[i].dup());
            proof {
                crate::production::lemma_prod_views_push(oldprods, prods@.last());
                assert(prod_views(prods@) =~= seq![
                    ProductionV { from: crate::symbol::fake_goal_v(), to: seq![self@.goal] },
                ] + prod_views(self.productions@).take(i + 1));
            }
            i += 1;
        }
        proof {
            assert(prod_views(self.productions@).take(self.productions@.len() as int)
                =~= prod_views(self.productions@));
            assert forall|j: int| 0 <= j < prods@.len() implies (#[trigger] prod_views(
                prods@,
            )[j]).from.is_nt() by {
                if j > 0 {
                    assert(prod_views(prods@)[j] == prod_views(self.productions@)[j - 1]);
                }
            }
        }
        Grammar::new(fake_goal, prods)
    }
}

/// Indices of the productions with head `a`, in definition order.
pub open spec fn head_indices(prods: Seq<ProductionV>, a: SymbolV) -> Seq<int>
    decreases prods.len(),
{
    if prods.len() == 0 {
        Seq::empty()
    } else {
        let r = head_indices(prods.drop_last(), a);
        if prods.last().from == a {
            r.push(prods.len() - 1)
        } else {
            r
        }
    }
}

/// `head_indices` lists exactly the positions whose head is `a`, in
/// increasing order.
pub proof fn lemma_head_indices(prods: Seq<ProductionV>, a: SymbolV)
    ensures
        forall|k: int|
            0 <= k < head_indices(prods, a).len() ==> 0 <= #[trigger] head_indices(prods, a)[k]
                < prods.len() && prods[head_indices(prods, a)[k]].from == a,
        forall|i: int|
            0 <= i < prods.len() && (#[trigger] prods[i]).from == a ==> head_indices(
                prods,
                a,
            ).contains(i),
    decreases prods.len(),
{
    if prods.len() > 0 {
        let rest = prods.drop_last();
        lemma_head_indices(rest, a);
        let r = head_indices(rest, a);
        assert(forall|k: int| 0 <= k < r.len() ==> rest[#[trigger] r[k]] == prods[r[k]]);
        assert forall|i: int| 0 <= i < prods.len() && (#[trigger] prods[i]).from == a
            implies head_indices(prods, a).contains(i) by {
            if i < prods.len() - 1 {
                assert(rest[i] == prods[i]);
                assert(r.contains(i));
                let k = choose|k: int| 0 <= k < r.len() && r[k] == i;
                assert(head_indices(prods, a)[k] == i);
            } else {
                assert(head_indices(prods, a).last() == i);
            }
        }
    }
}

/// Views of a list of string slices.
pub open spec fn str_views(s: Seq<&str>) -> Seq<Seq<char>> {
    s.map_values(|x: &str| x@)
}

/// Classify a raw name against the declared non-terminal names.
pub open spec fn classify(d: Set<Seq<char>>, n: Seq<char>) -> SymbolV {
    if d.contains(n) {
        SymbolV::NT(n)
    } else {
        SymbolV::T(n)
    }
}

/// The production a raw `(head, body)` pair denotes, once names are
/// classified.
pub open spec fn simple_prod_v(d: Set<Seq<char>>, p: (&str, Vec<&str>)) -> ProductionV {
    ProductionV {
        from: SymbolV::NT(p.0@),
        to: str_views(p.1@).map_values(|n: Seq<char>| classify(d, n)),
    }
}

/// When raw input is accepted: the goal and every head are declared, and no
/// reserved name is declared as a non-terminal.
pub open spec fn simple_ok(goal: &str, nts: Seq<&str>, rules: Seq<(&str, Vec<&str>)>) -> bool {
    let d = str_views(nts).to_set();
    &&& d.contains(goal@)
    &&& forall|i: int| 0 <= i < rules.len() ==> d.contains((#[trigger] rules[i]).0@)
    &&& !d.contains("EOF"@)
    &&& !d.contains("LAMBDA"@)
    &&& !d.contains("FAKE_GOAL"@)
}

/// Whether a name occurs in a list of string slices.
fn str_in(v: &Vec<&str>, x: &str) -> (r: bool)
    ensures
        r == str_views(v@).to_set().contains(x@),
{
    let xs = String::from_str(x);
    let mut i: usize = 0;
    while i < v.len()
        invariant
            0 <= i <= v.len(),
            xs@ == x@,
            forall|k: int| 0 <= k < i ==> str_views(v@)[k] != x@,
        decreases v.len() - i,
    {
        let e = String::from_str(v[i]);
        if e.eq(&xs) {
            proof {
                assert(str_views(v@)[i as int] == x@);
            }
            return true;
        }
        i += 1;
    }
    proof {
        if str_views(v@).to_set().contains(x@) {
            let k = choose|k: int| 0 <= k < str_views(v@).len() && str_views(v@)[k] == x@;
        }
    }
    false
}

impl Grammar {
    /// Build a grammar from raw names: a goal name, the declared
    /// non-terminal names, and `(head, body)` pairs.  Body names in the
    /// declared set become non-terminals, all others terminals.  Rejected
    /// with `InvalidGrammar`: an undeclared goal or head, or a reserved name
    /// among the declared non-terminals.
    pub fn new_simple(goal: &str, non_terminals: Vec<&str>, prods: Vec<(&str, Vec<&str>)>) -> (r:
        Result<Grammar, LrError>)
        ensures
            r is Ok <==> simple_ok(goal, non_terminals@, prods@),
            r is Err ==> r == Result::<Grammar, LrError>::Err(LrError::InvalidGrammar),
            r is Ok ==> ({
                let g = r->Ok_0;
                let d = str_views(non_terminals@).to_set();
                &&& g.wf()
                &&& g@.goal == SymbolV::NT(goal@)
                &&& g@.prods == prods@.map_values(|p: (&str, Vec<&str>)| simple_prod_v(d, p))
            }),
    {
        let ghost d = str_views(non_terminals@).to_set();
        if !str_in(&non_terminals, goal) {
            return Result::Err(LrError::InvalidGrammar);
        }
        if str_in(&non_terminals, "EOF") || str_in(&non_terminals, "LAMBDA") || str_in(
            &non_terminals,
            "FAKE_GOAL",
        ) {
            return Result::Err(LrError::InvalidGrammar);
        }
        let mut i: usize = 0;
        while i < prods.len()
            invariant
                0 <= i <= prods@.len(),
                d == str_views(non_terminals@).to_set(),
                forall|k: int| 0 <= k < i ==> d.contains((#[trigger] prods@[k]).0@),
            decreases prods@.len() - i,
        {
            if !str_in(&non_terminals, prods[i].0) {
                return Result::Err(LrError::InvalidGrammar);
            }
            i += 1;
        }
        // Accepted: build the classified productions in order.
        let mut built: Vec<Production> = Vec::new();
        let mut i: usize = 0;
        while i < prods.len()
            invariant
                0 <= i <= prods@.len(),
                d == str_views(non_terminals@).to_set(),
                forall|k: int| 0 <= k < prods@.len() ==> d.contains((#[trigger] prods@[k]).0@),
                prod_views(built@) == prods@.take(i as int).map_values(
                    |p: (&str, Vec<&str>)| simple_prod_v(d, p),
                ),
            decreases prods@.len() - i,
        {
            let head = Symbol::new_nt(prods[i].0);
            let body_names = &prods[i].1;
            let mut body: Vec<Symbol> = Vec::new();
            let mut j: usize = 0;
            while j < body_names.len()
                invariant
                    0 <= j <= body_names@.len(),
                    0 <= i < prods@.len(),
                    d == str_views(non_terminals@).to_set(),
                    body_names == &prods@[i as int].1,
                    views(body@) == str_views(body_names@).take(j as int).map_values(
                        |n: Seq<char>| classify(d, n),
                    ),
                decreases body_names@.len() - j,
            {
                let ghost oldbody = body@;
                if str_in(&non_terminals, body_names[j]) {
                    body.push(Symbol::new_nt(body_names[j]));
                } else {
                    body.push(Symbol::new_t(body_names[j]));
                }
                proof {
                    crate::symbol::lemma_views_push(oldbody, body@.last());
                    assert(views(body@) =~= str_views(body_names@).take(j + 1).map_values(
                        |n: Seq<char>| classify(d, n),
                    ));
                }
                j += 1;
            }
            let ghost oldbuilt = built@;
            built.push(Production::new(head, body));
            proof {
                crate::production::lemma_prod_views_push(oldbuilt, built@.last());
                assert(str_views(prods@[i as int].1@).take(str_views(prods@[i as int].1@).len() as int)
                    =~= str_views(prods@[i as int].1@));
                assert(prod_views(built@) =~~= prods@.take(i + 1).map_values(
                    |p: (&str, Vec<&str>)| simple_prod_v(d, p),
                ));
            }
            i += 1;
        }
        proof {
            assert(prods@.take(prods@.len() as int) =~= prods@);
            assert forall|k: int| 0 <= k < built@.len() implies (#[trigger] prod_views(
                built@,
            )[k]).from.is_nt() by {
                assert(prod_views(built@)[k] == simple_prod_v(d, prods@[k]));
            }
        }
        Result::Ok(Grammar::new(Symbol::new_nt(goal), built))
    }
}

/// Keep terminals (`want_t`) or non-terminals.
pub open spec fn keep_kind(want_t: bool, s: SymbolV) -> bool {
    if want_t {
        s.is_t()
    } else {
        s.is_nt()
    }
}

/// The subsequence of symbols of one kind.
pub open spec fn filter_kind(s: Seq<SymbolV>, want_t: bool) -> Seq<SymbolV>
    decreases s.len(),
{
    if s.len() == 0 {
        Seq::empty()
    } else {
        let r = filter_kind(s.drop_last(), want_t);
        if keep_kind(want_t, s.last()) {
            r.push(s.last())
        } else {
            r
        }
    }
}

/// First-occurrence deduplication.
pub open spec fn dedup_first(s: Seq<SymbolV>) -> Seq<SymbolV>
    decreases s.len(),
{
    if s.len() == 0 {
        Seq::empty()
    } else {
        let r = dedup_first(s.drop_last());
        if r.contains(s.last()) {
            r
        } else {
            r.push(s.last())
        }
    }
}

/// Deduplication keeps the set of elements and removes duplicates.
pub proof fn lemma_dedup_first(s: Seq<SymbolV>)
    ensures
        dedup_first(s).no_duplicates(),
        dedup_first(s).to_set() =~= s.to_set(),
    decreases s.len(),
{
    broadcast use vstd::seq_lib::group_seq_properties;

    if s.len() > 0 {
        lemma_dedup_first(s.drop_last());
        let r = dedup_first(s.drop_last());
        assert(s.drop_last().push(s.last()) =~= s);
        s.drop_last().lemma_push_to_set_commute(s.last());
        if r.contains(s.last()) {
            assert(r.to_set().contains(s.last()));
            assert(r.to_set() =~= s.drop_last().to_set().insert(s.last()));
        } else {
            r.lemma_push_to_set_commute(s.last());
        }
    }
}

/// Filtering keeps exactly the elements of the kept kind.
pub proof fn lemma_filter_kind(s: Seq<SymbolV>, want_t: bool)
    ensures
        filter_kind(s, want_t).to_set() =~= Set::new(
            |x: SymbolV| keep_kind(want_t, x) && s.contains(x),
        ),
    decreases s.len(),
{
    broadcast use vstd::seq_lib::group_seq_properties;

    if s.len() > 0 {
        lemma_filter_kind(s.drop_last(), want_t);
        let r = filter_kind(s.drop_last(), want_t);
        assert(s.drop_last().push(s.last()) =~= s);
        assert forall|x: SymbolV| s.contains(x) implies (x == s.last() || s.drop_last().contains(
            x,
        )) by {
            let i = choose|i: int| 0 <= i < s.len() && s[i] == x;
            if i < s.len() - 1 {
                assert(s.drop_last()[i] == x);
            }
        }
        if keep_kind(want_t, s.last()) {
            r.lemma_push_to_set_commute(s.last());
        }
    }
}

/// Symbols of one kind in collection order, first occurrence kept.
fn filter_syms(v: &Vec<Symbol>, want_t: bool) -> (r: Vec<Symbol>)
    ensures
        views(r@).no_duplicates(),
        views(r@) == dedup_first(filter_kind(views(v@), want_t)),
        views(r@).to_set() == Set::new(
            |x: SymbolV| keep_kind(want_t, x) && views(v@).contains(x),
        ),
{
    let mut acc: Vec<Symbol> = Vec::new();
    let mut i: usize = 0;
    proof {
        assert(views(v@).take(0) =~= Seq::<SymbolV>::empty());
    }
    while i < v.len()
        invariant
            0 <= i <= v.len(),
            views(acc@).no_duplicates(),
            views(acc@) == dedup_first(filter_kind(views(v@).take(i as int), want_t)),
        decreases v.len() - i,
    {
        let ghost pre = views(v@).take(i as int);
        let ghost x = views(v@)[i as int];
        proof {
            assert(views(v@).take(i + 1) =~= pre.push(x));
            assert(views(v@).take(i + 1).drop_last() =~= pre);
        }
        let kept = if want_t {
            v[i].is_terminal()
        } else {
            v[i].is_non_terminal()
        };
        if kept {
            let _ = insert_unique(&mut acc, &v[i]);
            proof {
                let f = filter_kind(views(v@).take(i + 1), want_t);
                assert(f =~= filter_kind(pre, want_t).push(x));
                assert(f.drop_last() =~= filter_kind(pre, want_t));
            }
        } else {
            proof {
                assert(filter_kind(views(v@).take(i + 1), want_t) =~= filter_kind(pre, want_t));
            }
        }
        i += 1;
    }
    proof {
        assert(views(v@).take(v@.len() as int) =~= views(v@));
        lemma_dedup_first(filter_kind(views(v@), want_t));
        lemma_filter_kind(views(v@), want_t);
    }
    acc
}

impl Grammar {
    /// The grammar's terminal symbols, in collection order, each once.
    pub fn terminals(&self) -> (r: Vec<Symbol>)
        ensures
            views(r@).no_duplicates(),
            views(r@) == dedup_first(filter_kind(self@.syms, true)),
            views(r@).to_set() == Set::new(|x: SymbolV| x.is_t() && self@.syms.contains(x)),
    {
        filter_syms(&self.symbols, true)
    }

    /// The grammar's non-terminal symbols, in collection order, each once.
    pub fn non_terminals(&self) -> (r: Vec<Symbol>)
        ensures
            views(r@).no_duplicates(),
            views(r@) == dedup_first(filter_kind(self@.syms, false)),
            views(r@).to_set() == Set::new(|x: SymbolV| x.is_nt() && self@.syms.contains(x)),
    {
        filter_syms(&self.symbols, false)
    }

    /// Indices of the productions whose head is `from`, in definition order.
    /// `None` for a terminal or a non-terminal without productions.
    pub fn get_prods(&self, from: &Symbol) -> (r: Option<Vec<usize>>)
        ensures
            match r {
                Option::None => from@.is_t() || head_indices(self@.prods, from@).len() == 0,
                Option::Some(v) => {
                    &&& from@.is_nt()
                    &&& v@.len() > 0
                    &&& v@.map_values(|u: usize| u as int) == head_indices(self@.prods, from@)
                },
            },
    {
        if from.is_terminal() {
            return Option::None;
        }
        let ghost pv = prod_views(self.productions@);
        let mut acc: Vec<usize> = Vec::new();
        let mut i: usize = 0;
        proof {
            assert(acc@.map_values(|u: usize| u as int) =~= head_indices(pv.take(0), from@));
        }
        while i < self.productions.len()
            invariant
                0 <= i <= self.productions@.len(),
                pv == prod_views(self.productions@),
                acc@.map_values(|u: usize| u as int) == head_indices(pv.take(i as int), from@),
            decreases self.productions@.len() - i,
        {
            proof {
                assert(pv.take(i + 1).drop_last() =~= pv.take(i as int));
            }
            if self.productions[i].from.sym_eq(from) {
                acc.push(i);
                proof {
                    assert(acc@.map_values(|u: usize| u as int) =~= head_indices(
                        pv.take(i + 1),
                        from@,
                    ));
                }
            } else {
                proof {
                    assert(head_indices(pv.take(i + 1), from@) =~= head_indices(
                        pv.take(i as int),
                        from@,
                    ));
                }
            }
            i += 1;
        }
        proof {
            assert(pv.take(pv.len() as int) =~= pv);
        }
        if acc.len() == 0 {
            Option::None
        } else {
            Option::Some(acc)
        }
    }

    /// The FIRST walk over a sequence of symbols, each of which must be a
    /// symbol of the grammar (or `EOF` / `LAMBDA`).  `None` exactly for the
    /// empty sequence, whose walk is undefined.
    pub fn first_of(&self, symbols: &Vec<Symbol>) -> (r: Option<Vec<Symbol>>)
        requires
            self.wf(),
            forall|i: int|
                0 <= i < symbols@.len() ==> self@.first.dom().contains(
                    #[trigger] views(symbols@)[i],
                ),
        ensures
            match r {
                Option::None => symbols@.len() == 0,
                Option::Some(v) => {
                    &&& symbols@.len() > 0
                    &&& views(v@).no_duplicates()
                    &&& views(v@).to_set() == walk(self@.first, views(symbols@))
                },
            },
    {
        if symbols.len() == 0 {
            return Option::None;
        }
        proof {
            assert forall|i: int| 0 <= i < symbols@.len() implies views(
                self.first_keys@,
            ).contains(#[trigger] views(symbols@)[i]) by {
                lemma_find_pos(views(self.first_keys@), views(symbols@)[i]);
            }
        }
        Option::Some(first_walk(&self.first_keys, &self.first_vals, symbols))
    }
}

/// Law: FIRST of a terminal is exactly the singleton of that terminal,
/// `EOF` and `LAMBDA` included.
pub proof fn lemma_first_of_terminal(g: GrammarV, t: SymbolV)
    requires
        gram_wf(g),
        g.first.dom().contains(t),
        t.is_t(),
    ensures
        g.first[t] == set![t],
{
}

/// Law: for every production `A -> alpha`, the FIRST walk of `alpha` is
/// contained in `FIRST(A)`.
pub proof fn lemma_first_of_production(g: GrammarV, i: int)
    requires
        gram_wf(g),
        0 <= i < g.prods.len(),
    ensures
        walk(g.first, g.prods[i].to).subset_of(g.first[g.prods[i].from]),
{
}

/// Initial rows: a terminal's row is its singleton, a non-terminal's is
/// empty.
spec fn init_rows(keys: Seq<SymbolV>, vals: Seq<Seq<SymbolV>>) -> bool {
    forall|p: int|
        0 <= p < keys.len() ==> if (#[trigger] keys[p]).is_t() {
            vals[p] == seq![keys[p]]
        } else {
            vals[p] == Seq::<SymbolV>::empty()
        }
}

/// Every row is below the matching entry of `m2`.
spec fn rows_below(keys: Seq<SymbolV>, vals: Seq<Seq<SymbolV>>, m2: FirstMap) -> bool {
    forall|p: int|
        0 <= p < keys.len() ==> (#[trigger] vals[p]).to_set().subset_of(m2[keys[p]])
}

/// A candidate map the least fixed point must lie below: same domain, seeded
/// terminals, absorbs the recurrence.
spec fn lfp_target(prods: Seq<ProductionV>, dom: Set<SymbolV>, m2: FirstMap) -> bool {
    &&& m2.dom() == dom
    &&& first_tbase(m2)
    &&& first_closed(prods, m2)
}

/// Add `s` to the key list if absent, with its initial row.
fn push_key(keys: &mut Vec<Symbol>, vals: &mut Vec<Vec<Symbol>>, s: &Symbol)
    requires
        views(old(keys)@).no_duplicates(),
        old(vals)@.len() == old(keys)@.len(),
        init_rows(views(old(keys)@), row_views(old(vals)@)),
    ensures
        views(final(keys)@).no_duplicates(),
        final(vals)@.len() == final(keys)@.len(),
        init_rows(views(final(keys)@), row_views(final(vals)@)),
        views(final(keys)@).to_set() == views(old(keys)@).to_set().insert(s@),
{
    let ghost oldkeys = views(keys@);
    let grew = insert_unique(keys, s);
    if grew {
        let mut row: Vec<Symbol> = Vec::new();
        if s.is_terminal() {
            row.push(s.dup());
        }
        vals.push(row);
        proof {
            assert(views(keys@) =~= oldkeys.push(s@));
            assert(row_views(vals@) =~= row_views(old(vals)@).push(views(row@)));
            if s@.is_t() {
                assert(views(row@) =~= seq![s@]);
            } else {
                assert(views(row@) =~= Seq::<SymbolV>::empty());
            }
            assert forall|p: int| 0 <= p < views(keys@).len() implies (if (
            #[trigger] views(keys@)[p]).is_t() {
                row_views(vals@)[p] == seq![views(keys@)[p]]
            } else {
                row_views(vals@)[p] == Seq::<SymbolV>::empty()
            }) by {
                if p < oldkeys.len() {
                    assert(views(keys@)[p] == oldkeys[p]);
                    assert(row_views(vals@)[p] == row_views(old(vals)@)[p]);
                }
            }
        }
    }
}

/// The FIRST walk over a non-empty `alpha`, computed from the key/value
/// representation.
fn first_walk(keys: &Vec<Symbol>, vals: &Vec<Vec<Symbol>>, alpha: &Vec<Symbol>) -> (r: Vec<Symbol>)
    requires
        views(keys@).no_duplicates(),
        vals@.len() == keys@.len(),
        forall|k: int| 0 <= k < vals@.len() ==> views((#[trigger] vals@[k])@).no_duplicates(),
        alpha@.len() > 0,
        forall|i: int| 0 <= i < alpha@.len() ==> views(keys@).contains(#[trigger] views(alpha@)[i]),
    ensures
        views(r@).no_duplicates(),
        views(r@).to_set() == walk(map_of(views(keys@), row_views(vals@)), views(alpha@)),
{
    let ghost m = map_of(views(keys@), row_views(vals@));
    let ghost av = views(alpha@);
    let lam = Symbol::lambda();
    let mut acc: Vec<Symbol> = Vec::new();
    let mut i: usize = 0;
    proof {
        assert(av.subrange(0, av.len() as int) =~= av);
        assert(views(acc@).to_set() =~= Set::<SymbolV>::empty());
        assert(views(acc@).to_set().union(walk(m, av)) =~= walk(m, av));
    }
    loop
        invariant
            0 <= i < alpha@.len(),
            views(keys@).no_duplicates(),
            vals@.len() == keys@.len(),
            forall|k: int| 0 <= k < vals@.len() ==> views((#[trigger] vals@[k])@).no_duplicates(),
            forall|j: int|
                0 <= j < alpha@.len() ==> views(keys@).contains(#[trigger] views(alpha@)[j]),
            m == map_of(views(keys@), row_views(vals@)),
            av == views(alpha@),
            lam@ == lambda_v(),
            views(acc@).no_duplicates(),
            walk(m, av) == views(acc@).to_set().union(walk(m, av.subrange(i as int, av.len() as int))),
        ensures
            views(acc@).no_duplicates(),
            views(acc@).to_set() == walk(m, av),
        decreases alpha@.len() - i,
    {
        let p = match find_key(keys, &alpha[i]) {
            Option::Some(p) => p,
            Option::None => {
                proof {
                    lemma_find_pos(views(keys@), av[i as int]);
                }
                vstd::pervasive::unreached()
            },
        };
        let ghost suffix = av.subrange(i as int, av.len() as int);
        proof {
            assert(suffix[0] == av[i as int]);
            assert(m.dom() =~= Set::new(|k: SymbolV| find_pos(views(keys@), k) >= 0));
            assert(m[av[i as int]] == row_views(vals@)[p as int].to_set());
            assert(row_views(vals@)[p as int] == views(vals@[p as int]@));
        }
        let row = &vals[p];
        if !syms_contain(row, &lam) {
            // The walk stops here and takes the whole row.
            proof {
                assert(!m[av[i as int]].contains(lambda_v()));
                assert(walk(m, suffix) == m[av[i as int]]);
            }
            let _ = union_into(&mut acc, row);
            proof {
                assert(views(acc@).to_set() =~= walk(m, av));
            }
            return acc;
        }
        if i == alpha.len() - 1 {
            // Last symbol: keep its whole row, `LAMBDA` included.
            proof {
                assert(suffix.len() == 1);
                assert(walk(m, suffix) == m[av[i as int]]);
            }
            let _ = union_into(&mut acc, row);
            proof {
                assert(views(acc@).to_set() =~= walk(m, av));
            }
            return acc;
        }
        // Nullable: contribute the row minus `LAMBDA` and walk on.
        proof {
            assert(m[av[i as int]].contains(lambda_v()));
            assert(suffix.len() > 1);
            assert(suffix.drop_first() =~= av.subrange(i + 1, av.len() as int));
            assert(walk(m, suffix) == m[av[i as int]].remove(lambda_v()).union(
                walk(m, av.subrange(i + 1, av.len() as int)),
            ));
        }
        union_minus_lambda(&mut acc, row);
        proof {
            assert(views(acc@).to_set().union(walk(m, av.subrange(i + 1, av.len() as int)))
                =~= walk(m, av));
        }
        i += 1;
    }
}

/// The ensures of [`calc_first`]: the represented map is the least fixed
/// point of the FIRST recurrence.
pub open spec fn first_map_ok(
    goal: SymbolV,
    pv: Seq<ProductionV>,
    keys: Seq<SymbolV>,
    vals: Seq<Seq<SymbolV>>,
) -> bool {
    let m = map_of(keys, vals);
    &&& keys.no_duplicates()
    &&& vals.len() == keys.len()
    &&& forall|k: int| 0 <= k < vals.len() ==> (#[trigger] vals[k]).no_duplicates()
    &&& keys.to_set() == gsyms(goal, pv)
    &&& m.dom() == gsyms(goal, pv)
    &&& entries_ok(m)
    &&& forall|s: SymbolV| m.dom().contains(s) && s.is_t() ==> (#[trigger] m[s]) == set![s]
    &&& first_closed(pv, m)
    &&& first_least(pv, m)
}

/// Compute the FIRST map: seed the terminals, then iterate the recurrence to
/// its least fixed point.
fn calc_first(goal: &Symbol, prods: &Vec<Production>) -> (r: (Vec<Symbol>, Vec<Vec<Symbol>>))
    requires
        forall|i: int|
            0 <= i < prods@.len() ==> (#[trigger] prod_views(prods@)[i]).from.is_nt(),
    ensures
        first_map_ok(goal@, prod_views(prods@), views(r.0@), row_views(r.1@)),
{
    broadcast use vstd::seq_lib::group_seq_properties;

    let ghost pv = prod_views(prods@);
    let mut keys: Vec<Symbol> = Vec::new();
    let mut vals: Vec<Vec<Symbol>> = Vec::new();
    push_key(&mut keys, &mut vals, &Symbol::eof());
    push_key(&mut keys, &mut vals, &Symbol::lambda());
    push_key(&mut keys, &mut vals, goal);
    let mut pi: usize = 0;
    while pi < prods.len()
        invariant
            0 <= pi <= prods@.len(),
            pv == prod_views(prods@),
            views(keys@).no_duplicates(),
            vals@.len() == keys@.len(),
            init_rows(views(keys@), row_views(vals@)),
            views(keys@).to_set() =~= Set::new(
                |s: SymbolV|
                    s == eof_v() || s == lambda_v() || s == goal@ || exists|i: int|
                        0 <= i < pi && ((#[trigger] pv[i]).from == s || pv[i].to.contains(s)),
            ),
        decreases prods@.len() - pi,
    {
        push_key(&mut keys, &mut vals, &prods[pi].from);
        let body = &prods[pi].to;
        let mut bj: usize = 0;
        while bj < body.len()
            invariant
                0 <= bj <= body@.len(),
                0 <= pi < prods@.len(),
                pv == prod_views(prods@),
                body == &prods@[pi as int].to,
                views(keys@).no_duplicates(),
                vals@.len() == keys@.len(),
                init_rows(views(keys@), row_views(vals@)),
                views(keys@).to_set() =~= Set::new(
                    |s: SymbolV|
                        s == eof_v() || s == lambda_v() || s == goal@ || (exists|i: int|
                            0 <= i < pi && ((#[trigger] pv[i]).from == s || pv[i].to.contains(s)))
                            || pv[pi as int].from == s || exists|j: int|
                            0 <= j < bj && pv[pi as int].to[j] == s,
                ),
            decreases body@.len() - bj,
        {
            push_key(&mut keys, &mut vals, &body[bj]);
            proof {
                assert(pv[pi as int].to[bj as int] == views(body@)[bj as int]);
            }
            bj += 1;
        }
        proof {
            let s_inner = Set::new(
                |s: SymbolV|
                    s == eof_v() || s == lambda_v() || s == goal@ || (exists|i: int|
                        0 <= i < pi && ((#[trigger] pv[i]).from == s || pv[i].to.contains(s)))
                        || pv[pi as int].from == s || exists|j: int|
                        0 <= j < pv[pi as int].to.len() && pv[pi as int].to[j] == s,
            );
            let s_next = Set::new(
                |s: SymbolV|
                    s == eof_v() || s == lambda_v() || s == goal@ || exists|i: int|
                        0 <= i < pi + 1 && ((#[trigger] pv[i]).from == s || pv[i].to.contains(s)),
            );
            assert forall|s: SymbolV| s_inner.contains(s) implies s_next.contains(s) by {
                if pv[pi as int].from == s {
                    assert(pv[pi as int].from == s || pv[pi as int].to.contains(s));
                } else if exists|j: int| 0 <= j < pv[pi as int].to.len() && pv[pi as int].to[j]
                    == s {
                    assert(pv[pi as int].to.contains(s));
                }
            }
            assert forall|s: SymbolV| s_next.contains(s) implies s_inner.contains(s) by {
                if !(s == eof_v() || s == lambda_v() || s == goal@) {
                    let i = choose|i: int|
                        0 <= i < pi + 1 && ((#[trigger] pv[i]).from == s || pv[i].to.contains(s));
                    if i == pi as int && pv[i].from != s {
                        let j = choose|j: int| 0 <= j < pv[i].to.len() && pv[i].to[j] == s;
                    }
                }
            }
            assert(s_inner =~= s_next);
            assert(views(keys@).to_set() =~= s_next);
        }
        pi += 1;
    }
    proof {
        assert(views(keys@).to_set() =~= gsyms(goal@, pv));
    }
    // The seeded map: establish the invariants of the fixed-point iteration.
    let ghost keys0 = views(keys@);
    let ghost dom0 = map_of(views(keys@), row_views(vals@)).dom();
    let ghost kk = keys@.len() as int;
    proof {
        lemma_map_of_props(views(keys@), row_views(vals@));
        assert(dom0 =~= keys0.to_set()) by {
            assert forall|k: SymbolV| keys0.contains(k) <==> dom0.contains(k) by {
                lemma_find_pos(keys0, k);
            }
        }
        assert forall|k: int| 0 <= k < row_views(vals@).len() implies (#[trigger] row_views(
            vals@,
        )[k]).no_duplicates() by {
            if keys0[k].is_t() {
                assert(row_views(vals@)[k] == seq![keys0[k]]);
            } else {
                assert(row_views(vals@)[k] == Seq::<SymbolV>::empty());
            }
        }
        // Initially every row has at most one element.
        assert(0 <= sum_lens(row_views(vals@)) <= kk * kk) by {
            assert forall|k: int| 0 <= k < row_views(vals@).len() implies (#[trigger] row_views(
                vals@,
            )[k]).len() <= 1 by {
                if keys0[k].is_t() {
                    assert(row_views(vals@)[k] == seq![keys0[k]]);
                } else {
                    assert(row_views(vals@)[k] == Seq::<SymbolV>::empty());
                }
            }
            lemma_sum_lens_bound(row_views(vals@), 1);
            lemma_sum_lens_nonneg(row_views(vals@));
            assert(kk >= 1) by {
                assert(views(keys@).to_set().contains(eof_v()));
                assert(views(keys@).contains(eof_v()));
            }
            assert(kk * 1 <= kk * kk) by (nonlinear_arith)
                requires
                    kk >= 1,
            ;
        }
    }
    let mut changed = true;
    while changed
        invariant
            pv == prod_views(prods@),
            forall|i: int| 0 <= i < pv.len() ==> (#[trigger] pv[i]).from.is_nt(),
            views(keys@) == keys0,
            keys0.no_duplicates(),
            vals@.len() == keys@.len(),
            forall|k: int|
                0 <= k < row_views(vals@).len() ==> (#[trigger] row_views(
                    vals@,
                )[k]).no_duplicates(),
            keys0.to_set() == gsyms(goal@, pv),
            dom0 == map_of(keys0, row_views(vals@)).dom(),
            dom0 == keys0.to_set(),
            kk == keys@.len() as int,
            entries_ok(map_of(keys0, row_views(vals@))),
            forall|s: SymbolV|
                dom0.contains(s) && s.is_t() ==> (#[trigger] map_of(keys0, row_views(vals@))[s])
                    == set![s],
            forall|m2: FirstMap|
                lfp_target(pv, dom0, m2) ==> rows_below(keys0, row_views(vals@), m2),
            0 <= sum_lens(row_views(vals@)) <= kk * kk,
            !changed ==> first_closed(pv, map_of(keys0, row_views(vals@))),
        decreases
                kk * kk - sum_lens(row_views(vals@)),
                (if changed {
                    1int
                } else {
                    0int
                }),
    {
        changed = false;
        let ghost m_pass = map_of(keys0, row_views(vals@));
        let ghost sum_pass = sum_lens(row_views(vals@));
        let mut pi: usize = 0;
        while pi < prods.len()
            invariant
                0 <= pi <= prods@.len(),
                pv == prod_views(prods@),
                forall|i: int| 0 <= i < pv.len() ==> (#[trigger] pv[i]).from.is_nt(),
                views(keys@) == keys0,
                keys0.no_duplicates(),
                vals@.len() == keys@.len(),
                forall|k: int|
                    0 <= k < row_views(vals@).len() ==> (#[trigger] row_views(
                        vals@,
                    )[k]).no_duplicates(),
                keys0.to_set() == gsyms(goal@, pv),
                dom0 == map_of(keys0, row_views(vals@)).dom(),
                dom0 == keys0.to_set(),
                kk == keys@.len() as int,
                entries_ok(map_of(keys0, row_views(vals@))),
                forall|s: SymbolV|
                    dom0.contains(s) && s.is_t() ==> (#[trigger] map_of(
                        keys0,
                        row_views(vals@),
                    )[s]) == set![s],
                forall|m2: FirstMap|
                    lfp_target(pv, dom0, m2) ==> rows_below(keys0, row_views(vals@), m2),
                0 <= sum_lens(row_views(vals@)) <= kk * kk,
                sum_lens(row_views(vals@)) >= sum_pass,
                changed ==> sum_lens(row_views(vals@)) > sum_pass,
                !changed ==> map_of(keys0, row_views(vals@)) == m_pass && forall|j: int|
                    0 <= j < pi ==> walk(m_pass, (#[trigger] pv[j]).to).subset_of(
                        m_pass[pv[j].from],
                    ),
            decreases prods@.len() - pi,
        {
            let ghost m_cur = map_of(keys0, row_views(vals@));
            let ghost body = pv[pi as int].to;
            if prods[pi].to.len() > 0 {
                proof {
                    assert(body == views(prods@[pi as int].to@));
                    assert forall|j: int| 0 <= j < body.len() implies views(keys@).contains(
                        #[trigger] body[j],
                    ) by {
                        assert(gsyms(goal@, pv).contains(body[j]));
                        assert(keys0.to_set().contains(body[j]));
                    }
                    assert forall|k: int| 0 <= k < vals@.len() implies views(
                        (#[trigger] vals@[k])@,
                    ).no_duplicates() by {
                        assert(row_views(vals@)[k] == views(vals@[k]@));
                    }
                }
                let rhs = first_walk(&keys, &vals, &prods[pi].to);
                let hp = match find_key(&keys, &prods[pi].from) {
                    Option::Some(p) => p,
                    Option::None => {
                        proof {
                            assert(gsyms(goal@, pv).contains(pv[pi as int].from));
                            assert(keys0.to_set().contains(pv[pi as int].from));
                            lemma_find_pos(keys0, pv[pi as int].from);
                        }
                        vstd::pervasive::unreached()
                    },
                };
                let ghost oldvals = vals@;
                let ghost oldrow = row_views(vals@)[hp as int];
                let mut row = vals.remove(hp);
                let g = union_into(&mut row, &rhs);
                let ghost newrow = views(row@);
                vals.insert(hp, row);
                if g {
                    changed = true;
                }
                proof {
                    assert(vals@ =~= oldvals.update(hp as int, vals@[hp as int]));
                    assert(row_views(vals@) =~= row_views(oldvals).update(hp as int, newrow));
                    lemma_map_of_update(keys0, row_views(oldvals), hp as int, newrow);
                    let m_new = map_of(keys0, row_views(vals@));
                    let head = keys0[hp as int];
                    assert(head == pv[pi as int].from);
                    assert(m_new == m_cur.insert(head, newrow.to_set()));
                    lemma_map_of_props(keys0, row_views(oldvals));
                    assert(m_cur[head] == oldrow.to_set());
                    // What the walk produced.
                    assert(views(rhs@).to_set() == walk(m_cur, body));
                    lemma_walk_elems(m_cur, body);
                    assert(newrow.to_set() =~= oldrow.to_set().union(walk(m_cur, body)));
                    // Domain is unchanged.
                    assert(m_new.dom() =~= m_cur.dom());
                    // Entries stay terminal and in-domain.
                    assert(entries_ok(m_new)) by {
                        assert forall|s: SymbolV, x: SymbolV|
                            m_new.dom().contains(s) && #[trigger] m_new[s].contains(x)
                                implies x.is_t() && m_new.dom().contains(x) by {
                            if s == head {
                                assert(m_new[s] == newrow.to_set());
                            } else {
                                assert(m_new[s] == m_cur[s]);
                            }
                        }
                        assert forall|s: SymbolV| m_new.dom().contains(s) implies (
                        #[trigger] m_new[s]).finite() by {
                            if s == head {
                            } else {
                                assert(m_new[s] == m_cur[s]);
                            }
                        }
                    }
                    // Terminal entries are untouched: the head is a non-terminal.
                    assert forall|s: SymbolV| dom0.contains(s) && s.is_t() implies (
                    #[trigger] m_new[s]) == set![s] by {
                        assert(head.is_nt());
                        assert(s != head);
                        assert(m_new[s] == m_cur[s]);
                    }
                    // Still below every candidate map.
                    assert forall|m2: FirstMap| lfp_target(pv, dom0, m2) implies rows_below(
                        keys0,
                        row_views(vals@),
                        m2,
                    ) by {
                        assert(rows_below(keys0, row_views(oldvals), m2));
                        assert(pointwise_le(m_cur, m2)) by {
                            assert forall|s: SymbolV| m_cur.dom().contains(s) implies (
                            #[trigger] m_cur[s]).subset_of(m2[s]) by {
                                lemma_find_pos(keys0, s);
                                let fp = find_pos(keys0, s);
                                assert(keys0[fp] == s);
                                assert(row_views(oldvals)[fp].to_set().subset_of(m2[keys0[fp]]));
                            }
                        }
                        lemma_walk_monotone(m_cur, m2, body);
                        assert(walk(m2, body).subset_of(m2[head]));
                        assert(newrow.to_set().subset_of(m2[head]));
                        assert forall|p: int| 0 <= p < keys0.len() implies (#[trigger] row_views(
                            vals@,
                        )[p]).to_set().subset_of(m2[keys0[p]]) by {
                            if p != hp as int {
                                assert(row_views(vals@)[p] == row_views(oldvals)[p]);
                            }
                        }
                    }
                    // Sizes: the sum never shrinks, and grows strictly on change.
                    lemma_sum_lens_update(row_views(oldvals), hp as int, newrow);
                    // Row bound: every row is a duplicate-free subset of the keys.
                    assert(sum_lens(row_views(vals@)) <= kk * kk) by {
                        assert forall|k: int| 0 <= k < row_views(vals@).len() implies (
                        #[trigger] row_views(vals@)[k]).len() <= kk by {
                            let rw = row_views(vals@)[k];
                            assert forall|e: int| 0 <= e < rw.len() implies keys0.to_set().contains(
                                #[trigger] rw[e],
                            ) by {
                                lemma_map_of_props(keys0, row_views(vals@));
                                assert(map_of(keys0, row_views(vals@))[keys0[k]] == rw.to_set());
                                assert(rw.to_set().contains(rw[e]));
                                assert(dom0.contains(keys0[k]));
                                assert(map_of(keys0, row_views(vals@))[keys0[k]].contains(rw[e]));
                            }
                            keys0.unique_seq_to_set();
                            lemma_no_dup_len_bound(rw, keys0.to_set());
                        }
                        lemma_sum_lens_bound(row_views(vals@), kk);
                        assert(row_views(vals@).len() * kk == kk * kk) by (nonlinear_arith)
                            requires
                                row_views(vals@).len() == kk,
                        ;
                    }
                    lemma_sum_lens_nonneg(row_views(vals@));
                    if !g {
                        assert(newrow == oldrow);
                        assert(row_views(vals@) =~= row_views(oldvals));
                        assert(m_new =~= m_cur);
                        assert(walk(m_cur, body).subset_of(oldrow.to_set()));
                        assert(walk(m_cur, body).subset_of(m_cur[head]));
                    }
                }
            } else {
                proof {
                    assert(walk(m_cur, pv[pi as int].to) =~= Set::<SymbolV>::empty());
                }
            }
            pi += 1;
        }
    }
    proof {
        let m = map_of(keys0, row_views(vals@));
        assert(first_least(pv, m)) by {
            assert forall|m2: FirstMap|
                (#[trigger] m2.dom()) == m.dom() && first_tbase(m2) && first_closed(pv, m2)
                    implies pointwise_le(m, m2) by {
                assert(lfp_target(pv, dom0, m2));
                assert(rows_below(keys0, row_views(vals@), m2));
                assert forall|s: SymbolV| m.dom().contains(s) implies (#[trigger] m[s]).subset_of(
                    m2[s],
                ) by {
                    lemma_find_pos(keys0, s);
                    let fp = find_pos(keys0, s);
                    assert(keys0[fp] == s);
                    assert(row_views(vals@)[fp].to_set().subset_of(m2[keys0[fp]]));
                }
            }
        }
        assert(m.dom() == gsyms(goal@, pv));
        assert(first_map_ok(goal@, pv, views(keys@), row_views(vals@)));
    }
    (keys, vals)
}

} // verus!
