//! The mathematical model of CLOSURE and GOTO on LR(1) item sets.
//!
//! `closure_sp` is defined as the least set containing the seed and closed
//! under the item-derivation rule: from `[A -> alpha . B beta, a]` derive
//! `[B -> . gamma, b]` for every production `B -> gamma` and every `b` in the
//! FIRST walk of `beta a`.

use vstd::prelude::*;
use crate::first::{lemma_walk_elems, walk};
use crate::grammar::{gram_wf, gsyms, GrammarV};
use crate::item::{
    item_advance, item_after_la, item_complete, item_stacktop, item_wf, ItemV,
};
use crate::sets::{
    lemma_mask_inj, lemma_mixed_radix, lemma_no_dup_int_range, mask_of, two_pow,
};
use crate::symbol::SymbolV;

verus! {

/// The closure rule: `d` is derived from `it` in grammar `g`.
pub open spec fn item_child(g: GrammarV, it: ItemV, d: ItemV) -> bool {
    &&& 0 <= it.prod < g.prods.len()
    &&& 0 <= it.dot < g.prods[it.prod].to.len()
    &&& g.prods[it.prod].to[it.dot].is_nt()
    &&& 0 <= d.prod < g.prods.len()
    &&& g.prods[d.prod].from == g.prods[it.prod].to[it.dot]
    &&& d.dot == 0
    &&& walk(g.first, item_after_la(g, it)).contains(d.la)
}

/// A set of items closed under the closure rule.
pub open spec fn closed(g: GrammarV, s: Set<ItemV>) -> bool {
    forall|it: ItemV, d: ItemV|
        #[trigger] s.contains(it) && #[trigger] item_child(g, it, d) ==> s.contains(d)
}

/// The least set containing `seed` and closed under the closure rule: the
/// intersection of all such sets.
pub open spec fn closure_sp(g: GrammarV, seed: Set<ItemV>) -> Set<ItemV> {
    Set::new(
        |x: ItemV|
            forall|j: Set<ItemV>|
                seed.subset_of(j) && closed(g, j) ==> #[trigger] j.contains(x),
    )
}

/// The seed lies in its closure.
pub proof fn lemma_closure_contains_seed(g: GrammarV, seed: Set<ItemV>)
    ensures
        seed.subset_of(closure_sp(g, seed)),
{
}

/// The closure lies in every closed superset of the seed.
pub proof fn lemma_closure_least(g: GrammarV, seed: Set<ItemV>, j: Set<ItemV>)
    requires
        seed.subset_of(j),
        closed(g, j),
    ensures
        closure_sp(g, seed).subset_of(j),
{
}

/// The closure is itself closed.
pub proof fn lemma_closure_closed(g: GrammarV, seed: Set<ItemV>)
    ensures
        closed(g, closure_sp(g, seed)),
{
    let cs = closure_sp(g, seed);
    assert forall|it: ItemV, d: ItemV|
        #[trigger] cs.contains(it) && #[trigger] item_child(g, it, d) implies cs.contains(d) by {
        assert forall|j: Set<ItemV>| seed.subset_of(j) && closed(g, j) implies #[trigger] j.contains(
            d,
        ) by {
            assert(j.contains(it));
        }
    }
}

/// Law: the closure of a closed set is that set; in particular re-running
/// CLOSURE on a closed set returns the same set.
pub proof fn lemma_closure_of_closed(g: GrammarV, s: Set<ItemV>)
    requires
        closed(g, s),
    ensures
        closure_sp(g, s) == s,
{
    lemma_closure_least(g, s, s);
    assert(closure_sp(g, s) =~= s);
}

/// Closure preserves item well-formedness.
pub proof fn lemma_closure_wf(g: GrammarV, seed: Set<ItemV>)
    requires
        gram_wf(g),
        forall|it: ItemV| seed.contains(it) ==> item_wf(g, it),
    ensures
        forall|x: ItemV| closure_sp(g, seed).contains(x) ==> item_wf(g, x),
{
    let wfset = Set::new(|x: ItemV| item_wf(g, x));
    assert(closed(g, wfset)) by {
        assert forall|it: ItemV, d: ItemV|
            #[trigger] wfset.contains(it) && #[trigger] item_child(g, it, d) implies wfset.contains(
            d,
        ) by {
            lemma_child_wf(g, it, d);
        }
    }
    lemma_closure_least(g, seed, wfset);
}

/// A derived item is well-formed whenever its parent is.
pub proof fn lemma_child_wf(g: GrammarV, it: ItemV, d: ItemV)
    requires
        gram_wf(g),
        item_wf(g, it),
        item_child(g, it, d),
    ensures
        item_wf(g, d),
{
    let alpha = item_after_la(g, it);
    assert forall|i: int| 0 <= i < alpha.len() implies g.first.dom().contains(
        #[trigger] alpha[i],
    ) by {
        if i < alpha.len() - 1 {
            let body = g.prods[it.prod].to;
            assert(alpha[i] == body[it.dot + 1 + i]);
            assert(gsyms(g.goal, g.prods).contains(body[it.dot + 1 + i])) by {
                assert(body.contains(body[it.dot + 1 + i]));
            }
        }
    }
    lemma_walk_elems(g.first, alpha);
}

/// The advance-kernel of a set under symbol `x`.
pub open spec fn kernel(g: GrammarV, s: Set<ItemV>, x: SymbolV) -> Set<ItemV> {
    Set::new(
        |d: ItemV|
            exists|it: ItemV|
                #[trigger] s.contains(it) && !item_complete(g, it) && item_stacktop(g, it)
                    == Option::Some(x) && d == item_advance(it),
    )
}

/// Law: CLOSURE and GOTO commute on a state: for a closed set `s`,
/// `GOTO(CLOSURE(s), x)` and `CLOSURE(GOTO(s, x))` are the same set, where
/// `GOTO(s, x) = CLOSURE(kernel(s, x))`.
pub proof fn lemma_goto_closure_commute(g: GrammarV, s: Set<ItemV>, x: SymbolV)
    requires
        closed(g, s),
    ensures
        closure_sp(g, kernel(g, closure_sp(g, s), x)) == closure_sp(
            g,
            closure_sp(g, kernel(g, s, x)),
        ),
{
    lemma_closure_of_closed(g, s);
    assert(kernel(g, closure_sp(g, s), x) == kernel(g, s, x));
    lemma_closure_closed(g, kernel(g, s, x));
    lemma_closure_of_closed(g, closure_sp(g, kernel(g, s, x)));
}

/// The longest production body.
pub open spec fn max_body(prods: Seq<ProductionVAlias>) -> int
    decreases prods.len(),
{
    if prods.len() == 0 {
        0
    } else {
        let r = max_body(prods.drop_last());
        if prods.last().to.len() > r {
            prods.last().to.len() as int
        } else {
            r
        }
    }
}

/// Alias so the signature above stays readable.
pub type ProductionVAlias = crate::production::ProductionV;

pub proof fn lemma_max_body(prods: Seq<ProductionVAlias>, i: int)
    requires
        0 <= i < prods.len(),
    ensures
        prods[i].to.len() <= max_body(prods),
        0 <= max_body(prods),
    decreases prods.len(),
{
    if prods.len() > 0 {
        if i < prods.len() - 1 {
            lemma_max_body(prods.drop_last(), i);
        } else {
            if prods.len() >= 2 {
                lemma_max_body(prods.drop_last(), 0);
            }
        }
    }
}

pub proof fn lemma_max_body_nonneg(prods: Seq<ProductionVAlias>)
    ensures
        0 <= max_body(prods),
    decreases prods.len(),
{
    if prods.len() > 0 {
        lemma_max_body_nonneg(prods.drop_last());
    }
}

/// An injective code for well-formed items, over the key order of the FIRST
/// map.
pub open spec fn item_code(g: GrammarV, keys: Seq<SymbolV>, it: ItemV) -> int {
    (it.prod * (max_body(g.prods) + 1) + it.dot) * keys.len() + crate::sets::find_pos(keys, it.la)
}

/// The number of distinct well-formed items.
pub open spec fn item_bound(g: GrammarV, keys: Seq<SymbolV>) -> int {
    g.prods.len() * (max_body(g.prods) + 1) * keys.len()
}

/// The code of a well-formed item is within the bound.
pub proof fn lemma_item_code_range(g: GrammarV, keys: Seq<SymbolV>, it: ItemV)
    requires
        item_wf(g, it),
        keys.contains(it.la),
    ensures
        0 <= item_code(g, keys, it) < item_bound(g, keys),
{
    crate::sets::lemma_find_pos(keys, it.la);
    lemma_max_body(g.prods, it.prod);
    let lb = max_body(g.prods) + 1;
    let kl = keys.len() as int;
    let fp = crate::sets::find_pos(keys, it.la);
    assert(0 <= it.prod * lb + it.dot < g.prods.len() * lb) by (nonlinear_arith)
        requires
            0 <= it.prod < g.prods.len(),
            0 <= it.dot < lb,
            1 <= lb,
    ;
    assert(0 <= (it.prod * lb + it.dot) * kl + fp && (it.prod * lb + it.dot) * kl + fp
        < (g.prods.len() * lb) * kl) by (nonlinear_arith)
        requires
            0 <= it.prod * lb + it.dot,
            it.prod * lb + it.dot <= g.prods.len() * lb - 1,
            0 <= fp < kl,
    ;
    assert((g.prods.len() * lb) * kl == g.prods.len() * lb * kl) by (nonlinear_arith);
}

/// Distinct well-formed items have distinct codes.
pub proof fn lemma_item_code_inj(g: GrammarV, keys: Seq<SymbolV>, it1: ItemV, it2: ItemV)
    requires
        item_wf(g, it1),
        item_wf(g, it2),
        keys.contains(it1.la),
        keys.contains(it2.la),
        item_code(g, keys, it1) == item_code(g, keys, it2),
    ensures
        it1 == it2,
{
    crate::sets::lemma_find_pos(keys, it1.la);
    crate::sets::lemma_find_pos(keys, it2.la);
    let lb = max_body(g.prods) + 1;
    let kl = keys.len() as int;
    lemma_max_body(g.prods, it1.prod);
    lemma_max_body(g.prods, it2.prod);
    lemma_mixed_radix(
        it1.prod * lb + it1.dot,
        crate::sets::find_pos(keys, it1.la),
        it2.prod * lb + it2.dot,
        crate::sets::find_pos(keys, it2.la),
        kl,
    );
    lemma_mixed_radix(it1.prod, it1.dot, it2.prod, it2.dot, lb);
    assert(it1.la == it2.la) by {
        crate::sets::lemma_find_pos(keys, it1.la);
        crate::sets::lemma_find_pos(keys, it2.la);
    }
    assert(it1 =~= it2);
}

/// A duplicate-free list of well-formed items is no longer than the item
/// bound.
pub proof fn lemma_items_len_bound(g: GrammarV, keys: Seq<SymbolV>, s: Seq<ItemV>)
    requires
        s.no_duplicates(),
        forall|i: int| 0 <= i < s.len() ==> item_wf(g, #[trigger] s[i]),
        forall|i: int| 0 <= i < s.len() ==> keys.contains((#[trigger] s[i]).la),
    ensures
        s.len() <= item_bound(g, keys),
{
    let codes = s.map_values(|it: ItemV| item_code(g, keys, it));
    assert(codes.no_duplicates()) by {
        assert forall|i: int, j: int|
            0 <= i < codes.len() && 0 <= j < codes.len() && i != j implies codes[i] != codes[j] by {
            if codes[i] == codes[j] {
                lemma_item_code_inj(g, keys, s[i], s[j]);
            }
        }
    }
    assert forall|i: int| 0 <= i < codes.len() implies 0 <= #[trigger] codes[i] < item_bound(
        g,
        keys,
    ) by {
        lemma_item_code_range(g, keys, s[i]);
    }
    if item_bound(g, keys) < 0 {
        lemma_item_bound_nonneg(g, keys);
    }
    lemma_no_dup_int_range(codes, item_bound(g, keys));
}

pub proof fn lemma_item_bound_nonneg(g: GrammarV, keys: Seq<SymbolV>)
    ensures
        0 <= item_bound(g, keys),
{
    lemma_max_body_nonneg(g.prods);
    let lb = max_body(g.prods) + 1;
    assert(0 <= g.prods.len() * lb * keys.len()) by (nonlinear_arith)
        requires
            1 <= lb,
    ;
}

/// The set of codes of a state's items.
pub open spec fn state_codes(g: GrammarV, keys: Seq<SymbolV>, s: Set<ItemV>) -> Set<int> {
    s.map(|it: ItemV| item_code(g, keys, it))
}

/// The characteristic number of a state.
pub open spec fn state_mask(g: GrammarV, keys: Seq<SymbolV>, s: Set<ItemV>) -> int {
    mask_of(state_codes(g, keys, s), item_bound(g, keys))
}

/// States of well-formed items with equal masks are equal sets.
pub proof fn lemma_state_mask_inj(g: GrammarV, keys: Seq<SymbolV>, s1: Set<ItemV>, s2: Set<ItemV>)
    requires
        forall|it: ItemV| #[trigger] s1.contains(it) ==> item_wf(g, it) && keys.contains(it.la),
        forall|it: ItemV| #[trigger] s2.contains(it) ==> item_wf(g, it) && keys.contains(it.la),
        state_mask(g, keys, s1) == state_mask(g, keys, s2),
    ensures
        s1 =~= s2,
{
    let c1 = state_codes(g, keys, s1);
    let c2 = state_codes(g, keys, s2);
    assert forall|c: int| #[trigger] c1.contains(c) implies 0 <= c < item_bound(g, keys) by {
        let it = choose|it: ItemV| s1.contains(it) && item_code(g, keys, it) == c;
        lemma_item_code_range(g, keys, it);
    }
    assert forall|c: int| #[trigger] c2.contains(c) implies 0 <= c < item_bound(g, keys) by {
        let it = choose|it: ItemV| s2.contains(it) && item_code(g, keys, it) == c;
        lemma_item_code_range(g, keys, it);
    }
    lemma_mask_inj(c1, c2, item_bound(g, keys));
    assert forall|it: ItemV| s1.contains(it) implies s2.contains(it) by {
        assert(c1.contains(item_code(g, keys, it)));
        assert(c2.contains(item_code(g, keys, it)));
        let it2 = choose|it2: ItemV| s2.contains(it2) && item_code(g, keys, it2) == item_code(
            g,
            keys,
            it,
        );
        lemma_item_code_inj(g, keys, it, it2);
    }
    assert forall|it: ItemV| s2.contains(it) implies s1.contains(it) by {
        assert(c2.contains(item_code(g, keys, it)));
        assert(c1.contains(item_code(g, keys, it)));
        let it1 = choose|it1: ItemV| s1.contains(it1) && item_code(g, keys, it1) == item_code(
            g,
            keys,
            it,
        );
        lemma_item_code_inj(g, keys, it, it1);
    }
}

/// A list of pairwise-distinct states of well-formed items is no longer than
/// two to the item bound.
pub proof fn lemma_states_len_bound(g: GrammarV, keys: Seq<SymbolV>, states: Seq<Set<ItemV>>)
    requires
        forall|i: int, it: ItemV|
            0 <= i < states.len() && #[trigger] states[i].contains(it) ==> item_wf(g, it)
                && keys.contains(it.la),
        forall|i: int, j: int|
            0 <= i < states.len() && 0 <= j < states.len() && i != j ==> #[trigger] states[i]
                != #[trigger] states[j],
        forall|i: int, j: int|
            0 <= i < states.len() && 0 <= j < states.len() && i != j ==> !(states[i]
                =~= states[j]),
    ensures
        states.len() <= two_pow(item_bound(g, keys)),
{
    let masks = states.map_values(|s: Set<ItemV>| state_mask(g, keys, s));
    assert(masks.no_duplicates()) by {
        assert forall|i: int, j: int|
            0 <= i < masks.len() && 0 <= j < masks.len() && i != j implies masks[i] != masks[j] by {
            if masks[i] == masks[j] {
                lemma_state_mask_inj(g, keys, states[i], states[j]);
            }
        }
    }
    assert forall|i: int| 0 <= i < masks.len() implies 0 <= #[trigger] masks[i] < two_pow(
        item_bound(g, keys),
    ) by {
        crate::sets::lemma_mask_bounds(state_codes(g, keys, states[i]), item_bound(g, keys));
    }
    lemma_two_pow_pos(item_bound(g, keys));
    lemma_no_dup_int_range(masks, two_pow(item_bound(g, keys)));
}

pub proof fn lemma_two_pow_pos(n: int)
    ensures
        two_pow(n) >= 1,
    decreases n,
{
    if n > 0 {
        lemma_two_pow_pos(n - 1);
    }
}

} // verus!
