//! The mathematical model of FIRST sets.
//!
//! A FIRST map assigns to every grammar symbol (plus `EOF` and `LAMBDA`) a
//! finite set of terminals.  `walk` is the standard left-to-right walk over a
//! sentential form: it collects `FIRST(Xi) \ {LAMBDA}` while the symbols are
//! nullable, keeping `LAMBDA` only when the walk reaches the last symbol and
//! that symbol is nullable.

use vstd::prelude::*;
use crate::production::ProductionV;
use crate::sets::{find_pos, lemma_find_pos, lemma_find_pos_unique};
use crate::symbol::{lambda_v, views, Symbol, SymbolV};

verus! {

/// The views of the rows of an executable value table.
pub open spec fn row_views(vals: Seq<Vec<Symbol>>) -> Seq<Seq<SymbolV>> {
    vals.map_values(|v: Vec<Symbol>| views(v@))
}

/// A FIRST map: symbol to set of terminals.
pub type FirstMap = Map<SymbolV, Set<SymbolV>>;

/// The map represented by parallel key and value lists.
pub open spec fn map_of(keys: Seq<SymbolV>, vals: Seq<Seq<SymbolV>>) -> FirstMap {
    Map::new(
        |k: SymbolV| find_pos(keys, k) >= 0,
        |k: SymbolV| vals[find_pos(keys, k)].to_set(),
    )
}

/// The FIRST walk over a non-empty sentential form `alpha`:
/// take `m[alpha[0]]` whole if it stops the walk (no `LAMBDA`) or ends it
/// (last symbol), else contribute `m[alpha[0]] \ {LAMBDA}` and walk on.
/// The walk of an empty `alpha` is empty (callers treat it as undefined).
pub open spec fn walk(m: FirstMap, alpha: Seq<SymbolV>) -> Set<SymbolV>
    decreases alpha.len(),
{
    if alpha.len() == 0 {
        Set::empty()
    } else {
        let f0 = m[alpha[0]];
        if !f0.contains(lambda_v()) || alpha.len() == 1 {
            f0
        } else {
            f0.remove(lambda_v()).union(walk(m, alpha.drop_first()))
        }
    }
}

/// Every entry holds only terminals that are themselves in the domain, and is
/// finite.
pub open spec fn entries_ok(m: FirstMap) -> bool {
    &&& forall|s: SymbolV| m.dom().contains(s) ==> (#[trigger] m[s]).finite()
    &&& forall|s: SymbolV, x: SymbolV|
        m.dom().contains(s) && #[trigger] m[s].contains(x) ==> x.is_t() && m.dom().contains(x)
}

/// Every terminal's entry contains at least the terminal itself.
pub open spec fn first_tbase(m: FirstMap) -> bool {
    forall|s: SymbolV| m.dom().contains(s) && s.is_t() ==> (#[trigger] m[s]).contains(s)
}

/// The map absorbs one round of the FIRST recurrence: for every production
/// the walk of its body is below the head's entry.
pub open spec fn first_closed(prods: Seq<ProductionV>, m: FirstMap) -> bool {
    forall|i: int|
        0 <= i < prods.len() ==> walk(m, (#[trigger] prods[i]).to).subset_of(m[prods[i].from])
}

/// Pointwise order between maps of the same domain.
pub open spec fn pointwise_le(m: FirstMap, m2: FirstMap) -> bool {
    forall|s: SymbolV| m.dom().contains(s) ==> (#[trigger] m[s]).subset_of(m2[s])
}

/// `m` is below every map of the same domain that seeds the terminals and
/// absorbs the recurrence: together with `first_tbase`, exact terminal
/// entries and `first_closed` this pins `m` as the least fixed point.
pub open spec fn first_least(prods: Seq<ProductionV>, m: FirstMap) -> bool {
    forall|m2: FirstMap|
        (#[trigger] m2.dom()) == m.dom() && first_tbase(m2) && first_closed(prods, m2)
            ==> pointwise_le(m, m2)
}

/// Basic facts about `map_of`: its domain is the key set and each key maps
/// to its row.
pub proof fn lemma_map_of_props(keys: Seq<SymbolV>, vals: Seq<Seq<SymbolV>>)
    requires
        keys.no_duplicates(),
        vals.len() == keys.len(),
    ensures
        forall|k: SymbolV| map_of(keys, vals).dom().contains(k) <==> keys.contains(k),
        forall|i: int|
            0 <= i < keys.len() ==> map_of(keys, vals)[#[trigger] keys[i]] == vals[i].to_set(),
{
    assert forall|k: SymbolV| map_of(keys, vals).dom().contains(k) <==> keys.contains(k) by {
        lemma_find_pos(keys, k);
    }
    assert forall|i: int| 0 <= i < keys.len() implies map_of(keys, vals)[#[trigger] keys[i]]
        == vals[i].to_set() by {
        lemma_find_pos_unique(keys, keys[i], i);
    }
}

/// Replacing one row replaces one map entry.
pub proof fn lemma_map_of_update(keys: Seq<SymbolV>, vals: Seq<Seq<SymbolV>>, p: int, v: Seq<SymbolV>)
    requires
        keys.no_duplicates(),
        vals.len() == keys.len(),
        0 <= p < keys.len(),
    ensures
        map_of(keys, vals.update(p, v)) == map_of(keys, vals).insert(keys[p], v.to_set()),
{
    let m1 = map_of(keys, vals.update(p, v));
    let m2 = map_of(keys, vals).insert(keys[p], v.to_set());
    lemma_find_pos(keys, keys[p]);
    lemma_find_pos_unique(keys, keys[p], p);
    assert forall|k: SymbolV| m1.dom().contains(k) implies m2.dom().contains(k) by {}
    assert forall|k: SymbolV| m2.dom().contains(k) implies m1.dom().contains(k) by {}
    assert forall|k: SymbolV| m1.dom().contains(k) implies m1[k] == m2[k] by {
        lemma_find_pos(keys, k);
        if k == keys[p] {
        } else {
            assert(keys[find_pos(keys, k)] == k);
            assert(find_pos(keys, k) != p);
        }
    }
    assert(m1 =~= m2);
}

/// The walk stays inside the domain and yields terminals only.
pub proof fn lemma_walk_elems(m: FirstMap, alpha: Seq<SymbolV>)
    requires
        entries_ok(m),
        forall|i: int| 0 <= i < alpha.len() ==> m.dom().contains(#[trigger] alpha[i]),
    ensures
        walk(m, alpha).finite(),
        forall|x: SymbolV|
            walk(m, alpha).contains(x) ==> x.is_t() && m.dom().contains(x),
    decreases alpha.len(),
{
    if alpha.len() == 0 {
    } else {
        let f0 = m[alpha[0]];
        if !f0.contains(lambda_v()) || alpha.len() == 1 {
        } else {
            let rest = alpha.drop_first();
            assert(forall|i: int|
                0 <= i < rest.len() ==> m.dom().contains(#[trigger] rest[i]));
            lemma_walk_elems(m, rest);
        }
    }
}

/// The walk is monotone in the map.
pub proof fn lemma_walk_monotone(m1: FirstMap, m2: FirstMap, alpha: Seq<SymbolV>)
    requires
        m1.dom() == m2.dom(),
        pointwise_le(m1, m2),
        forall|i: int| 0 <= i < alpha.len() ==> m1.dom().contains(#[trigger] alpha[i]),
    ensures
        walk(m1, alpha).subset_of(walk(m2, alpha)),
    decreases alpha.len(),
{
    if alpha.len() == 0 {
    } else {
        let a0 = alpha[0];
        let f1 = m1[a0];
        let f2 = m2[a0];
        if !f1.contains(lambda_v()) || alpha.len() == 1 {
            if f2.contains(lambda_v()) && alpha.len() > 1 {
                // `f1` has no LAMBDA, so it is below `f2` minus LAMBDA.
                assert(f1.subset_of(f2.remove(lambda_v())));
            }
        } else {
            let rest = alpha.drop_first();
            assert(forall|i: int|
                0 <= i < rest.len() ==> m1.dom().contains(#[trigger] rest[i]));
            lemma_walk_monotone(m1, m2, rest);
        }
    }
}

/// Sum of the lengths of the value rows.
pub open spec fn sum_lens(vals: Seq<Seq<SymbolV>>) -> int
    decreases vals.len(),
{
    if vals.len() == 0 {
        0
    } else {
        sum_lens(vals.drop_last()) + vals.last().len()
    }
}

pub proof fn lemma_sum_lens_nonneg(vals: Seq<Seq<SymbolV>>)
    ensures
        0 <= sum_lens(vals),
    decreases vals.len(),
{
    if vals.len() > 0 {
        lemma_sum_lens_nonneg(vals.drop_last());
    }
}

/// Replacing one row changes the sum by the difference of that row's length.
pub proof fn lemma_sum_lens_update(vals: Seq<Seq<SymbolV>>, p: int, v: Seq<SymbolV>)
    requires
        0 <= p < vals.len(),
    ensures
        sum_lens(vals.update(p, v)) == sum_lens(vals) - vals[p].len() + v.len(),
    decreases vals.len(),
{
    let upd = vals.update(p, v);
    if p == vals.len() - 1 {
        assert(upd.drop_last() =~= vals.drop_last());
    } else {
        assert(upd.drop_last() =~= vals.drop_last().update(p, v));
        assert(upd.last() == vals.last());
        lemma_sum_lens_update(vals.drop_last(), p, v);
    }
}

/// If every row has at most `k` elements the sum is at most `k` per row.
pub proof fn lemma_sum_lens_bound(vals: Seq<Seq<SymbolV>>, k: int)
    requires
        0 <= k,
        forall|i: int| 0 <= i < vals.len() ==> (#[trigger] vals[i]).len() <= k,
    ensures
        sum_lens(vals) <= vals.len() * k,
    decreases vals.len(),
{
    if vals.len() == 0 {
    } else {
        let rest = vals.drop_last();
        assert(forall|i: int| 0 <= i < rest.len() ==> (#[trigger] rest[i]).len() <= k);
        lemma_sum_lens_bound(rest, k);
        assert(vals.len() * k == rest.len() * k + k) by (nonlinear_arith)
            requires
                vals.len() == rest.len() + 1,
        ;
    }
}

} // verus!
