//! Duplicate-free vectors used as finite sets, and association-list lookup.
//!
//! The generator keeps every set (FIRST sets, item sets) as a vector without
//! duplicates, viewed in specifications as the set of element views.

use vstd::prelude::*;
use vstd::seq_lib::*;
use vstd::set_lib::*;
use crate::symbol::{views, Symbol, SymbolV};

verus! {

/// Index of the first occurrence of `k` in `keys`, or `-1` when absent.
pub open spec fn find_pos(keys: Seq<SymbolV>, k: SymbolV) -> int
    decreases keys.len(),
{
    if keys.len() == 0 {
        -1
    } else if keys[0] == k {
        0
    } else {
        let r = find_pos(keys.drop_first(), k);
        if r < 0 {
            -1
        } else {
            r + 1
        }
    }
}

/// `find_pos` finds a valid position holding `k`, exactly when `k` occurs.
pub proof fn lemma_find_pos(keys: Seq<SymbolV>, k: SymbolV)
    ensures
        -1 <= find_pos(keys, k) < keys.len(),
        keys.contains(k) <==> 0 <= find_pos(keys, k),
        0 <= find_pos(keys, k) ==> keys[find_pos(keys, k)] == k,
    decreases keys.len(),
{
    if keys.len() != 0 && keys[0] != k {
        let rest = keys.drop_first();
        lemma_find_pos(rest, k);
        assert(keys.contains(k) ==> rest.contains(k)) by {
            if keys.contains(k) {
                let i = choose|i: int| 0 <= i < keys.len() && keys[i] == k;
                assert(rest[i - 1] == k);
            }
        }
        if 0 <= find_pos(rest, k) {
            assert(keys[find_pos(rest, k) + 1] == rest[find_pos(rest, k)]);
        }
    }
}

/// On a duplicate-free list, any position holding `k` is the one found.
pub proof fn lemma_find_pos_unique(keys: Seq<SymbolV>, k: SymbolV, i: int)
    requires
        keys.no_duplicates(),
        0 <= i < keys.len(),
        keys[i] == k,
    ensures
        find_pos(keys, k) == i,
    decreases keys.len(),
{
    if keys[0] == k {
        assert(i == 0);
    } else {
        lemma_find_pos_unique(keys.drop_first(), k, i - 1);
    }
}

/// `find_pos` returns the first occurrence.
pub proof fn lemma_find_pos_at(keys: Seq<SymbolV>, k: SymbolV, i: int)
    requires
        0 <= i < keys.len(),
        keys[i] == k,
        forall|j: int| 0 <= j < i ==> keys[j] != k,
    ensures
        find_pos(keys, k) == i,
    decreases keys.len(),
{
    if keys[0] == k {
        assert(i == 0);
    } else {
        let rest = keys.drop_first();
        assert(rest[i - 1] == k);
        assert(forall|j: int| 0 <= j < i - 1 ==> rest[j] != k);
        lemma_find_pos_at(rest, k, i - 1);
    }
}

/// Position of the first occurrence of `x` in `keys`, as `find_pos` gives it.
pub fn find_key(keys: &Vec<Symbol>, x: &Symbol) -> (r: Option<usize>)
    ensures
        match r {
            Option::None => find_pos(views(keys@), x@) == -1,
            Option::Some(p) => p < keys@.len() && p as int == find_pos(views(keys@), x@)
                && views(keys@)[p as int] == x@,
        },
{
    let mut i: usize = 0;
    while i < keys.len()
        invariant
            0 <= i <= keys.len(),
            forall|j: int| 0 <= j < i ==> views(keys@)[j] != x@,
        decreases keys.len() - i,
    {
        if keys[i].sym_eq(x) {
            proof {
                lemma_find_pos_at(views(keys@), x@, i as int);
            }
            return Option::Some(i);
        }
        i += 1;
    }
    proof {
        lemma_find_pos(views(keys@), x@);
        if views(keys@).contains(x@) {
            let j = choose|j: int| 0 <= j < views(keys@).len() && views(keys@)[j] == x@;
        }
    }
    Option::None
}

/// Insert `x` into the duplicate-free vector `v` unless already present.
/// Returns whether the vector grew.
pub fn insert_unique(v: &mut Vec<Symbol>, x: &Symbol) -> (grew: bool)
    requires
        views(old(v)@).no_duplicates(),
    ensures
        views(final(v)@).no_duplicates(),
        views(final(v)@).to_set() == views(old(v)@).to_set().insert(x@),
        grew == !views(old(v)@).contains(x@),
        grew ==> final(v)@ == old(v)@.push(*x) && final(v)@.len() == old(v)@.len() + 1,
        !grew ==> *final(v) == *old(v),
{
    broadcast use vstd::seq_lib::group_seq_properties;

    if crate::symbol::syms_contain(v, x) {
        proof {
            assert(views(v@).to_set().insert(x@) =~= views(v@).to_set());
        }
        false
    } else {
        let ghost oldv = views(v@);
        v.push(x.dup());
        proof {
            assert(views(v@) =~= oldv.push(x@));
            assert(views(v@).to_set() =~= oldv.to_set().insert(x@));
            assert(v@ =~= old(v)@.push(*x));
        }
        true
    }
}

/// Union `src` into the duplicate-free vector `dst`.  Returns whether `dst`
/// grew.
pub fn union_into(dst: &mut Vec<Symbol>, src: &Vec<Symbol>) -> (grew: bool)
    requires
        views(old(dst)@).no_duplicates(),
    ensures
        views(final(dst)@).no_duplicates(),
        views(final(dst)@).to_set() == views(old(dst)@).to_set().union(views(src@).to_set()),
        grew == (final(dst)@.len() > old(dst)@.len()),
        final(dst)@.len() >= old(dst)@.len(),
        !grew ==> *final(dst) == *old(dst),
{
    let mut grew = false;
    let mut i: usize = 0;
    while i < src.len()
        invariant
            0 <= i <= src.len(),
            views(dst@).no_duplicates(),
            views(dst@).to_set() =~= views(old(dst)@).to_set().union(
                views(src@).take(i as int).to_set(),
            ),
            grew == (dst@.len() > old(dst)@.len()),
            dst@.len() >= old(dst)@.len(),
            !grew ==> *dst == *old(dst),
        decreases src.len() - i,
    {
        let ghost pre = views(src@).take(i as int);
        let g = insert_unique(dst, &src[i]);
        grew = grew || g;
        proof {
            assert(views(src@).take(i + 1) =~= pre.push(views(src@)[i as int]));
            pre.lemma_push_to_set_commute(views(src@)[i as int]);
        }
        i += 1;
    }
    proof {
        assert(views(src@).take(src@.len() as int) =~= views(src@));
    }
    grew
}

/// Union `src` minus the `LAMBDA` marker into the duplicate-free vector
/// `dst`.
pub fn union_minus_lambda(dst: &mut Vec<Symbol>, src: &Vec<Symbol>)
    requires
        views(old(dst)@).no_duplicates(),
    ensures
        views(final(dst)@).no_duplicates(),
        views(final(dst)@).to_set() == views(old(dst)@).to_set().union(
            views(src@).to_set().remove(crate::symbol::lambda_v()),
        ),
        final(dst)@.len() >= old(dst)@.len(),
{
    let lam = Symbol::lambda();
    let mut i: usize = 0;
    while i < src.len()
        invariant
            0 <= i <= src.len(),
            lam@ == crate::symbol::lambda_v(),
            views(dst@).no_duplicates(),
            views(dst@).to_set() =~= views(old(dst)@).to_set().union(
                views(src@).take(i as int).to_set().remove(crate::symbol::lambda_v()),
            ),
            dst@.len() >= old(dst)@.len(),
        decreases src.len() - i,
    {
        let ghost pre = views(src@).take(i as int);
        if !src[i].sym_eq(&lam) {
            let _ = insert_unique(dst, &src[i]);
        }
        proof {
            assert(views(src@).take(i + 1) =~= pre.push(views(src@)[i as int]));
            pre.lemma_push_to_set_commute(views(src@)[i as int]);
            assert(views(dst@).to_set() =~= views(old(dst)@).to_set().union(
                views(src@).take(i + 1).to_set().remove(crate::symbol::lambda_v()),
            ));
        }
        i += 1;
    }
    proof {
        assert(views(src@).take(src@.len() as int) =~= views(src@));
    }
}

/// A duplicate-free sequence whose elements all lie in a finite set `u` is no
/// longer than `u` is large.
pub proof fn lemma_no_dup_len_bound<A>(s: Seq<A>, u: Set<A>)
    requires
        s.no_duplicates(),
        u.finite(),
        forall|i: int| 0 <= i < s.len() ==> u.contains(s[i]),
    ensures
        s.len() <= u.len(),
{
    s.unique_seq_to_set();
    assert(s.to_set().subset_of(u)) by {
        assert forall|x: A| s.to_set().contains(x) implies u.contains(x) by {
            let i = choose|i: int| 0 <= i < s.len() && s[i] == x;
        }
    }
    lemma_len_subset(s.to_set(), u);
}

/// A duplicate-free sequence of integers drawn from `[0, n)` has at most `n`
/// elements.
pub proof fn lemma_no_dup_int_range(s: Seq<int>, n: int)
    requires
        s.no_duplicates(),
        0 <= n,
        forall|i: int| 0 <= i < s.len() ==> 0 <= #[trigger] s[i] < n,
    ensures
        s.len() <= n,
{
    lemma_int_range(0, n);
    lemma_no_dup_len_bound(s, set_int_range(0, n));
}

/// Two to the power of `n` (one for `n <= 0`).
pub open spec fn two_pow(n: int) -> int
    decreases n,
{
    if n <= 0 {
        1
    } else {
        2 * two_pow(n - 1)
    }
}

/// The characteristic number of an integer set over positions `[0, n)`.
pub open spec fn mask_of(es: Set<int>, n: int) -> int
    decreases n,
{
    if n <= 0 {
        0
    } else {
        2 * mask_of(es, n - 1) + (if es.contains(n - 1) {
            1int
        } else {
            0int
        })
    }
}

pub proof fn lemma_mask_bounds(es: Set<int>, n: int)
    ensures
        0 <= mask_of(es, n) < two_pow(n),
    decreases n,
{
    if n > 0 {
        lemma_mask_bounds(es, n - 1);
    }
}

/// The mask only reads membership below `n`.
proof fn lemma_mask_frame(e1: Set<int>, e2: Set<int>, n: int)
    requires
        forall|k: int| 0 <= k < n ==> (e1.contains(k) <==> e2.contains(k)),
    ensures
        mask_of(e1, n) == mask_of(e2, n),
    decreases n,
{
    if n > 0 {
        lemma_mask_frame(e1, e2, n - 1);
    }
}

/// Equal masks of subsets of `[0, n)` mean equal sets.
pub proof fn lemma_mask_inj(e1: Set<int>, e2: Set<int>, n: int)
    requires
        forall|k: int| #[trigger] e1.contains(k) ==> 0 <= k < n,
        forall|k: int| #[trigger] e2.contains(k) ==> 0 <= k < n,
        mask_of(e1, n) == mask_of(e2, n),
    ensures
        e1 =~= e2,
    decreases n,
{
    if n <= 0 {
        assert forall|k: int| !e1.contains(k) && !e2.contains(k) by {}
    } else {
        let b1: int = if e1.contains(n - 1) {
            1
        } else {
            0
        };
        let b2: int = if e2.contains(n - 1) {
            1
        } else {
            0
        };
        assert(2 * mask_of(e1, n - 1) + b1 == 2 * mask_of(e2, n - 1) + b2);
        assert(b1 == b2);
        let r1 = e1.remove(n - 1);
        let r2 = e2.remove(n - 1);
        lemma_mask_frame(e1, r1, n - 1);
        lemma_mask_frame(e2, r2, n - 1);
        lemma_mask_inj(r1, r2, n - 1);
        assert forall|k: int| e1.contains(k) implies e2.contains(k) by {
            if k != n - 1 {
                assert(r1.contains(k));
            }
        }
        assert forall|k: int| e2.contains(k) implies e1.contains(k) by {
            if k != n - 1 {
                assert(r2.contains(k));
            }
        }
    }
}

/// A residue and a quotient below a base determine each other.
pub proof fn lemma_mixed_radix(a1: int, b1: int, a2: int, b2: int, base: int)
    requires
        0 <= b1 < base,
        0 <= b2 < base,
        a1 * base + b1 == a2 * base + b2,
    ensures
        a1 == a2,
        b1 == b2,
{
    assert(a1 == a2 && b1 == b2) by (nonlinear_arith)
        requires
            0 <= b1 < base,
            0 <= b2 < base,
            a1 * base + b1 == a2 * base + b2,
    ;
}

} // verus!
