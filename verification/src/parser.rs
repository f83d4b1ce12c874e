//! The LR(1) parser: canonical collection, ACTION/GOTO tables, and the
//! shift-reduce driver.
//!
//! States are item sets stored once in `cc`; everywhere else a state is its
//! index.  ACTION maps a state and a terminal to a set of actions (a
//! singleton for an LR(1) grammar); GOTO maps a state and a non-terminal to
//! the successor state.

use vstd::prelude::*;
use crate::closure::{
    closed, closure_sp, item_bound, item_child, kernel, lemma_child_wf,
    lemma_closure_closed, lemma_closure_contains_seed, lemma_closure_least,
    lemma_closure_of_closed, lemma_closure_wf, lemma_items_len_bound, lemma_item_bound_nonneg,
    lemma_states_len_bound, lemma_two_pow_pos,
};
use crate::errors::LrError;
use crate::first::walk;
use crate::grammar::{gram_wf, gsyms, head_indices, lemma_head_indices, Grammar, GrammarV};
use crate::item::{
    dup_items, insert_item, item_advance, item_after_la, item_complete, item_stacktop,
    item_terminator, item_views, item_wf, items_contain, items_set_eq, Item, ItemV,
};
use crate::sets::{lemma_find_pos, two_pow};
use crate::text::{dec_str, join_strs, pad_str, push_str, push_usize, strs_views};
use crate::symbol::{eof_v, fake_goal_v, views, Symbol, SymbolV};
use crate::tree::{NodeId, Tree, TreeV};

verus! {

/// A parser move: accept, reduce by a production (by index), or shift to a
/// state (by index).
#[derive(Clone, Copy, Debug, PartialEq, Eq, Structural)]
pub enum Action {
    Accept,
    Reduce(usize),
    Shift(usize),
}

/// Mathematical value of a [`StackEl`].
#[verifier::ext_equal]
pub enum StackV {
    Sym(SymbolV, Option<int>),
    St(int),
}

/// One parse-stack entry: a symbol with its optional tree node, or a state
/// index.
pub enum StackEl {
    Symbol((Symbol, Option<NodeId>)),
    State(usize),
}

impl View for StackEl {
    type V = StackV;

    open spec fn view(&self) -> StackV {
        match self {
            StackEl::Symbol((s, n)) => StackV::Sym(
                s@,
                match n {
                    Option::None => Option::None,
                    Option::Some(id) => Option::Some(*id as int),
                },
            ),
            StackEl::State(s) => StackV::St(*s as int),
        }
    }
}

impl StackEl {
    /// Whether this entry is a symbol entry.
    pub fn is_symbol(&self) -> (r: bool)
        ensures
            r == (self@ is Sym),
    {
        match self {
            StackEl::Symbol(_) => true,
            StackEl::State(_) => false,
        }
    }

    /// The symbol entry's payload.  Defined only for a symbol entry.
    pub fn unwrap_symbol(self) -> (r: (Symbol, Option<NodeId>))
        requires
            self@ is Sym,
        ensures
            self@ == StackV::Sym(
                r.0@,
                match r.1 {
                    Option::None => Option::None::<int>,
                    Option::Some(id) => Option::Some(id as int),
                },
            ),
    {
        match self {
            StackEl::Symbol(p) => p,
            StackEl::State(_) => vstd::pervasive::unreached(),
        }
    }
}

/// The views of the stack entries.
pub open spec fn stack_views(s: Seq<StackEl>) -> Seq<StackV> {
    s.map_values(|e: StackEl| e@)
}

/// The item sets of the canonical collection.
pub open spec fn state_sets(cc: Seq<Vec<Item>>) -> Seq<Set<ItemV>> {
    cc.map_values(|v: Vec<Item>| item_views(v@).to_set())
}

/// Index of the first pair keyed `t`, or `-1`.
pub open spec fn find_pair<T>(row: Seq<(SymbolV, T)>, t: SymbolV) -> int
    decreases row.len(),
{
    if row.len() == 0 {
        -1
    } else if row[0].0 == t {
        0
    } else {
        let r = find_pair(row.drop_first(), t);
        if r < 0 {
            -1
        } else {
            r + 1
        }
    }
}

pub proof fn lemma_find_pair<T>(row: Seq<(SymbolV, T)>, t: SymbolV)
    ensures
        -1 <= find_pair(row, t) < row.len(),
        (exists|k: int| 0 <= k < row.len() && (#[trigger] row[k]).0 == t) <==> 0 <= find_pair(
            row,
            t,
        ),
        0 <= find_pair(row, t) ==> row[find_pair(row, t)].0 == t,
    decreases row.len(),
{
    if row.len() != 0 && row[0].0 != t {
        let rest = row.drop_first();
        lemma_find_pair(rest, t);
        if exists|k: int| 0 <= k < row.len() && (#[trigger] row[k]).0 == t {
            let k = choose|k: int| 0 <= k < row.len() && (#[trigger] row[k]).0 == t;
            assert(rest[k - 1].0 == t);
        }
        if 0 <= find_pair(rest, t) {
            assert(row[find_pair(rest, t) + 1] == rest[find_pair(rest, t)]);
        }
    }
}

/// Appending a pair leaves earlier finds alone and finds the new key last.
proof fn lemma_find_pair_push<T>(row: Seq<(SymbolV, T)>, p: (SymbolV, T), t: SymbolV)
    ensures
        find_pair(row.push(p), t) == if 0 <= find_pair(row, t) {
            find_pair(row, t)
        } else if p.0 == t {
            row.len() as int
        } else {
            -1
        },
    decreases row.len(),
{
    lemma_find_pair(row, t);
    if row.len() == 0 {
        assert(row.push(p) =~= seq![p]);
        assert(row.push(p)[0] == p);
        assert(row.push(p).drop_first() =~= Seq::<(SymbolV, T)>::empty());
        assert(find_pair(Seq::<(SymbolV, T)>::empty(), t) == -1);
    } else {
        if row[0].0 == t {
            assert(row.push(p)[0] == row[0]);
        } else {
            assert(row.push(p)[0] == row[0]);
            assert(row.push(p).drop_first() =~= row.drop_first().push(p));
            lemma_find_pair_push(row.drop_first(), p, t);
            lemma_find_pair(row.drop_first(), t);
        }
    }
}

/// Replacing a pair's value leaves every find alone.
proof fn lemma_find_pair_update<T>(row: Seq<(SymbolV, T)>, k: int, v: T, t: SymbolV)
    requires
        0 <= k < row.len(),
    ensures
        find_pair(row.update(k, (row[k].0, v)), t) == find_pair(row, t),
    decreases row.len(),
{
    let row2 = row.update(k, (row[k].0, v));
    assert(row2[0].0 == row[0].0);
    if row.len() > 0 && row[0].0 != t {
        if k == 0 {
            assert(row2.drop_first() =~= row.drop_first());
        } else {
            assert(row2.drop_first() =~= row.drop_first().update(k - 1, (row.drop_first()[k
                - 1].0, v)));
            lemma_find_pair_update(row.drop_first(), k - 1, v, t);
        }
    }
}

proof fn lemma_find_pair_at<T>(row: Seq<(SymbolV, T)>, t: SymbolV, i: int)
    requires
        0 <= i < row.len(),
        row[i].0 == t,
        forall|j: int| 0 <= j < i ==> (#[trigger] row[j]).0 != t,
    ensures
        find_pair(row, t) == i,
    decreases row.len(),
{
    if row[0].0 == t {
        assert(i == 0);
    } else {
        let rest = row.drop_first();
        assert(rest[i - 1].0 == t);
        assert(forall|j: int| 0 <= j < i - 1 ==> (#[trigger] rest[j]).0 != t);
        lemma_find_pair_at(rest, t, i - 1);
    }
}

/// The augmented-grammar shape: production 0 is `FAKE_GOAL -> goal` and
/// `FAKE_GOAL` occurs nowhere else.
pub open spec fn aug_wf(g: GrammarV) -> bool {
    &&& gram_wf(g)
    &&& g.prods.len() >= 1
    &&& g.prods[0].from == fake_goal_v()
    &&& g.prods[0].to.len() == 1
    &&& g.goal == fake_goal_v()
    &&& forall|j: int| 1 <= j < g.prods.len() ==> (#[trigger] g.prods[j]).from != fake_goal_v()
    &&& forall|j: int, k: int|
        0 <= j < g.prods.len() && 0 <= k < g.prods[j].to.len() ==> #[trigger] g.prods[j].to[k]
            != fake_goal_v()
}

/// A grammar that does not use the reserved `FAKE_GOAL` symbol, so it can
/// be augmented.
pub open spec fn fresh_fake_goal(g: GrammarV) -> bool {
    &&& g.goal != fake_goal_v()
    &&& forall|j: int| 0 <= j < g.prods.len() ==> (#[trigger] g.prods[j]).from != fake_goal_v()
    &&& forall|j: int, k: int|
        0 <= j < g.prods.len() && 0 <= k < g.prods[j].to.len() ==> #[trigger] g.prods[j].to[k]
            != fake_goal_v()
}

/// The initial item set: the augmented production with the dot at the start
/// and `EOF` lookahead.
pub open spec fn init_items() -> Set<ItemV> {
    set![ItemV { prod: 0, dot: 0, la: eof_v() }]
}

/// An item of the augmented production carries the `EOF` lookahead.
pub open spec fn fg_ok(it: ItemV) -> bool {
    it.prod == 0 ==> it.la == eof_v()
}

/// A well-formed executable state: duplicate-free well-formed items.
pub open spec fn state_ok(g: GrammarV, v: Seq<Item>) -> bool {
    &&& item_views(v).no_duplicates()
    &&& forall|k: int| 0 <= k < v.len() ==> item_wf(g, #[trigger] item_views(v)[k])
}

/// A table row: duplicate-free keys, and each cell duplicate-free and
/// non-empty.
pub open spec fn row_ok<T>(row: Seq<(SymbolV, Seq<T>)>) -> bool {
    &&& row.map_values(|p: (SymbolV, Seq<T>)| p.0).no_duplicates()
    &&& forall|k: int|
        0 <= k < row.len() ==> (#[trigger] row[k]).1.len() >= 1 && row[k].1.no_duplicates()
}

/// The canonical LR(1) parser for a grammar.
pub struct Parser {
    pub grammar: Grammar,
    pub cc: Vec<Vec<Item>>,
    pub actions: Vec<Vec<(Symbol, Vec<Action>)>>,
    pub gotos: Vec<Vec<(Symbol, Vec<usize>)>>,
    pub stack: Vec<StackEl>,
}

impl Parser {
    /// The ACTION rows, viewed.
    pub open spec fn acts_v(&self) -> Seq<Seq<(SymbolV, Seq<Action>)>> {
        self.actions@.map_values(
            |r: Vec<(Symbol, Vec<Action>)>|
                r@.map_values(|p: (Symbol, Vec<Action>)| (p.0@, p.1@)),
        )
    }

    /// The GOTO rows, viewed.
    pub open spec fn gotos_v(&self) -> Seq<Seq<(SymbolV, Seq<int>)>> {
        self.gotos@.map_values(
            |r: Vec<(Symbol, Vec<usize>)>|
                r@.map_values(
                    |p: (Symbol, Vec<usize>)| (p.0@, p.1@.map_values(|u: usize| u as int)),
                ),
        )
    }

    /// The state item sets.
    pub open spec fn sets(&self) -> Seq<Set<ItemV>> {
        state_sets(self.cc@)
    }

    /// The ACTION cell of state `i` under terminal `t` (empty when absent).
    pub open spec fn act_of(&self, i: int, t: SymbolV) -> Seq<Action> {
        let row = self.acts_v()[i];
        if find_pair(row, t) < 0 {
            Seq::empty()
        } else {
            row[find_pair(row, t)].1
        }
    }

    /// Whether state `i` has an ACTION cell under `t`.
    pub open spec fn has_act(&self, i: int, t: SymbolV) -> bool {
        find_pair(self.acts_v()[i], t) >= 0
    }

    /// The GOTO cell of state `i` under non-terminal `x` (empty when
    /// absent).
    pub open spec fn goto_of(&self, i: int, x: SymbolV) -> Seq<int> {
        let row = self.gotos_v()[i];
        if find_pair(row, x) < 0 {
            Seq::empty()
        } else {
            row[find_pair(row, x)].1
        }
    }

    /// Whether state `i` has a GOTO cell under `x`.
    pub open spec fn has_goto(&self, i: int, x: SymbolV) -> bool {
        find_pair(self.gotos_v()[i], x) >= 0
    }

    /// What an ACTION entry promises about the tables.
    pub open spec fn action_sound(&self, i: int, t: SymbolV, a: Action) -> bool {
        let g = self.grammar@;
        match a {
            Action::Accept => exists|it: ItemV|
                #[trigger] self.sets()[i].contains(it) && item_terminator(g, it) && it.la == t,
            Action::Reduce(p) => exists|it: ItemV|
                #[trigger] self.sets()[i].contains(it) && item_complete(g, it)
                    && !item_terminator(g, it) && it.prod == p as int && it.la == t,
            Action::Shift(j) => {
                &&& t.is_t()
                &&& 0 <= j < self.cc@.len()
                &&& kernel(g, self.sets()[i], t) != Set::<ItemV>::empty()
                &&& self.sets()[j as int] == closure_sp(g, kernel(g, self.sets()[i], t))
            },
        }
    }

    /// What a GOTO entry promises.
    pub open spec fn goto_sound(&self, i: int, x: SymbolV, j: int) -> bool {
        let g = self.grammar@;
        &&& x.is_nt()
        &&& 0 <= j < self.cc@.len()
        &&& kernel(g, self.sets()[i], x) != Set::<ItemV>::empty()
        &&& self.sets()[j] == closure_sp(g, kernel(g, self.sets()[i], x))
    }

    /// Every recorded table entry is sound.
    pub open spec fn tables_sound(&self) -> bool {
        &&& forall|i: int, k: int, n: int|
            0 <= i < self.acts_v().len() && 0 <= k < self.acts_v()[i].len() && 0 <= n
                < self.acts_v()[i][k].1.len() ==> self.action_sound(
                i,
                self.acts_v()[i][k].0,
                #[trigger] self.acts_v()[i][k].1[n],
            )
        &&& forall|i: int, k: int, n: int|
            0 <= i < self.gotos_v().len() && 0 <= k < self.gotos_v()[i].len() && 0 <= n
                < self.gotos_v()[i][k].1.len() ==> self.goto_sound(
                i,
                self.gotos_v()[i][k].0,
                #[trigger] self.gotos_v()[i][k].1[n],
            )
    }

    /// Witness that state `i`'s item with stacktop `x` has its edge to
    /// state `j`.
    pub open spec fn route_witness(&self, i: int, it: ItemV, j: usize) -> bool {
        let g = self.grammar@;
        let x = g.prods[it.prod].to[it.dot];
        &&& j < self.cc@.len()
        &&& self.sets()[j as int] == closure_sp(g, kernel(g, self.sets()[i], x))
        &&& x.is_t() ==> self.act_of(i, x).contains(Action::Shift(j))
        &&& x.is_nt() ==> self.goto_of(i, x).contains(j as int)
    }

    /// Every item of state `i` produced its table entry: a complete item its
    /// action, an incomplete one its shift or goto edge.
    pub open spec fn item_route(&self, i: int, it: ItemV) -> bool {
        let g = self.grammar@;
        if item_complete(g, it) {
            if item_terminator(g, it) {
                self.act_of(i, it.la).contains(Action::Accept)
            } else {
                self.act_of(i, it.la).contains(Action::Reduce(it.prod as usize))
            }
        } else {
            exists|j: usize| #[trigger] self.route_witness(i, it, j)
        }
    }

    /// Every item of every state produced its entry.
    pub open spec fn tables_complete(&self) -> bool {
        forall|i: int, it: ItemV|
            0 <= i < self.cc@.len() && #[trigger] self.sets()[i].contains(it)
                ==> self.item_route(i, it)
    }

    /// The full parser invariant: the grammar is augmented and well-formed;
    /// the states are distinct, well-formed and closed, state 0 being the
    /// closure of the initial item; and the ACTION/GOTO tables are exactly
    /// what the items of the states generate.
    pub open spec fn wf(&self) -> bool {
        let g = self.grammar@;
        &&& self.grammar.wf()
        &&& aug_wf(g)
        &&& self.cc@.len() >= 1
        &&& self.actions@.len() == self.cc@.len()
        &&& self.gotos@.len() == self.cc@.len()
        &&& forall|i: int| 0 <= i < self.cc@.len() ==> state_ok(g, (#[trigger] self.cc@[i])@)
        &&& forall|i: int| 0 <= i < self.cc@.len() ==> closed(g, #[trigger] self.sets()[i])
        &&& forall|i: int, j: int|
            0 <= i < self.cc@.len() && 0 <= j < self.cc@.len() && i != j
                ==> #[trigger] self.sets()[i] != #[trigger] self.sets()[j]
        &&& self.sets()[0] == closure_sp(g, init_items())
        &&& forall|i: int, it: ItemV|
            0 <= i < self.cc@.len() && #[trigger] self.sets()[i].contains(it) ==> fg_ok(it)
        &&& forall|i: int| 0 <= i < self.acts_v().len() ==> row_ok(#[trigger] self.acts_v()[i])
        &&& forall|i: int| 0 <= i < self.gotos_v().len() ==> row_ok(#[trigger] self.gotos_v()[i])
        &&& self.tables_sound()
        &&& self.tables_complete()
    }

    /// CLOSURE of a seed item set: the least superset closed under the
    /// LR(1) item-derivation rule, computed by a worklist pass.
    pub fn closure(&self, items: &Vec<Item>) -> (r: Vec<Item>)
        requires
            self.grammar.wf(),
            forall|k: int|
                0 <= k < items@.len() ==> item_wf(self.grammar@, #[trigger] item_views(
                    items@,
                )[k]),
        ensures
            item_views(r@).no_duplicates(),
            forall|k: int|
                0 <= k < r@.len() ==> item_wf(self.grammar@, #[trigger] item_views(r@)[k]),
            item_views(r@).to_set() == closure_sp(
                self.grammar@,
                item_views(items@).to_set(),
            ),
    {
        let ghost gv = self.grammar@;
        let ghost seed = item_views(items@).to_set();
        let ghost keys = views(self.grammar.first_keys@);
        proof {
            lemma_closure_contains_seed(gv, seed);
            lemma_closure_closed(gv, seed);
            lemma_closure_wf(gv, seed);
            lemma_item_bound_nonneg(gv, keys);
        }
        let mut res: Vec<Item> = Vec::new();
        // Seed the result with the distinct items of the input.
        let mut i: usize = 0;
        while i < items.len()
            invariant
                0 <= i <= items@.len(),
                self.grammar.wf(),
                gv == self.grammar@,
                seed == item_views(items@).to_set(),
                forall|k: int|
                    0 <= k < items@.len() ==> item_wf(gv, #[trigger] item_views(items@)[k]),
                item_views(res@).no_duplicates(),
                item_views(res@).to_set() =~= item_views(items@).take(i as int).to_set(),
            decreases items@.len() - i,
        {
            let ghost pre = item_views(items@).take(i as int);
            let _ = insert_item(&mut res, &items[i]);
            proof {
                assert(item_views(items@).take(i + 1) =~= pre.push(item_views(items@)[i as int]));
                pre.lemma_push_to_set_commute(item_views(items@)[i as int]);
            }
            i += 1;
        }
        proof {
            assert(item_views(items@).take(items@.len() as int) =~= item_views(items@));
            assert forall|k: int| 0 <= k < res@.len() implies item_wf(
                gv,
                #[trigger] item_views(res@)[k],
            ) by {
                assert(seed.contains(item_views(res@)[k]));
                let j = choose|j: int|
                    0 <= j < item_views(items@).len() && item_views(items@)[j] == item_views(
                        res@,
                    )[k];
            }
            assert forall|k: int| 0 <= k < res@.len() implies keys.contains(
                (#[trigger] item_views(res@)[k]).la,
            ) by {
                lemma_find_pos(keys, item_views(res@)[k].la);
            }
            lemma_items_len_bound(gv, keys, item_views(res@));
        }
        // Process items in order; derived items are appended.
        let mut done: usize = 0;
        while done < res.len()
            invariant
                0 <= done <= res@.len(),
                self.grammar.wf(),
                gv == self.grammar@,
                seed == item_views(items@).to_set(),
                keys == views(self.grammar.first_keys@),
                item_views(res@).no_duplicates(),
                forall|k: int|
                    0 <= k < res@.len() ==> item_wf(gv, #[trigger] item_views(res@)[k]),
                seed.subset_of(item_views(res@).to_set()),
                item_views(res@).to_set().subset_of(closure_sp(gv, seed)),
                forall|k: int, d: ItemV|
                    0 <= k < done && #[trigger] item_child(gv, item_views(res@)[k], d)
                        ==> item_views(res@).to_set().contains(d),
                res@.len() <= item_bound(gv, keys),
            decreases item_bound(gv, keys) - res@.len(), res@.len() - done,
        {
            let ghost res_len0 = res@.len();
            let it = res[done].dup();
            let ghost itv = item_views(res@)[done as int];
            proof {
                assert(item_views(res@)[done as int] == res@[done as int]@);
                assert(it@ == itv);
                assert(item_wf(gv, itv));
            }
            match it.stacktop(&self.grammar) {
                Option::None => {
                    proof {
                        assert(item_complete(gv, itv));
                        assert forall|d: ItemV| #[trigger] item_child(gv, itv, d)
                            implies item_views(res@).to_set().contains(d) by {
                            assert(!item_complete(gv, itv));
                        }
                    }
                },
                Option::Some(x) => {
                    if x.is_terminal() {
                        proof {
                            assert forall|d: ItemV| #[trigger] item_child(gv, itv, d)
                                implies item_views(res@).to_set().contains(d) by {
                                assert(gv.prods[itv.prod].to[itv.dot].is_nt());
                            }
                        }
                    } else {
                        let x = x.dup();
                        match self.grammar.get_prods(&x) {
                            Option::None => {
                                proof {
                                    lemma_head_indices(gv.prods, x@);
                                    assert forall|d: ItemV| #[trigger] item_child(gv, itv, d)
                                        implies item_views(res@).to_set().contains(d) by {
                                        assert(gv.prods[d.prod].from == x@);
                                        assert(head_indices(gv.prods, x@).contains(d.prod));
                                    }
                                }
                            },
                            Option::Some(pix) => {
                                let alpha = it.after_stacktop_and_lookahead(&self.grammar);
                                proof {
                                    assert(views(alpha@) == item_after_la(gv, itv));
                                    assert forall|q: int|
                                        0 <= q < alpha@.len() implies gv.first.dom().contains(
                                        #[trigger] views(alpha@)[q],
                                    ) by {
                                        if q < alpha@.len() - 1 {
                                            let body = gv.prods[itv.prod].to;
                                            assert(views(alpha@)[q] == body[itv.dot + 1 + q]);
                                            assert(body.contains(body[itv.dot + 1 + q]));
                                            assert(gsyms(gv.goal, gv.prods).contains(
                                                body[itv.dot + 1 + q],
                                            ));
                                        }
                                    }
                                }
                                let first = match self.grammar.first_of(&alpha) {
                                    Option::Some(f) => f,
                                    Option::None => vstd::pervasive::unreached(),
                                };
                                // Every (production of x, lookahead) pair
                                // yields a derived item.
                                let mut pk: usize = 0;
                                while pk < pix.len()
                                    invariant
                                        0 <= pk <= pix@.len(),
                                        self.grammar.wf(),
                                        gv == self.grammar@,
                                        seed == item_views(items@).to_set(),
                                        keys == views(self.grammar.first_keys@),
                                        0 <= done < res@.len(),
                                        itv == item_views(res@)[done as int],
                                        item_wf(gv, itv),
                                        !item_complete(gv, itv),
                                        item_stacktop(gv, itv) == Option::Some(x@),
                                        x@.is_nt(),
                                        pix@.map_values(|u: usize| u as int) == head_indices(
                                            gv.prods,
                                            x@,
                                        ),
                                        views(first@).to_set() == walk(
                                            gv.first,
                                            item_after_la(gv, itv),
                                        ),
                                        item_views(res@).no_duplicates(),
                                        forall|k: int|
                                            0 <= k < res@.len() ==> item_wf(
                                                gv,
                                                #[trigger] item_views(res@)[k],
                                            ),
                                        seed.subset_of(item_views(res@).to_set()),
                                        item_views(res@).to_set().subset_of(closure_sp(gv, seed)),
                                        forall|k: int, d: ItemV|
                                            0 <= k < done && #[trigger] item_child(
                                                gv,
                                                item_views(res@)[k],
                                                d,
                                            ) ==> item_views(res@).to_set().contains(d),
                                        forall|d: ItemV|
                                            #[trigger] item_child(gv, itv, d) && head_indices(
                                                gv.prods,
                                                x@,
                                            ).take(pk as int).contains(d.prod)
                                                ==> item_views(res@).to_set().contains(d),
                                        res@.len() <= item_bound(gv, keys),
                                        res@.len() >= res_len0,
                                    decreases item_bound(gv, keys) - res@.len(), pix@.len() - pk,
                                {
                                    let pj = pix[pk];
                                    proof {
                                        lemma_head_indices(gv.prods, x@);
                                        assert(head_indices(gv.prods, x@)[pk as int]
                                            == pj as int);
                                    }
                                    let ghost res_len_pk = res@.len();
                                    let mut bk: usize = 0;
                                    while bk < first.len()
                                        invariant
                                            0 <= bk <= first@.len(),
                                            self.grammar.wf(),
                                            gv == self.grammar@,
                                            seed == item_views(items@).to_set(),
                                            keys == views(self.grammar.first_keys@),
                                            0 <= done < res@.len(),
                                            itv == item_views(res@)[done as int],
                                            item_wf(gv, itv),
                                            !item_complete(gv, itv),
                                            item_stacktop(gv, itv) == Option::Some(x@),
                                            x@.is_nt(),
                                            0 <= pj < gv.prods.len(),
                                            gv.prods[pj as int].from == x@,
                                            views(first@).to_set() == walk(
                                                gv.first,
                                                item_after_la(gv, itv),
                                            ),
                                            item_views(res@).no_duplicates(),
                                            forall|k: int|
                                                0 <= k < res@.len() ==> item_wf(
                                                    gv,
                                                    #[trigger] item_views(res@)[k],
                                                ),
                                            seed.subset_of(item_views(res@).to_set()),
                                            item_views(res@).to_set().subset_of(
                                                closure_sp(gv, seed),
                                            ),
                                            forall|k: int, d: ItemV|
                                                0 <= k < done && #[trigger] item_child(
                                                    gv,
                                                    item_views(res@)[k],
                                                    d,
                                                ) ==> item_views(res@).to_set().contains(d),
                                            forall|d: ItemV|
                                                #[trigger] item_child(gv, itv, d) && head_indices(
                                                    gv.prods,
                                                    x@,
                                                ).take(pk as int).contains(d.prod)
                                                    ==> item_views(res@).to_set().contains(d),
                                            forall|d: ItemV|
                                                #[trigger] item_child(gv, itv, d) && d.prod
                                                    == pj as int && views(first@).take(
                                                    bk as int,
                                                ).contains(d.la) ==> item_views(
                                                    res@,
                                                ).to_set().contains(d),
                                            res@.len() <= item_bound(gv, keys),
                                            res@.len() >= res_len_pk,
                                            res@.len() >= res_len0,
                                        decreases
                                                item_bound(gv, keys) - res@.len(),
                                                first@.len() - bk,
                                    {
                                        let b = first[bk].dup();
                                        let cand = Item::from_production(pj, b);
                                        let ghost candv = cand@;
                                        proof {
                                            // The candidate is a derived item.
                                            assert(views(first@).to_set().contains(
                                                views(first@)[bk as int],
                                            ));
                                            assert(item_child(gv, itv, candv));
                                            lemma_child_wf(gv, itv, candv);
                                            assert(closure_sp(gv, seed).contains(itv)) by {
                                                assert(item_views(res@).to_set().contains(itv));
                                            }
                                            lemma_closure_closed(gv, seed);
                                            assert(closure_sp(gv, seed).contains(candv));
                                            lemma_find_pos(keys, candv.la);
                                        }
                                        let ghost oldres = res@;
                                        let grew = insert_item(&mut res, &cand);
                                        proof {
                                            if grew {
                                                crate::item::lemma_item_views_push(
                                                    oldres,
                                                    res@.last(),
                                                );
                                                assert(item_views(res@) =~= item_views(
                                                    oldres,
                                                ).push(candv));
                                                assert forall|k: int|
                                                    0 <= k < res@.len() implies item_wf(
                                                    gv,
                                                    #[trigger] item_views(res@)[k],
                                                ) by {
                                                    if k < oldres.len() {
                                                        assert(item_views(res@)[k]
                                                            == item_views(oldres)[k]);
                                                    } else {
                                                        assert(item_views(res@)[k] == candv);
                                                    }
                                                }
                                                assert forall|k: int|
                                                    0 <= k < res@.len() implies keys.contains(
                                                    (#[trigger] item_views(res@)[k]).la,
                                                ) by {
                                                    lemma_find_pos(
                                                        keys,
                                                        item_views(res@)[k].la,
                                                    );
                                                }
                                                lemma_items_len_bound(
                                                    gv,
                                                    keys,
                                                    item_views(res@),
                                                );
                                            }
                                            assert(views(first@).take(bk + 1) =~= views(
                                                first@,
                                            ).take(bk as int).push(views(first@)[bk as int]));
                                        }
                                        bk += 1;
                                    }
                                    proof {
                                        assert(views(first@).take(first@.len() as int) =~= views(
                                            first@,
                                        ));
                                        assert(head_indices(gv.prods, x@).take(pk + 1)
                                            =~= head_indices(gv.prods, x@).take(pk as int).push(
                                            pj as int,
                                        ));
                                        assert forall|d: ItemV|
                                            #[trigger] item_child(gv, itv, d) && head_indices(
                                                gv.prods,
                                                x@,
                                            ).take(pk + 1).contains(d.prod) implies item_views(
                                            res@,
                                        ).to_set().contains(d) by {
                                            if d.prod == pj as int {
                                                assert(walk(
                                                    gv.first,
                                                    item_after_la(gv, itv),
                                                ).contains(d.la));
                                                assert(views(first@).contains(d.la)) by {
                                                    assert(views(first@).to_set().contains(d.la));
                                                }
                                            }
                                        }
                                    }
                                    pk += 1;
                                }
                                proof {
                                    lemma_head_indices(gv.prods, x@);
                                    assert(head_indices(gv.prods, x@).take(pix@.len() as int)
                                        =~= head_indices(gv.prods, x@));
                                    assert forall|d: ItemV|
                                        #[trigger] item_child(gv, itv, d) implies item_views(
                                        res@,
                                    ).to_set().contains(d) by {
                                        assert(gv.prods[d.prod].from == x@);
                                        assert(head_indices(gv.prods, x@).contains(d.prod));
                                    }
                                }
                            },
                        }
                    }
                },
            }
            proof {
                assert forall|k: int, d: ItemV|
                    0 <= k < done + 1 && #[trigger] item_child(gv, item_views(res@)[k], d)
                        implies item_views(res@).to_set().contains(d) by {
                    if k == done as int {
                        if !item_complete(gv, itv) && gv.prods[itv.prod].to[itv.dot].is_nt() {
                        } else {
                            assert(!item_child(gv, itv, d));
                        }
                    }
                }
            }
            done += 1;
        }
        proof {
            // The result is a closed superset of the seed, hence the
            // closure by minimality.
            assert(closed(gv, item_views(res@).to_set())) by {
                assert forall|it2: ItemV, d: ItemV|
                    #[trigger] item_views(res@).to_set().contains(it2) && #[trigger] item_child(
                    gv,
                    it2,
                    d,
                ) implies item_views(res@).to_set().contains(d) by {
                    let k = choose|k: int|
                        0 <= k < item_views(res@).len() && item_views(res@)[k] == it2;
                }
            }
            lemma_closure_least(gv, seed, item_views(res@).to_set());
            assert(item_views(res@).to_set() =~= closure_sp(gv, seed));
        }
        res
    }

    /// GOTO: advance every item whose stacktop is `x` and close the result.
    /// `None` when no item has stacktop `x`.
    pub fn goto(&self, items: &Vec<Item>, x: &Symbol) -> (r: Option<Vec<Item>>)
        requires
            self.grammar.wf(),
            forall|k: int|
                0 <= k < items@.len() ==> item_wf(self.grammar@, #[trigger] item_views(
                    items@,
                )[k]),
        ensures
            match r {
                Option::None => kernel(self.grammar@, item_views(items@).to_set(), x@)
                    =~= Set::<ItemV>::empty(),
                Option::Some(v) => {
                    &&& kernel(self.grammar@, item_views(items@).to_set(), x@)
                        != Set::<ItemV>::empty()
                    &&& item_views(v@).no_duplicates()
                    &&& forall|k: int|
                        0 <= k < v@.len() ==> item_wf(self.grammar@, #[trigger] item_views(
                            v@,
                        )[k])
                    &&& item_views(v@).to_set() == closure_sp(
                        self.grammar@,
                        kernel(self.grammar@, item_views(items@).to_set(), x@),
                    )
                },
            },
    {
        let ghost gv = self.grammar@;
        let ghost sv = item_views(items@).to_set();
        let mut next: Vec<Item> = Vec::new();
        let mut i: usize = 0;
        proof {
            assert(item_views(next@).to_set() =~= Set::<ItemV>::empty());
        }
        while i < items.len()
            invariant
                0 <= i <= items@.len(),
                self.grammar.wf(),
                gv == self.grammar@,
                sv == item_views(items@).to_set(),
                forall|k: int|
                    0 <= k < items@.len() ==> item_wf(gv, #[trigger] item_views(items@)[k]),
                item_views(next@).no_duplicates(),
                forall|k: int|
                    0 <= k < next@.len() ==> item_wf(gv, #[trigger] item_views(next@)[k]),
                item_views(next@).to_set() =~= Set::new(
                    |d: ItemV|
                        exists|q: int|
                            0 <= q < i && !item_complete(
                                gv,
                                #[trigger] item_views(items@)[q],
                            ) && item_stacktop(gv, item_views(items@)[q]) == Option::Some(x@)
                                && d == item_advance(item_views(items@)[q]),
                ),
            decreases items@.len() - i,
        {
            let ghost itv = item_views(items@)[i as int];
            let ghost target = Set::new(
                |d: ItemV|
                    exists|q: int|
                        0 <= q < i + 1 && !item_complete(
                            gv,
                            #[trigger] item_views(items@)[q],
                        ) && item_stacktop(gv, item_views(items@)[q]) == Option::Some(x@)
                            && d == item_advance(item_views(items@)[q]),
            );
            let ghost prev = Set::new(
                |d: ItemV|
                    exists|q: int|
                        0 <= q < i && !item_complete(
                            gv,
                            #[trigger] item_views(items@)[q],
                        ) && item_stacktop(gv, item_views(items@)[q]) == Option::Some(x@)
                            && d == item_advance(item_views(items@)[q]),
            );
            proof {
                assert(item_views(items@)[i as int] == items@[i as int]@);
                assert(item_wf(gv, itv));
            }
            let it = &items[i];
            let keep = match it.stacktop(&self.grammar) {
                Option::None => false,
                Option::Some(s) => s.sym_eq(x),
            };
            if keep {
                let adv = it.clone_with_next_stacktop(&self.grammar);
                proof {
                    assert(adv@ == item_advance(itv));
                }
                let ghost oldnext = next@;
                let _ = insert_item(&mut next, &adv);
                proof {
                    assert forall|k: int| 0 <= k < next@.len() implies item_wf(
                        gv,
                        #[trigger] item_views(next@)[k],
                    ) by {
                        if k < oldnext.len() {
                            assert(item_views(next@)[k] == item_views(oldnext)[k]);
                        } else {
                            assert(item_views(next@)[k] == adv@);
                        }
                    }
                    assert forall|d: ItemV| target.contains(d) implies item_views(
                        next@,
                    ).to_set().contains(d) by {
                        let q = choose|q: int|
                            0 <= q < i + 1 && !item_complete(
                                gv,
                                #[trigger] item_views(items@)[q],
                            ) && item_stacktop(gv, item_views(items@)[q]) == Option::Some(x@)
                                && d == item_advance(item_views(items@)[q]);
                        if q < i {
                            assert(prev.contains(d));
                        } else {
                            assert(d == item_advance(itv));
                        }
                    }
                    assert forall|d: ItemV| item_views(next@).to_set().contains(d)
                        implies target.contains(d) by {
                        if d == item_advance(itv) {
                            assert(0 <= i < i + 1 && !item_complete(gv, itv) && item_stacktop(
                                gv,
                                itv,
                            ) == Option::Some(x@) && d == item_advance(itv));
                        } else {
                            assert(prev.contains(d));
                            let q = choose|q: int|
                                0 <= q < i && !item_complete(
                                    gv,
                                    #[trigger] item_views(items@)[q],
                                ) && item_stacktop(gv, item_views(items@)[q]) == Option::Some(
                                x@,
                            ) && d == item_advance(item_views(items@)[q]);
                        }
                    }
                    assert(item_views(next@).to_set() =~= target);
                }
            } else {
                proof {
                    assert forall|d: ItemV| target.contains(d) implies item_views(
                        next@,
                    ).to_set().contains(d) by {
                        let q = choose|q: int|
                            0 <= q < i + 1 && !item_complete(
                                gv,
                                #[trigger] item_views(items@)[q],
                            ) && item_stacktop(gv, item_views(items@)[q]) == Option::Some(x@)
                                && d == item_advance(item_views(items@)[q]);
                        if q < i {
                            assert(prev.contains(d));
                        }
                    }
                    assert forall|d: ItemV| item_views(next@).to_set().contains(d)
                        implies target.contains(d) by {
                        assert(prev.contains(d));
                        let q = choose|q: int|
                            0 <= q < i && !item_complete(
                                gv,
                                #[trigger] item_views(items@)[q],
                            ) && item_stacktop(gv, item_views(items@)[q]) == Option::Some(x@)
                                && d == item_advance(item_views(items@)[q]);
                    }
                    assert(item_views(next@).to_set() =~= target);
                }
            }
            i += 1;
        }
        proof {
            assert(item_views(next@).to_set() =~= kernel(gv, sv, x@)) by {
                assert forall|d: ItemV| kernel(gv, sv, x@).contains(d) implies item_views(
                    next@,
                ).to_set().contains(d) by {
                    let it2 = choose|it2: ItemV|
                        #[trigger] sv.contains(it2) && !item_complete(gv, it2) && item_stacktop(
                            gv,
                            it2,
                        ) == Option::Some(x@) && d == item_advance(it2);
                    let q = choose|q: int|
                        0 <= q < item_views(items@).len() && item_views(items@)[q] == it2;
                }
                assert forall|d: ItemV| item_views(next@).to_set().contains(d) implies kernel(
                    gv,
                    sv,
                    x@,
                ).contains(d) by {
                    let q = choose|q: int|
                        0 <= q < items@.len() && !item_complete(
                            gv,
                            #[trigger] item_views(items@)[q],
                        ) && item_stacktop(gv, item_views(items@)[q]) == Option::Some(x@) && d
                            == item_advance(item_views(items@)[q]);
                    assert(sv.contains(item_views(items@)[q]));
                }
            }
        }
        if next.len() == 0 {
            proof {
                assert(item_views(next@).to_set() =~= Set::<ItemV>::empty());
            }
            Option::None
        } else {
            proof {
                assert(item_views(next@).to_set().contains(item_views(next@)[0]));
            }
            let r = self.closure(&next);
            Option::Some(r)
        }
    }
}


/// Membership of an action in a cell.
fn acts_contain(v: &Vec<Action>, a: Action) -> (r: bool)
    ensures
        r == v@.contains(a),
{
    let mut i: usize = 0;
    while i < v.len()
        invariant
            0 <= i <= v.len(),
            forall|k: int| 0 <= k < i ==> v@[k] != a,
        decreases v.len() - i,
    {
        if v[i] == a {
            assert(v@[i as int] == a);
            return true;
        }
        i += 1;
    }
    false
}

/// Membership of a state index in a cell.
fn usizes_contain(v: &Vec<usize>, a: usize) -> (r: bool)
    ensures
        r == v@.contains(a),
{
    let mut i: usize = 0;
    while i < v.len()
        invariant
            0 <= i <= v.len(),
            forall|k: int| 0 <= k < i ==> v@[k] != a,
        decreases v.len() - i,
    {
        if v[i] == a {
            assert(v@[i as int] == a);
            return true;
        }
        i += 1;
    }
    false
}

impl Parser {
    /// Record action `a` at `(state i, terminal t)`, keeping the cell a set.
    fn record_action(&mut self, i: usize, t: &Symbol, a: Action)
        requires
            i < old(self).actions@.len(),
            row_ok(old(self).acts_v()[i as int]),
        ensures
            final(self).grammar == old(self).grammar,
            final(self).cc == old(self).cc,
            final(self).gotos == old(self).gotos,
            final(self).stack == old(self).stack,
            final(self).actions@.len() == old(self).actions@.len(),
            row_ok(final(self).acts_v()[i as int]),
            forall|i2: int|
                0 <= i2 < final(self).actions@.len() && i2 != i ==> final(self).acts_v()[i2]
                    == old(self).acts_v()[i2],
            forall|t2: SymbolV|
                t2 != t@ ==> final(self).act_of(i as int, t2) == old(self).act_of(i as int, t2),
            final(self).act_of(i as int, t@).contains(a),
            forall|b: Action|
                #[trigger] final(self).act_of(i as int, t@).contains(b) <==> (old(self).act_of(
                    i as int,
                    t@,
                ).contains(b) || b == a),
    {
        let ghost oldacts = self.acts_v();
        let ghost oldrow = self.acts_v()[i as int];
        let mut row = self.actions.remove(i);
        proof {
            assert(row@.map_values(|p: (Symbol, Vec<Action>)| (p.0@, p.1@)) == oldrow);
        }
        // Find the first pair keyed by `t`.
        let mut k: usize = 0;
        let mut found = false;
        while k < row.len() && !found
            invariant
                0 <= k <= row@.len(),
                oldrow == row@.map_values(|p: (Symbol, Vec<Action>)| (p.0@, p.1@)),
                !found ==> forall|q: int| 0 <= q < k ==> (#[trigger] oldrow[q]).0 != t@,
                found ==> k < row@.len() && oldrow[k as int].0 == t@ && (forall|q: int|
                    0 <= q < k ==> (#[trigger] oldrow[q]).0 != t@),
            decreases row@.len() - k, (if found { 0int } else { 1int }),
        {
            if row[k].0.sym_eq(t) {
                found = true;
            } else {
                k += 1;
            }
        }
        if found {
            proof {
                lemma_find_pair_at(oldrow, t@, k as int);
            }
            let mut pair = row.remove(k);
            if !acts_contain(&pair.1, a) {
                pair.1.push(a);
            }
            let ghost newcell = pair.1@;
            row.insert(k, pair);
            proof {
                assert(row@ =~= old(self).actions@[i as int]@.update(
                    k as int,
                    row@[k as int],
                ));
                assert(row@.map_values(|p: (Symbol, Vec<Action>)| (p.0@, p.1@)) =~= oldrow.update(
                    k as int,
                    (t@, newcell),
                ));
            }
        } else {
            let mut cell: Vec<Action> = Vec::new();
            cell.push(a);
            let ghost newcell = cell@;
            row.push((t.dup(), cell));
            proof {
                assert(newcell =~= seq![a]);
                assert(row@.map_values(|p: (Symbol, Vec<Action>)| (p.0@, p.1@)) =~= oldrow.push(
                    (t@, newcell),
                ));
                lemma_find_pair(oldrow, t@);
            }
        }
        self.actions.insert(i, row);
        proof {
            assert(self.actions@ =~= old(self).actions@.update(i as int, self.actions@[i as int]));
            assert(self.acts_v() =~= oldacts.update(
                i as int,
                row@.map_values(|p: (Symbol, Vec<Action>)| (p.0@, p.1@)),
            ));
            let newrow = self.acts_v()[i as int];
            if found {
                let ghost kk = k as int;
                assert(newrow == oldrow.update(kk, (t@, newrow[kk].1)));
                assert forall|t2: SymbolV| find_pair(newrow, t2) == find_pair(oldrow, t2) by {
                    lemma_find_pair_update(oldrow, kk, newrow[kk].1, t2);
                    assert(oldrow.update(kk, (oldrow[kk].0, newrow[kk].1)) =~= newrow);
                }
                assert forall|t2: SymbolV| t2 != t@ implies self.act_of(i as int, t2) == old(
                    self,
                ).act_of(i as int, t2) by {
                    lemma_find_pair(oldrow, t2);
                    let fp = find_pair(oldrow, t2);
                    if 0 <= fp {
                        assert(oldrow[fp].0 == t2);
                        assert(fp != kk);
                        assert(newrow[fp] == oldrow[fp]);
                    }
                }
                assert(row_ok(newrow)) by {
                    assert(newrow.map_values(|p: (SymbolV, Seq<Action>)| p.0) =~= oldrow.map_values(
                        |p: (SymbolV, Seq<Action>)| p.0,
                    ));
                    assert forall|q: int|
                        0 <= q < newrow.len() implies (#[trigger] newrow[q]).1.len() >= 1
                        && newrow[q].1.no_duplicates() by {
                        if q != kk {
                            assert(newrow[q] == oldrow[q]);
                        } else {
                            broadcast use vstd::seq_lib::group_seq_properties;

                        }
                    }
                }
                assert(find_pair(oldrow, t@) == kk);
                assert(self.act_of(i as int, t@) == newrow[kk].1);
                assert(self.act_of(i as int, t@).contains(a)) by {
                    if !oldrow[kk].1.contains(a) {
                        assert(newrow[kk].1 == oldrow[kk].1.push(a));
                        assert(newrow[kk].1.last() == a);
                    }
                }
                assert forall|b: Action|
                    #[trigger] self.act_of(i as int, t@).contains(b) <==> (old(self).act_of(
                        i as int,
                        t@,
                    ).contains(b) || b == a) by {
                    if !oldrow[kk].1.contains(a) {
                        assert(newrow[kk].1 == oldrow[kk].1.push(a));
                        if self.act_of(i as int, t@).contains(b) {
                            let q = choose|q: int|
                                0 <= q < newrow[kk].1.len() && newrow[kk].1[q] == b;
                            if q < oldrow[kk].1.len() {
                                assert(oldrow[kk].1[q] == b);
                            }
                        }
                        if old(self).act_of(i as int, t@).contains(b) {
                            let q = choose|q: int|
                                0 <= q < oldrow[kk].1.len() && oldrow[kk].1[q] == b;
                            assert(newrow[kk].1[q] == b);
                        }
                        if b == a {
                            assert(newrow[kk].1.last() == a);
                        }
                    }
                }
            } else {
                assert(newrow == oldrow.push((t@, seq![a])));
                assert(find_pair(oldrow, t@) == -1);
                assert forall|t2: SymbolV| t2 != t@ implies self.act_of(i as int, t2) == old(
                    self,
                ).act_of(i as int, t2) by {
                    lemma_find_pair_push(oldrow, (t@, seq![a]), t2);
                    lemma_find_pair(oldrow, t2);
                    if 0 <= find_pair(oldrow, t2) {
                        assert(newrow[find_pair(oldrow, t2)] == oldrow[find_pair(oldrow, t2)]);
                    }
                }
                assert(row_ok(newrow)) by {
                    let oldkeys = oldrow.map_values(|p: (SymbolV, Seq<Action>)| p.0);
                    let newkeys = newrow.map_values(|p: (SymbolV, Seq<Action>)| p.0);
                    assert(newkeys =~= oldkeys.push(t@));
                    assert forall|q: int| 0 <= q < oldkeys.len() implies oldkeys[q] != t@ by {
                        assert((#[trigger] oldrow[q]).0 != t@) by {
                            lemma_find_pair(oldrow, t@);
                        }
                    }
                    broadcast use vstd::seq_lib::group_seq_properties;

                    assert forall|q: int|
                        0 <= q < newrow.len() implies (#[trigger] newrow[q]).1.len() >= 1
                        && newrow[q].1.no_duplicates() by {
                        if q < oldrow.len() {
                            assert(newrow[q] == oldrow[q]);
                        } else {
                            assert(newrow[q].1 == seq![a]);
                        }
                    }
                }
                lemma_find_pair_push(oldrow, (t@, seq![a]), t@);
                assert(find_pair(newrow, t@) == oldrow.len());
                assert(self.act_of(i as int, t@) == seq![a]);
                assert(self.act_of(i as int, t@).contains(a)) by {
                    assert(seq![a][0] == a);
                }
                assert forall|b: Action|
                    #[trigger] self.act_of(i as int, t@).contains(b) <==> (old(self).act_of(
                        i as int,
                        t@,
                    ).contains(b) || b == a) by {
                    if self.act_of(i as int, t@).contains(b) {
                        let q = choose|q: int| 0 <= q < seq![a].len() && seq![a][q] == b;
                        assert(b == a);
                    }
                    assert(old(self).act_of(i as int, t@) == Seq::<Action>::empty());
                }
            }
        }
    }
}


impl Parser {
    /// Record successor `j` at `(state i, non-terminal x)`, keeping the cell
    /// a set.
    fn record_goto(&mut self, i: usize, x: &Symbol, j: usize)
        requires
            i < old(self).gotos@.len(),
            row_ok(old(self).gotos_v()[i as int]),
        ensures
            final(self).grammar == old(self).grammar,
            final(self).cc == old(self).cc,
            final(self).actions == old(self).actions,
            final(self).stack == old(self).stack,
            final(self).gotos@.len() == old(self).gotos@.len(),
            row_ok(final(self).gotos_v()[i as int]),
            forall|i2: int|
                0 <= i2 < final(self).gotos@.len() && i2 != i ==> final(self).gotos_v()[i2]
                    == old(self).gotos_v()[i2],
            forall|x2: SymbolV|
                x2 != x@ ==> final(self).goto_of(i as int, x2) == old(self).goto_of(i as int, x2),
            final(self).goto_of(i as int, x@).contains(j as int),
            forall|b: int|
                #[trigger] final(self).goto_of(i as int, x@).contains(b) <==> (old(self).goto_of(
                    i as int,
                    x@,
                ).contains(b) || b == j as int),
    {
        let ghost oldgotos = self.gotos_v();
        let ghost oldrow = self.gotos_v()[i as int];
        let mut row = self.gotos.remove(i);
        proof {
            assert(row@.map_values(
                |p: (Symbol, Vec<usize>)| (p.0@, p.1@.map_values(|u: usize| u as int)),
            ) == oldrow);
        }
        let mut k: usize = 0;
        let mut found = false;
        while k < row.len() && !found
            invariant
                0 <= k <= row@.len(),
                oldrow == row@.map_values(
                    |p: (Symbol, Vec<usize>)| (p.0@, p.1@.map_values(|u: usize| u as int)),
                ),
                !found ==> forall|q: int| 0 <= q < k ==> (#[trigger] oldrow[q]).0 != x@,
                found ==> k < row@.len() && oldrow[k as int].0 == x@ && (forall|q: int|
                    0 <= q < k ==> (#[trigger] oldrow[q]).0 != x@),
            decreases row@.len() - k, (if found { 0int } else { 1int }),
        {
            if row[k].0.sym_eq(x) {
                found = true;
            } else {
                k += 1;
            }
        }
        let mut had = false;
        let ghost mut oldcell: Seq<usize> = Seq::empty();
        if found {
            proof {
                lemma_find_pair_at(oldrow, x@, k as int);
            }
            let mut pair = row.remove(k);
            proof {
                oldcell = pair.1@;
            }
            had = usizes_contain(&pair.1, j);
            if !had {
                pair.1.push(j);
                proof {
                    assert(pair.1@.map_values(|u: usize| u as int) =~= oldcell.map_values(
                        |u: usize| u as int,
                    ).push(j as int));
                }
            }
            let ghost newcell = pair.1@.map_values(|u: usize| u as int);
            row.insert(k, pair);
            proof {
                assert(row@.map_values(
                    |p: (Symbol, Vec<usize>)| (p.0@, p.1@.map_values(|u: usize| u as int)),
                ) =~= oldrow.update(k as int, (x@, newcell)));
            }
        } else {
            let mut cell: Vec<usize> = Vec::new();
            cell.push(j);
            let ghost newcell = cell@.map_values(|u: usize| u as int);
            row.push((x.dup(), cell));
            proof {
                assert(newcell =~= seq![j as int]);
                assert(row@.map_values(
                    |p: (Symbol, Vec<usize>)| (p.0@, p.1@.map_values(|u: usize| u as int)),
                ) =~= oldrow.push((x@, newcell)));
                lemma_find_pair(oldrow, x@);
            }
        }
        self.gotos.insert(i, row);
        proof {
            assert(self.gotos@ =~= old(self).gotos@.update(i as int, self.gotos@[i as int]));
            assert(self.gotos_v() =~= oldgotos.update(
                i as int,
                row@.map_values(
                    |p: (Symbol, Vec<usize>)| (p.0@, p.1@.map_values(|u: usize| u as int)),
                ),
            ));
            let newrow = self.gotos_v()[i as int];
            if found {
                let ghost kk = k as int;
                assert(newrow == oldrow.update(kk, (x@, newrow[kk].1)));
                assert forall|x2: SymbolV| find_pair(newrow, x2) == find_pair(oldrow, x2) by {
                    lemma_find_pair_update(oldrow, kk, newrow[kk].1, x2);
                    assert(oldrow.update(kk, (oldrow[kk].0, newrow[kk].1)) =~= newrow);
                }
                assert forall|x2: SymbolV| x2 != x@ implies self.goto_of(i as int, x2) == old(
                    self,
                ).goto_of(i as int, x2) by {
                    lemma_find_pair(oldrow, x2);
                    let fp = find_pair(oldrow, x2);
                    if 0 <= fp {
                        assert(oldrow[fp].0 == x2);
                        assert(fp != kk);
                        assert(newrow[fp] == oldrow[fp]);
                    }
                }
                let ghost oc = oldrow[kk].1;
                assert(oc =~= oldcell.map_values(|u: usize| u as int));
                if had {
                    let q = choose|q: int| 0 <= q < oldcell.len() && oldcell[q] == j;
                    assert(oc[q] == j as int);
                    assert(oc.contains(j as int));
                } else {
                    assert(newrow[kk].1 =~= oc.push(j as int));
                    if oc.contains(j as int) {
                        let q = choose|q: int| 0 <= q < oc.len() && oc[q] == j as int;
                        assert(oldcell[q] == j);
                    }
                    assert(!oc.contains(j as int));
                }
                assert(row_ok(newrow)) by {
                    assert(newrow.map_values(|p: (SymbolV, Seq<int>)| p.0) =~= oldrow.map_values(
                        |p: (SymbolV, Seq<int>)| p.0,
                    ));
                    assert forall|q: int|
                        0 <= q < newrow.len() implies (#[trigger] newrow[q]).1.len() >= 1
                        && newrow[q].1.no_duplicates() by {
                        if q != kk {
                            assert(newrow[q] == oldrow[q]);
                        } else {
                            if !had {
                                assert(newrow[kk].1 =~= oc.push(j as int));
                                broadcast use vstd::seq_lib::group_seq_properties;

                            } else {
                                assert(newrow[kk].1 =~= oc);
                            }
                        }
                    }
                }
                assert(find_pair(oldrow, x@) == kk);
                assert(self.goto_of(i as int, x@) == newrow[kk].1);
                assert(old(self).goto_of(i as int, x@) == oc);
                // Membership in the cell: whether or not the index was new.
                if !had {
                    assert(newrow[kk].1 =~= oc.push(j as int));
                    assert(newrow[kk].1.last() == j as int);
                    assert forall|b: int|
                        #[trigger] newrow[kk].1.contains(b) <==> (oc.contains(b) || b
                            == j as int) by {
                        if newrow[kk].1.contains(b) {
                            let q = choose|q: int|
                                0 <= q < newrow[kk].1.len() && newrow[kk].1[q] == b;
                            if q < oc.len() {
                                assert(oc[q] == b);
                            }
                        }
                        if oc.contains(b) {
                            let q = choose|q: int| 0 <= q < oc.len() && oc[q] == b;
                            assert(newrow[kk].1[q] == b);
                        }
                    }
                } else {
                    assert(newrow[kk].1 =~= oc);
                }
            } else {
                assert(newrow == oldrow.push((x@, seq![j as int])));
                assert(find_pair(oldrow, x@) == -1);
                assert forall|x2: SymbolV| x2 != x@ implies self.goto_of(i as int, x2) == old(
                    self,
                ).goto_of(i as int, x2) by {
                    lemma_find_pair_push(oldrow, (x@, seq![j as int]), x2);
                    lemma_find_pair(oldrow, x2);
                    if 0 <= find_pair(oldrow, x2) {
                        assert(newrow[find_pair(oldrow, x2)] == oldrow[find_pair(oldrow, x2)]);
                    }
                }
                assert(row_ok(newrow)) by {
                    let oldkeys = oldrow.map_values(|p: (SymbolV, Seq<int>)| p.0);
                    let newkeys = newrow.map_values(|p: (SymbolV, Seq<int>)| p.0);
                    assert(newkeys =~= oldkeys.push(x@));
                    assert forall|q: int| 0 <= q < oldkeys.len() implies oldkeys[q] != x@ by {
                        assert((#[trigger] oldrow[q]).0 != x@) by {
                            lemma_find_pair(oldrow, x@);
                        }
                    }
                    broadcast use vstd::seq_lib::group_seq_properties;

                    assert forall|q: int|
                        0 <= q < newrow.len() implies (#[trigger] newrow[q]).1.len() >= 1
                        && newrow[q].1.no_duplicates() by {
                        if q < oldrow.len() {
                            assert(newrow[q] == oldrow[q]);
                        } else {
                            assert(newrow[q].1 == seq![j as int]);
                        }
                    }
                }
                lemma_find_pair_push(oldrow, (x@, seq![j as int]), x@);
                assert(find_pair(newrow, x@) == oldrow.len());
                assert(self.goto_of(i as int, x@) == seq![j as int]);
                assert(self.goto_of(i as int, x@).contains(j as int)) by {
                    assert(seq![j as int][0] == j as int);
                }
                assert forall|b: int|
                    #[trigger] self.goto_of(i as int, x@).contains(b) <==> (old(self).goto_of(
                        i as int,
                        x@,
                    ).contains(b) || b == j as int) by {
                    if self.goto_of(i as int, x@).contains(b) {
                        let q = choose|q: int|
                            0 <= q < seq![j as int].len() && seq![j as int][q] == b;
                        assert(b == j as int);
                    }
                    assert(old(self).goto_of(i as int, x@) == Seq::<int>::empty());
                }
            }
        }
    }

    /// Register a new state: append it with empty table rows.  The state
    /// must not already be present.
    pub fn insert_cc(&mut self, cc_i: Vec<Item>)
        requires
            old(self).actions@.len() == old(self).cc@.len(),
            old(self).gotos@.len() == old(self).cc@.len(),
            forall|k: int|
                0 <= k < old(self).cc@.len() ==> #[trigger] old(self).sets()[k] != item_views(
                    cc_i@,
                ).to_set(),
        ensures
            final(self).grammar == old(self).grammar,
            final(self).stack == old(self).stack,
            final(self).cc@ == old(self).cc@.push(cc_i),
            final(self).cc@.len() == old(self).cc@.len() + 1,
            final(self).actions@.len() == final(self).cc@.len(),
            final(self).gotos@.len() == final(self).cc@.len(),
            final(self).acts_v() == old(self).acts_v().push(
                Seq::<(SymbolV, Seq<Action>)>::empty(),
            ),
            final(self).gotos_v() == old(self).gotos_v().push(Seq::<(SymbolV, Seq<int>)>::empty()),
            final(self).sets() == old(self).sets().push(item_views(cc_i@).to_set()),
    {
        let ghost civ = item_views(cc_i@).to_set();
        self.cc.push(cc_i);
        self.actions.push(Vec::new());
        self.gotos.push(Vec::new());
        proof {
            assert(self.cc@ =~= old(self).cc@.push(self.cc@.last()));
            assert(self.sets() =~= old(self).sets().push(civ));
            assert(self.acts_v() =~~= old(self).acts_v().push(
                Seq::<(SymbolV, Seq<Action>)>::empty(),
            ));
            assert(self.gotos_v() =~~= old(self).gotos_v().push(
                Seq::<(SymbolV, Seq<int>)>::empty(),
            ));
        }
    }

    /// The index of the state with the same item set, if present.
    pub fn find_state(&self, st: &Vec<Item>) -> (r: Option<usize>)
        ensures
            match r {
                Option::None => forall|k: int|
                    0 <= k < self.cc@.len() ==> #[trigger] self.sets()[k] != item_views(
                        st@,
                    ).to_set(),
                Option::Some(k) => k < self.cc@.len() && self.sets()[k as int] == item_views(
                    st@,
                ).to_set(),
            },
    {
        let mut k: usize = 0;
        while k < self.cc.len()
            invariant
                0 <= k <= self.cc@.len(),
                forall|q: int|
                    0 <= q < k ==> #[trigger] self.sets()[q] != item_views(st@).to_set(),
            decreases self.cc@.len() - k,
        {
            if items_set_eq(&self.cc[k], st) {
                proof {
                    assert(self.sets()[k as int] == item_views(self.cc@[k as int]@).to_set());
                }
                return Option::Some(k);
            }
            proof {
                assert(self.sets()[k as int] == item_views(self.cc@[k as int]@).to_set());
            }
            k += 1;
        }
        Option::None
    }
}


/// In a well-formed row, the cell at position `k` is what lookup under its
/// key yields.
proof fn lemma_row_entry_cell<T>(row: Seq<(SymbolV, Seq<T>)>, k: int)
    requires
        row_ok(row),
        0 <= k < row.len(),
    ensures
        find_pair(row, row[k].0) == k,
{
    let keys = row.map_values(|p: (SymbolV, Seq<T>)| p.0);
    assert forall|q: int| 0 <= q < k implies (#[trigger] row[q]).0 != row[k].0 by {
        assert(keys[q] == row[q].0);
        assert(keys[k] == row[k].0);
    }
    lemma_find_pair_at(row, row[k].0, k);
}

/// Closure keeps the `EOF` lookahead on items of the augmented production.
proof fn lemma_closure_fg(g: GrammarV, seed: Set<ItemV>)
    requires
        aug_wf(g),
        forall|it: ItemV| seed.contains(it) ==> fg_ok(it),
    ensures
        forall|x: ItemV| closure_sp(g, seed).contains(x) ==> fg_ok(x),
{
    let okset = Set::new(|x: ItemV| fg_ok(x));
    assert(closed(g, okset)) by {
        assert forall|it: ItemV, d: ItemV|
            #[trigger] okset.contains(it) && #[trigger] item_child(g, it, d) implies okset.contains(
            d,
        ) by {
            assert(g.prods[d.prod].from == g.prods[it.prod].to[it.dot]);
            assert(g.prods[it.prod].to[it.dot] != fake_goal_v());
            if d.prod == 0 {
                assert(g.prods[0].from == fake_goal_v());
            }
        }
    }
    lemma_closure_least(g, seed, okset);
}

impl Parser {
    /// One route survives growing the tables and appending states.
    proof fn lemma_route_one(old_p: Parser, new_p: Parser, i2: int, it: ItemV)
        requires
            old_p.grammar == new_p.grammar,
            old_p.cc@.len() <= new_p.cc@.len(),
            forall|q: int| 0 <= q < old_p.cc@.len() ==> new_p.cc@[q] == old_p.cc@[q],
            0 <= i2 < old_p.cc@.len(),
            forall|t2: SymbolV, b: Action|
                #[trigger] old_p.act_of(i2, t2).contains(b) ==> new_p.act_of(i2, t2).contains(b),
            forall|x2: SymbolV, b: int|
                #[trigger] old_p.goto_of(i2, x2).contains(b) ==> new_p.goto_of(i2, x2).contains(
                    b,
                ),
            old_p.item_route(i2, it),
        ensures
            new_p.item_route(i2, it),
    {
        let g = old_p.grammar@;
        {
            if item_complete(g, it) {
                if item_terminator(g, it) {
                    assert(old_p.act_of(i2, it.la).contains(Action::Accept));
                    assert(new_p.act_of(i2, it.la).contains(Action::Accept));
                } else {
                    assert(old_p.act_of(i2, it.la).contains(Action::Reduce(it.prod as usize)));
                    assert(new_p.act_of(i2, it.la).contains(
                        Action::Reduce(it.prod as usize),
                    ));
                }
            } else {
                let x = g.prods[it.prod].to[it.dot];
                let j = choose|j: usize| #[trigger] old_p.route_witness(i2, it, j);
                assert(old_p.route_witness(i2, it, j));
                assert(new_p.cc@[j as int] == old_p.cc@[j as int]);
                assert(new_p.sets()[j as int] == item_views(new_p.cc@[j as int]@).to_set());
                assert(old_p.sets()[j as int] == item_views(old_p.cc@[j as int]@).to_set());
                assert(new_p.cc@[i2] == old_p.cc@[i2]);
                assert(new_p.sets()[i2] == item_views(new_p.cc@[i2]@).to_set());
                assert(old_p.sets()[i2] == item_views(old_p.cc@[i2]@).to_set());
                if x.is_t() {
                    assert(old_p.act_of(i2, x).contains(Action::Shift(j)));
                    assert(new_p.act_of(i2, x).contains(Action::Shift(j)));
                }
                if x.is_nt() {
                    assert(old_p.goto_of(i2, x).contains(j as int));
                    assert(new_p.goto_of(i2, x).contains(j as int));
                }
                assert(new_p.route_witness(i2, it, j));
            }
        }
    }

    /// Routes survive growing the tables and appending states.
    proof fn lemma_routes_preserved(old_p: Parser, new_p: Parser, upto: int)
        requires
            0 <= upto <= old_p.cc@.len(),
            old_p.grammar == new_p.grammar,
            old_p.cc@.len() <= new_p.cc@.len(),
            forall|q: int| 0 <= q < old_p.cc@.len() ==> new_p.cc@[q] == old_p.cc@[q],
            forall|i2: int, t2: SymbolV, b: Action|
                0 <= i2 < upto && #[trigger] old_p.act_of(i2, t2).contains(b)
                    ==> new_p.act_of(i2, t2).contains(b),
            forall|i2: int, x2: SymbolV, b: int|
                0 <= i2 < upto && #[trigger] old_p.goto_of(i2, x2).contains(b)
                    ==> new_p.goto_of(i2, x2).contains(b),
            forall|i2: int, it: ItemV|
                0 <= i2 < upto && #[trigger] old_p.sets()[i2].contains(it) ==> old_p.item_route(
                    i2,
                    it,
                ),
        ensures
            forall|i2: int, it: ItemV|
                0 <= i2 < upto && #[trigger] new_p.sets()[i2].contains(it) ==> new_p.item_route(
                    i2,
                    it,
                ),
    {
        assert forall|q: int| 0 <= q < old_p.cc@.len() implies new_p.sets()[q]
            == old_p.sets()[q] by {
            assert(new_p.cc@[q] == old_p.cc@[q]);
            assert(new_p.sets()[q] == item_views(new_p.cc@[q]@).to_set());
            assert(old_p.sets()[q] == item_views(old_p.cc@[q]@).to_set());
        }
        assert forall|i2: int, it: ItemV|
            0 <= i2 < upto && #[trigger] new_p.sets()[i2].contains(it) implies new_p.item_route(
            i2,
            it,
        ) by {
            assert(old_p.sets()[i2].contains(it));
            assert(old_p.item_route(i2, it));
            Parser::lemma_route_one(old_p, new_p, i2, it);
        }
    }

    /// Soundness survives adding one sound ACTION entry.
    proof fn lemma_sound_after_action(old_p: Parser, new_p: Parser, i: int, t: SymbolV, a: Action)
        requires
            old_p.tables_sound(),
            forall|i2: int| 0 <= i2 < old_p.acts_v().len() ==> row_ok(#[trigger] old_p.acts_v()[i2]),
            0 <= i < old_p.actions@.len(),
            new_p.grammar == old_p.grammar,
            new_p.cc == old_p.cc,
            new_p.gotos == old_p.gotos,
            new_p.actions@.len() == old_p.actions@.len(),
            row_ok(new_p.acts_v()[i]),
            forall|i2: int|
                0 <= i2 < new_p.actions@.len() && i2 != i ==> #[trigger] new_p.acts_v()[i2]
                    == old_p.acts_v()[i2],
            forall|t2: SymbolV| t2 != t ==> new_p.act_of(i, t2) == old_p.act_of(i, t2),
            forall|b: Action|
                #[trigger] new_p.act_of(i, t).contains(b) <==> (old_p.act_of(i, t).contains(b) || b
                    == a),
            new_p.action_sound(i, t, a),
        ensures
            new_p.tables_sound(),
            forall|i2: int| 0 <= i2 < new_p.acts_v().len() ==> row_ok(#[trigger] new_p.acts_v()[i2]),
    {
        assert forall|i2: int| 0 <= i2 < new_p.acts_v().len() implies row_ok(
            #[trigger] new_p.acts_v()[i2],
        ) by {
            if i2 != i {
                assert(new_p.acts_v()[i2] == old_p.acts_v()[i2]);
            }
        }
        // Any old entry is sound in the new parser too: the tables it speaks
        // of are unchanged.
        assert forall|i2: int, t2: SymbolV, b: Action|
            0 <= i2 < old_p.acts_v().len() && #[trigger] old_p.act_of(i2, t2).contains(b)
            implies new_p.action_sound(i2, t2, b) by {
            let row = old_p.acts_v()[i2];
            lemma_find_pair(row, t2);
            let k = find_pair(row, t2);
            assert(0 <= k);
            assert(row[k].0 == t2);
            let n = choose|n: int| 0 <= n < row[k].1.len() && row[k].1[n] == b;
            assert(old_p.action_sound(i2, row[k].0, row[k].1[n]));
            assert(old_p.action_sound(i2, t2, b));
        }
        assert forall|i2: int, k: int, n: int|
            0 <= i2 < new_p.acts_v().len() && 0 <= k < new_p.acts_v()[i2].len() && 0 <= n
                < new_p.acts_v()[i2][k].1.len() implies new_p.action_sound(
            i2,
            new_p.acts_v()[i2][k].0,
            #[trigger] new_p.acts_v()[i2][k].1[n],
        ) by {
            let row = new_p.acts_v()[i2];
            let t2 = row[k].0;
            let b = row[k].1[n];
            lemma_row_entry_cell(row, k);
            assert(new_p.act_of(i2, t2) == row[k].1);
            assert(new_p.act_of(i2, t2).contains(b));
            if i2 == i {
                if t2 == t {
                    if b != a {
                        assert(old_p.act_of(i2, t2).contains(b));
                    }
                } else {
                    assert(old_p.act_of(i2, t2).contains(b));
                }
            } else {
                assert(row == old_p.acts_v()[i2]);
                assert(old_p.act_of(i2, t2) == row[k].1) by {
                    lemma_row_entry_cell(old_p.acts_v()[i2], k);
                }
                assert(old_p.act_of(i2, t2).contains(b));
            }
        }
        assert forall|i2: int, k: int, n: int|
            0 <= i2 < new_p.gotos_v().len() && 0 <= k < new_p.gotos_v()[i2].len() && 0 <= n
                < new_p.gotos_v()[i2][k].1.len() implies new_p.goto_sound(
            i2,
            new_p.gotos_v()[i2][k].0,
            #[trigger] new_p.gotos_v()[i2][k].1[n],
        ) by {
            assert(new_p.gotos_v()[i2] == old_p.gotos_v()[i2]);
            assert(old_p.goto_sound(i2, old_p.gotos_v()[i2][k].0, old_p.gotos_v()[i2][k].1[n]));
        }
    }

    /// Soundness survives adding one sound GOTO entry.
    proof fn lemma_sound_after_goto(old_p: Parser, new_p: Parser, i: int, x: SymbolV, j: usize)
        requires
            old_p.tables_sound(),
            forall|i2: int|
                0 <= i2 < old_p.gotos_v().len() ==> row_ok(#[trigger] old_p.gotos_v()[i2]),
            0 <= i < old_p.gotos@.len(),
            new_p.grammar == old_p.grammar,
            new_p.cc == old_p.cc,
            new_p.actions == old_p.actions,
            new_p.gotos@.len() == old_p.gotos@.len(),
            row_ok(new_p.gotos_v()[i]),
            forall|i2: int|
                0 <= i2 < new_p.gotos@.len() && i2 != i ==> #[trigger] new_p.gotos_v()[i2]
                    == old_p.gotos_v()[i2],
            forall|x2: SymbolV| x2 != x ==> new_p.goto_of(i, x2) == old_p.goto_of(i, x2),
            forall|b: int|
                #[trigger] new_p.goto_of(i, x).contains(b) <==> (old_p.goto_of(i, x).contains(b)
                    || b == j as int),
            new_p.goto_sound(i, x, j as int),
        ensures
            new_p.tables_sound(),
            forall|i2: int|
                0 <= i2 < new_p.gotos_v().len() ==> row_ok(#[trigger] new_p.gotos_v()[i2]),
    {
        assert forall|i2: int| 0 <= i2 < new_p.gotos_v().len() implies row_ok(
            #[trigger] new_p.gotos_v()[i2],
        ) by {
            if i2 != i {
                assert(new_p.gotos_v()[i2] == old_p.gotos_v()[i2]);
            }
        }
        assert forall|i2: int, x2: SymbolV, b: int|
            0 <= i2 < old_p.gotos_v().len() && #[trigger] old_p.goto_of(i2, x2).contains(b)
            implies new_p.goto_sound(i2, x2, b) by {
            let row = old_p.gotos_v()[i2];
            lemma_find_pair(row, x2);
            let k = find_pair(row, x2);
            assert(0 <= k);
            assert(row[k].0 == x2);
            let n = choose|n: int| 0 <= n < row[k].1.len() && row[k].1[n] == b;
            assert(old_p.goto_sound(i2, row[k].0, row[k].1[n]));
        }
        assert forall|i2: int, k: int, n: int|
            0 <= i2 < new_p.gotos_v().len() && 0 <= k < new_p.gotos_v()[i2].len() && 0 <= n
                < new_p.gotos_v()[i2][k].1.len() implies new_p.goto_sound(
            i2,
            new_p.gotos_v()[i2][k].0,
            #[trigger] new_p.gotos_v()[i2][k].1[n],
        ) by {
            let row = new_p.gotos_v()[i2];
            let x2 = row[k].0;
            let b = row[k].1[n];
            lemma_row_entry_cell(row, k);
            assert(new_p.goto_of(i2, x2) == row[k].1);
            assert(new_p.goto_of(i2, x2).contains(b));
            if i2 == i {
                if x2 == x {
                    if b != j as int {
                        assert(old_p.goto_of(i2, x2).contains(b));
                    }
                } else {
                    assert(old_p.goto_of(i2, x2).contains(b));
                }
            } else {
                assert(row == old_p.gotos_v()[i2]);
                assert(old_p.goto_of(i2, x2) == row[k].1) by {
                    lemma_row_entry_cell(old_p.gotos_v()[i2], k);
                }
                assert(old_p.goto_of(i2, x2).contains(b));
            }
        }
        assert forall|i2: int, k: int, n: int|
            0 <= i2 < new_p.acts_v().len() && 0 <= k < new_p.acts_v()[i2].len() && 0 <= n
                < new_p.acts_v()[i2][k].1.len() implies new_p.action_sound(
            i2,
            new_p.acts_v()[i2][k].0,
            #[trigger] new_p.acts_v()[i2][k].1[n],
        ) by {
            assert(new_p.acts_v()[i2] == old_p.acts_v()[i2]);
            assert(old_p.action_sound(i2, old_p.acts_v()[i2][k].0, old_p.acts_v()[i2][k].1[n]));
        }
    }

    /// Soundness survives appending a state with empty rows.
    proof fn lemma_sound_after_insert(old_p: Parser, new_p: Parser)
        requires
            old_p.tables_sound(),
            old_p.actions@.len() == old_p.cc@.len(),
            old_p.gotos@.len() == old_p.cc@.len(),
            new_p.grammar == old_p.grammar,
            new_p.cc@ == old_p.cc@.push(new_p.cc@.last()),
            new_p.acts_v() == old_p.acts_v().push(Seq::<(SymbolV, Seq<Action>)>::empty()),
            new_p.gotos_v() == old_p.gotos_v().push(Seq::<(SymbolV, Seq<int>)>::empty()),
        ensures
            new_p.tables_sound(),
    {
        assert forall|q: int| 0 <= q < old_p.cc@.len() implies new_p.sets()[q]
            == old_p.sets()[q] by {
            assert(new_p.cc@[q] == old_p.cc@[q]);
            assert(new_p.sets()[q] == item_views(new_p.cc@[q]@).to_set());
            assert(old_p.sets()[q] == item_views(old_p.cc@[q]@).to_set());
        }
        assert forall|i2: int, k: int, n: int|
            0 <= i2 < new_p.acts_v().len() && 0 <= k < new_p.acts_v()[i2].len() && 0 <= n
                < new_p.acts_v()[i2][k].1.len() implies new_p.action_sound(
            i2,
            new_p.acts_v()[i2][k].0,
            #[trigger] new_p.acts_v()[i2][k].1[n],
        ) by {
            if i2 < old_p.acts_v().len() {
                assert(new_p.acts_v()[i2] == old_p.acts_v()[i2]);
                let t2 = old_p.acts_v()[i2][k].0;
                let b = old_p.acts_v()[i2][k].1[n];
                assert(old_p.action_sound(i2, t2, b));
                assert(i2 < old_p.cc@.len());
                assert(new_p.sets()[i2] == old_p.sets()[i2]);
                match b {
                    Action::Shift(j) => {
                        assert(0 <= j < old_p.cc@.len());
                        assert(new_p.sets()[j as int] == old_p.sets()[j as int]);
                    },
                    _ => {},
                }
                assert(new_p.action_sound(i2, t2, b));
            } else {
                assert(new_p.acts_v()[i2] == Seq::<(SymbolV, Seq<Action>)>::empty());
            }
        }
        assert forall|i2: int, k: int, n: int|
            0 <= i2 < new_p.gotos_v().len() && 0 <= k < new_p.gotos_v()[i2].len() && 0 <= n
                < new_p.gotos_v()[i2][k].1.len() implies new_p.goto_sound(
            i2,
            new_p.gotos_v()[i2][k].0,
            #[trigger] new_p.gotos_v()[i2][k].1[n],
        ) by {
            if i2 < old_p.gotos_v().len() {
                assert(new_p.gotos_v()[i2] == old_p.gotos_v()[i2]);
                let x2 = old_p.gotos_v()[i2][k].0;
                let b = old_p.gotos_v()[i2][k].1[n];
                assert(old_p.goto_sound(i2, x2, b));
                assert(i2 < old_p.cc@.len());
                assert(new_p.sets()[i2] == old_p.sets()[i2]);
                assert(new_p.sets()[b] == old_p.sets()[b]);
                assert(new_p.goto_sound(i2, x2, b));
            } else {
                assert(new_p.gotos_v()[i2] == Seq::<(SymbolV, Seq<int>)>::empty());
            }
        }
    }
}


impl Parser {
    /// The invariant of the canonical-collection construction, without the
    /// completeness of the tables.
    pub open spec fn cc_inv(&self) -> bool {
        let g = self.grammar@;
        &&& self.grammar.wf()
        &&& aug_wf(g)
        &&& self.cc@.len() >= 1
        &&& self.actions@.len() == self.cc@.len()
        &&& self.gotos@.len() == self.cc@.len()
        &&& forall|i: int| 0 <= i < self.cc@.len() ==> state_ok(g, (#[trigger] self.cc@[i])@)
        &&& forall|i: int| 0 <= i < self.cc@.len() ==> closed(g, #[trigger] self.sets()[i])
        &&& forall|i: int, j: int|
            0 <= i < self.cc@.len() && 0 <= j < self.cc@.len() && i != j
                ==> #[trigger] self.sets()[i] != #[trigger] self.sets()[j]
        &&& self.sets()[0] == closure_sp(g, init_items())
        &&& forall|i: int, it: ItemV|
            0 <= i < self.cc@.len() && #[trigger] self.sets()[i].contains(it) ==> fg_ok(it)
        &&& forall|i: int| 0 <= i < self.acts_v().len() ==> row_ok(#[trigger] self.acts_v()[i])
        &&& forall|i: int| 0 <= i < self.gotos_v().len() ==> row_ok(#[trigger] self.gotos_v()[i])
        &&& self.tables_sound()
    }

    /// Build the canonical collection and its tables by a worklist over the
    /// states, processing each state's items once.
    fn build_cc(&mut self)
        requires
            old(self).grammar.wf(),
            aug_wf(old(self).grammar@),
            old(self).cc@.len() == 0,
            old(self).actions@.len() == 0,
            old(self).gotos@.len() == 0,
        ensures
            final(self).grammar == old(self).grammar,
            final(self).stack == old(self).stack,
            final(self).wf(),
    {
        let ghost gv = self.grammar@;
        let ghost keys = views(self.grammar.first_keys@);
        let init = Item::from_production(0, Symbol::eof());
        proof {
            assert(gsyms(gv.goal, gv.prods).contains(eof_v()));
            assert(item_wf(gv, init@));
        }
        let mut seedv: Vec<Item> = Vec::new();
        seedv.push(init);
        proof {
            assert(item_views(seedv@) =~= seq![ItemV { prod: 0, dot: 0, la: eof_v() }]);
            assert(item_views(seedv@).to_set() =~= init_items()) by {
                assert forall|y: ItemV| item_views(seedv@).to_set().contains(y)
                    implies init_items().contains(y) by {
                    let w = choose|w: int|
                        0 <= w < item_views(seedv@).len() && item_views(seedv@)[w] == y;
                    assert(w == 0);
                }
                assert(item_views(seedv@)[0] == ItemV { prod: 0, dot: 0, la: eof_v() });
                assert(item_views(seedv@).contains(ItemV { prod: 0, dot: 0, la: eof_v() }));
            }
            assert forall|k: int| 0 <= k < seedv@.len() implies item_wf(
                gv,
                #[trigger] item_views(seedv@)[k],
            ) by {
                assert(item_views(seedv@)[k] == ItemV { prod: 0, dot: 0, la: eof_v() });
            }
        }
        let cc0 = self.closure(&seedv);
        proof {
            lemma_closure_fg(gv, init_items());
            lemma_item_bound_nonneg(gv, keys);
            lemma_two_pow_pos(item_bound(gv, keys));
        }
        self.insert_cc(cc0);
        proof {
            lemma_closure_closed(gv, init_items());
            assert(self.sets()[0] == closure_sp(gv, init_items()));
            assert forall|i: int| 0 <= i < self.acts_v().len() implies row_ok(
                #[trigger] self.acts_v()[i],
            ) by {
                assert(self.acts_v()[i] == Seq::<(SymbolV, Seq<Action>)>::empty());
            }
            assert forall|i: int| 0 <= i < self.gotos_v().len() implies row_ok(
                #[trigger] self.gotos_v()[i],
            ) by {
                assert(self.gotos_v()[i] == Seq::<(SymbolV, Seq<int>)>::empty());
            }
            assert(self.cc_inv());
        }
        let mut i: usize = 0;
        while i < self.cc.len()
            invariant
                self.grammar == old(self).grammar,
                self.stack == old(self).stack,
                gv == self.grammar@,
                keys == views(self.grammar.first_keys@),
                self.cc_inv(),
                0 <= i <= self.cc@.len(),
                forall|i2: int, it: ItemV|
                    0 <= i2 < i && #[trigger] self.sets()[i2].contains(it) ==> self.item_route(
                        i2,
                        it,
                    ),
                self.cc@.len() <= two_pow(item_bound(gv, keys)),
            decreases two_pow(item_bound(gv, keys)) - self.cc@.len(), self.cc@.len() - i,
        {
            let ghost cc_len0 = self.cc@.len();
            let st = dup_items(&self.cc[i]);
            proof {
                assert(st@ == self.cc@[i as int]@);
                assert(state_ok(gv, st@));
            }
            let mut j: usize = 0;
            while j < st.len()
                invariant
                    self.grammar == old(self).grammar,
                    self.stack == old(self).stack,
                    gv == self.grammar@,
                    keys == views(self.grammar.first_keys@),
                    self.cc_inv(),
                    0 <= i < self.cc@.len(),
                    0 <= j <= st@.len(),
                    st@ == self.cc@[i as int]@,
                    forall|i2: int, it: ItemV|
                        0 <= i2 < i && #[trigger] self.sets()[i2].contains(it)
                            ==> self.item_route(i2, it),
                    forall|k: int|
                        0 <= k < j ==> self.item_route(i as int, #[trigger] item_views(st@)[k]),
                    self.cc@.len() <= two_pow(item_bound(gv, keys)),
                    self.cc@.len() >= cc_len0,
                decreases
                        two_pow(item_bound(gv, keys)) - self.cc@.len(),
                        st@.len() - j,
            {
                let ghost self0 = *self;
                let it = st[j].dup();
                let ghost itv = item_views(st@)[j as int];
                proof {
                    assert(item_views(st@)[j as int] == st@[j as int]@);
                    assert(it@ == itv);
                    assert(item_wf(gv, itv));
                    assert(self.sets()[i as int].contains(itv)) by {
                        assert(self.sets()[i as int] == item_views(self.cc@[i as int]@).to_set());
                        assert(item_views(st@).to_set().contains(itv));
                    }
                }
                if it.is_complete(&self.grammar) {
                    let act = if it.is_terminator(&self.grammar) {
                        Action::Accept
                    } else {
                        Action::Reduce(it.prod)
                    };
                    self.record_action(i, &it.lookahead, act);
                    proof {
                        // The new entry is sound.
                        assert(self.sets() == self0.sets());
                        assert(self.action_sound(i as int, itv.la, act)) by {
                            assert(self.sets()[i as int].contains(itv));
                        }
                        Parser::lemma_sound_after_action(self0, *self, i as int, itv.la, act);
                        // Earlier routes survive: cells only grew.
                        assert forall|i2: int, t2: SymbolV, b: Action|
                            0 <= i2 < self.cc@.len() && #[trigger] self0.act_of(i2, t2).contains(
                            b,
                        ) implies self.act_of(i2, t2).contains(b) by {
                            if i2 == i as int && t2 == itv.la {
                            } else if i2 == i as int {
                                assert(self.act_of(i2, t2) == self0.act_of(i2, t2));
                            } else {
                                assert(self.acts_v()[i2] == self0.acts_v()[i2]);
                            }
                        }
                        assert forall|i2: int, x2: SymbolV, b: int|
                            0 <= i2 < self.cc@.len() && #[trigger] self0.goto_of(i2, x2).contains(
                            b,
                        ) implies self.goto_of(i2, x2).contains(b) by {
                            assert(self.gotos_v()[i2] == self0.gotos_v()[i2]);
                        }
                        Parser::lemma_routes_preserved(self0, *self, i as int);
                        // This item's route is now recorded.
                        assert(self.item_route(i as int, itv));
                        assert forall|k: int|
                            0 <= k < j + 1 implies self.item_route(
                            i as int,
                            #[trigger] item_views(st@)[k],
                        ) by {
                            if k < j as int {
                                assert(self0.sets()[i as int].contains(item_views(st@)[k])) by {
                                    assert(item_views(st@).to_set().contains(item_views(st@)[k]));
                                }
                                assert(self0.item_route(i as int, item_views(st@)[k]));
                                Parser::lemma_route_one(
                                    self0,
                                    *self,
                                    i as int,
                                    item_views(st@)[k],
                                );
                            }
                        }
                        // The rest of the invariant is untouched by the
                        // recording: states and GOTO rows are unchanged.
                        assert(self.cc@ == self0.cc@);
                        assert forall|i2: int| 0 <= i2 < self.cc@.len() implies state_ok(
                            gv,
                            (#[trigger] self.cc@[i2])@,
                        ) by {
                            assert(self.cc@[i2] == self0.cc@[i2]);
                            assert(state_ok(gv, self0.cc@[i2]@));
                        }
                        assert forall|i2: int| 0 <= i2 < self.cc@.len() implies closed(
                            gv,
                            #[trigger] self.sets()[i2],
                        ) by {
                            assert(closed(gv, self0.sets()[i2]));
                        }
                        assert forall|i2: int, it2: ItemV|
                            0 <= i2 < self.cc@.len() && #[trigger] self.sets()[i2].contains(it2)
                            implies fg_ok(it2) by {
                            assert(self0.sets()[i2].contains(it2));
                        }
                        assert forall|i2: int| 0 <= i2 < self.gotos_v().len() implies row_ok(
                            #[trigger] self.gotos_v()[i2],
                        ) by {
                            assert(self.gotos@ == self0.gotos@);
                            assert(self.gotos_v() =~= self0.gotos_v());
                            assert(row_ok(self0.gotos_v()[i2]));
                        }
                        assert(self.cc_inv());
                    }
                } else {
                    let x = match it.stacktop(&self.grammar) {
                        Option::Some(xx) => xx.dup(),
                        Option::None => vstd::pervasive::unreached(),
                    };
                    let next = match self.goto(&st, &x) {
                        Option::Some(n) => n,
                        Option::None => {
                            proof {
                                assert(kernel(gv, item_views(st@).to_set(), x@).contains(
                                    item_advance(itv),
                                )) by {
                                    assert(item_views(st@).to_set().contains(itv));
                                }
                            }
                            vstd::pervasive::unreached()
                        },
                    };
                    let ghost nset = item_views(next@).to_set();
                    let ghost kset = kernel(gv, item_views(st@).to_set(), x@);
                    proof {
                        assert(item_views(st@).to_set() == self.sets()[i as int]) by {
                            assert(self.sets()[i as int] == item_views(
                                self.cc@[i as int]@,
                            ).to_set());
                        }
                        assert(nset == closure_sp(gv, kset));
                        assert(kset != Set::<ItemV>::empty());
                    }
                    let k = match self.find_state(&next) {
                        Option::Some(k) => k,
                        Option::None => {
                            let k = self.cc.len();
                            let ghost before = *self;
                            proof {
                                // The new state is well-formed, closed, and
                                // keeps the accepting lookahead discipline.
                                lemma_closure_closed(gv, kset);
                                assert forall|d: ItemV| kset.contains(d) implies fg_ok(d) by {
                                    let parent = choose|parent: ItemV|
                                        #[trigger] item_views(st@).to_set().contains(parent)
                                            && !item_complete(gv, parent) && item_stacktop(
                                            gv,
                                            parent,
                                        ) == Option::Some(x@) && d == item_advance(parent);
                                    assert(self.sets()[i as int].contains(parent));
                                }
                                lemma_closure_fg(gv, kset);
                            }
                            self.insert_cc(next);
                            proof {
                                Parser::lemma_sound_after_insert(before, *self);
                                assert forall|q: int|
                                    0 <= q < before.cc@.len() implies self.sets()[q]
                                    == before.sets()[q] by {
                                    assert(self.cc@[q] == before.cc@[q]);
                                    assert(self.sets()[q] == item_views(self.cc@[q]@).to_set());
                                    assert(before.sets()[q] == item_views(
                                        before.cc@[q]@,
                                    ).to_set());
                                }
                                assert(self.sets()[k as int] == nset) by {
                                    assert(self.sets() == before.sets().push(nset));
                                }
                                // Distinctness, closedness, state shape.
                                assert forall|i2: int, j2: int|
                                    0 <= i2 < self.cc@.len() && 0 <= j2 < self.cc@.len() && i2
                                        != j2 implies #[trigger] self.sets()[i2]
                                    != #[trigger] self.sets()[j2] by {
                                    if i2 < before.cc@.len() && j2 < before.cc@.len() {
                                        assert(before.sets()[i2] != before.sets()[j2]);
                                    } else if i2 == before.cc@.len() as int {
                                        assert(before.sets()[j2] != nset);
                                        assert(self.sets()[j2] == before.sets()[j2]);
                                    } else {
                                        assert(before.sets()[i2] != nset);
                                        assert(self.sets()[i2] == before.sets()[i2]);
                                    }
                                }
                                assert forall|i2: int|
                                    0 <= i2 < self.cc@.len() implies state_ok(
                                    gv,
                                    (#[trigger] self.cc@[i2])@,
                                ) by {
                                    if i2 < before.cc@.len() {
                                        assert(self.cc@[i2] == before.cc@[i2]);
                                        assert(state_ok(gv, before.cc@[i2]@));
                                    } else {
                                        assert(self.cc@[i2] == next);
                                    }
                                }
                                assert forall|i2: int|
                                    0 <= i2 < self.cc@.len() implies closed(
                                    gv,
                                    #[trigger] self.sets()[i2],
                                ) by {
                                    if i2 < before.cc@.len() {
                                        assert(self.sets()[i2] == before.sets()[i2]);
                                        assert(closed(gv, before.sets()[i2]));
                                    } else {
                                        assert(self.sets()[i2] == nset);
                                    }
                                }
                                assert forall|i2: int, it2: ItemV|
                                    0 <= i2 < self.cc@.len() && #[trigger] self.sets()[
                                    i2].contains(it2) implies fg_ok(it2) by {
                                    if i2 < before.cc@.len() {
                                        assert(self.sets()[i2] == before.sets()[i2]);
                                        assert(before.sets()[i2].contains(it2));
                                    } else {
                                        assert(self.sets()[i2] == nset);
                                    }
                                }
                                assert(self.sets()[0] == closure_sp(gv, init_items())) by {
                                    assert(self.sets()[0] == before.sets()[0]);
                                }
                                assert forall|i2: int|
                                    0 <= i2 < self.acts_v().len() implies row_ok(
                                    #[trigger] self.acts_v()[i2],
                                ) by {
                                    if i2 < before.acts_v().len() {
                                        assert(self.acts_v()[i2] == before.acts_v()[i2]);
                                    } else {
                                        assert(self.acts_v()[i2] == Seq::<(
                                            SymbolV,
                                            Seq<Action>,
                                        )>::empty());
                                    }
                                }
                                assert forall|i2: int|
                                    0 <= i2 < self.gotos_v().len() implies row_ok(
                                    #[trigger] self.gotos_v()[i2],
                                ) by {
                                    if i2 < before.gotos_v().len() {
                                        assert(self.gotos_v()[i2] == before.gotos_v()[i2]);
                                    } else {
                                        assert(self.gotos_v()[i2] == Seq::<(
                                            SymbolV,
                                            Seq<int>,
                                        )>::empty());
                                    }
                                }
                                // Routes survive: cells unchanged, states appended.
                                assert forall|i2: int, t2: SymbolV, b: Action|
                                    0 <= i2 < before.cc@.len() && #[trigger] before.act_of(
                                    i2,
                                    t2,
                                ).contains(b) implies self.act_of(i2, t2).contains(b) by {
                                    assert(self.acts_v()[i2] == before.acts_v()[i2]);
                                }
                                assert forall|i2: int, x2: SymbolV, b: int|
                                    0 <= i2 < before.cc@.len() && #[trigger] before.goto_of(
                                    i2,
                                    x2,
                                ).contains(b) implies self.goto_of(i2, x2).contains(b) by {
                                    assert(self.gotos_v()[i2] == before.gotos_v()[i2]);
                                }
                                Parser::lemma_routes_preserved(before, *self, i as int);
                                assert forall|k2: int|
                                    0 <= k2 < j implies self.item_route(
                                    i as int,
                                    #[trigger] item_views(st@)[k2],
                                ) by {
                                    assert(before.sets()[i as int].contains(
                                        item_views(st@)[k2],
                                    )) by {
                                        assert(item_views(st@).to_set().contains(
                                            item_views(st@)[k2],
                                        ));
                                    }
                                    assert(before.item_route(i as int, item_views(st@)[k2]));
                                    Parser::lemma_route_one(
                                        before,
                                        *self,
                                        i as int,
                                        item_views(st@)[k2],
                                    );
                                }
                                // The state count stays under the bound.
                                assert forall|q: int, it2: ItemV|
                                    0 <= q < self.sets().len() && #[trigger] self.sets()[
                                    q].contains(it2) implies item_wf(gv, it2) && keys.contains(
                                    it2.la,
                                ) by {
                                    assert(state_ok(gv, self.cc@[q]@));
                                    assert(self.sets()[q] == item_views(self.cc@[q]@).to_set());
                                    let w = choose|w: int|
                                        0 <= w < item_views(self.cc@[q]@).len() && item_views(
                                            self.cc@[q]@,
                                        )[w] == it2;
                                    lemma_find_pos(keys, it2.la);
                                }
                                assert forall|i2: int, j2: int|
                                    0 <= i2 < self.sets().len() && 0 <= j2 < self.sets().len()
                                        && i2 != j2 implies !(#[trigger] self.sets()[i2]
                                    =~= #[trigger] self.sets()[j2]) by {
                                    if self.sets()[i2] =~= self.sets()[j2] {
                                        assert(self.sets()[i2] == self.sets()[j2]);
                                    }
                                }
                                lemma_states_len_bound(gv, keys, self.sets());
                                assert(self.sets().len() == self.cc@.len());
                            }
                            k
                        },
                    };
                    let ghost self1 = *self;
                    if x.is_terminal() {
                        self.record_action(i, &x, Action::Shift(k));
                        proof {
                            assert(self.sets() == self1.sets());
                            assert(self.action_sound(i as int, x@, Action::Shift(k))) by {
                                assert(self1.sets()[k as int] == nset);
                                assert(self1.sets()[i as int] == item_views(st@).to_set());
                            }
                            Parser::lemma_sound_after_action(
                                self1,
                                *self,
                                i as int,
                                x@,
                                Action::Shift(k),
                            );
                            assert forall|i2: int, t2: SymbolV, b: Action|
                                0 <= i2 < self.cc@.len() && #[trigger] self1.act_of(
                                i2,
                                t2,
                            ).contains(b) implies self.act_of(i2, t2).contains(b) by {
                                if i2 == i as int && t2 == x@ {
                                } else if i2 == i as int {
                                    assert(self.act_of(i2, t2) == self1.act_of(i2, t2));
                                } else {
                                    assert(self.acts_v()[i2] == self1.acts_v()[i2]);
                                }
                            }
                            assert forall|i2: int, x2: SymbolV, b: int|
                                0 <= i2 < self.cc@.len() && #[trigger] self1.goto_of(
                                i2,
                                x2,
                            ).contains(b) implies self.goto_of(i2, x2).contains(b) by {
                                assert(self.gotos_v()[i2] == self1.gotos_v()[i2]);
                            }
                            Parser::lemma_routes_preserved(self1, *self, i as int);
                            assert(self.route_witness(i as int, itv, k)) by {
                                assert(self.sets()[k as int] == nset);
                                assert(self.sets()[i as int] == item_views(st@).to_set());
                                assert(self.act_of(i as int, x@).contains(Action::Shift(k)));
                            }
                            assert(self.item_route(i as int, itv));
                        }
                    } else {
                        self.record_goto(i, &x, k);
                        proof {
                            assert(self.sets() == self1.sets());
                            assert(self.goto_sound(i as int, x@, k as int)) by {
                                assert(self1.sets()[k as int] == nset);
                                assert(self1.sets()[i as int] == item_views(st@).to_set());
                            }
                            Parser::lemma_sound_after_goto(self1, *self, i as int, x@, k);
                            assert forall|i2: int, t2: SymbolV, b: Action|
                                0 <= i2 < self.cc@.len() && #[trigger] self1.act_of(
                                i2,
                                t2,
                            ).contains(b) implies self.act_of(i2, t2).contains(b) by {
                                assert(self.acts_v()[i2] == self1.acts_v()[i2]);
                            }
                            assert forall|i2: int, x2: SymbolV, b: int|
                                0 <= i2 < self.cc@.len() && #[trigger] self1.goto_of(
                                i2,
                                x2,
                            ).contains(b) implies self.goto_of(i2, x2).contains(b) by {
                                if i2 == i as int && x2 == x@ {
                                } else if i2 == i as int {
                                    assert(self.goto_of(i2, x2) == self1.goto_of(i2, x2));
                                } else {
                                    assert(self.gotos_v()[i2] == self1.gotos_v()[i2]);
                                }
                            }
                            Parser::lemma_routes_preserved(self1, *self, i as int);
                            assert(self.route_witness(i as int, itv, k)) by {
                                assert(self.sets()[k as int] == nset);
                                assert(self.sets()[i as int] == item_views(st@).to_set());
                                assert(self.goto_of(i as int, x@).contains(k as int));
                            }
                            assert(self.item_route(i as int, itv));
                        }
                    }
                    proof {
                        assert forall|k2: int|
                            0 <= k2 < j + 1 implies self.item_route(
                            i as int,
                            #[trigger] item_views(st@)[k2],
                        ) by {
                            if k2 < j as int {
                                assert(self1.sets()[i as int].contains(item_views(st@)[k2])) by {
                                    assert(self1.sets()[i as int] == item_views(
                                        self1.cc@[i as int]@,
                                    ).to_set());
                                    assert(item_views(st@).to_set().contains(
                                        item_views(st@)[k2],
                                    ));
                                }
                                assert(self1.item_route(i as int, item_views(st@)[k2]));
                                Parser::lemma_route_one(
                                    self1,
                                    *self,
                                    i as int,
                                    item_views(st@)[k2],
                                );
                            } else {
                                assert(item_views(st@)[k2] == itv);
                            }
                        }
                    }
                }
                j += 1;
            }
            proof {
                assert forall|it2: ItemV| #[trigger] self.sets()[i as int].contains(it2)
                    implies self.item_route(i as int, it2) by {
                    assert(self.sets()[i as int] == item_views(self.cc@[i as int]@).to_set());
                    let k = choose|k: int|
                        0 <= k < item_views(st@).len() && item_views(st@)[k] == it2;
                }
            }
            i += 1;
        }
        proof {
            assert(self.tables_complete());
            assert(self.wf());
        }
    }

    /// Build the parser for a grammar: augment it and construct the
    /// canonical collection with its ACTION and GOTO tables.
    pub fn new(g: Grammar) -> (r: Parser)
        requires
            g.wf(),
            fresh_fake_goal(g@),
        ensures
            r.wf(),
            r.grammar@.goal == fake_goal_v(),
            r.grammar@.prods == seq![
                crate::production::ProductionV { from: fake_goal_v(), to: seq![g@.goal] },
            ] + g@.prods,
    {
        let aug = g.with_fake_goal();
        proof {
            assert(aug_wf(aug@)) by {
                assert(aug@.prods[0] == (crate::production::ProductionV {
                    from: fake_goal_v(),
                    to: seq![g@.goal],
                }));
                assert forall|j: int| 1 <= j < aug@.prods.len() implies (
                #[trigger] aug@.prods[j]).from != fake_goal_v() by {
                    assert(aug@.prods[j] == g@.prods[j - 1]);
                }
                assert forall|j: int, k: int|
                    0 <= j < aug@.prods.len() && 0 <= k < aug@.prods[j].to.len()
                    implies #[trigger] aug@.prods[j].to[k] != fake_goal_v() by {
                    if j == 0 {
                        assert(aug@.prods[0].to[0] == g@.goal);
                    } else {
                        assert(aug@.prods[j] == g@.prods[j - 1]);
                    }
                }
            }
        }
        let mut p = Parser {
            grammar: aug,
            cc: Vec::new(),
            actions: Vec::new(),
            gotos: Vec::new(),
            stack: Vec::new(),
        };
        p.build_cc();
        p
    }

    /// Law: the table is LR(1) exactly when no ACTION cell holds more than
    /// one action.
    pub open spec fn is_lr1_sp(&self) -> bool {
        forall|i: int, k: int|
            0 <= i < self.acts_v().len() && 0 <= k < self.acts_v()[i].len()
                ==> (#[trigger] self.acts_v()[i][k]).1.len() <= 1
    }

    /// Whether every ACTION cell is a singleton: the grammar is LR(1).
    pub fn is_lr1(&self) -> (r: bool)
        ensures
            r == self.is_lr1_sp(),
    {
        let mut i: usize = 0;
        while i < self.actions.len()
            invariant
                0 <= i <= self.actions@.len(),
                forall|i2: int, k: int|
                    0 <= i2 < i && 0 <= k < self.acts_v()[i2].len() ==> (
                    #[trigger] self.acts_v()[i2][k]).1.len() <= 1,
            decreases self.actions@.len() - i,
        {
            let row = &self.actions[i];
            let mut k: usize = 0;
            while k < row.len()
                invariant
                    0 <= k <= row@.len(),
                    0 <= i < self.actions@.len(),
                    row == &self.actions@[i as int],
                    forall|i2: int, k2: int|
                        0 <= i2 < i && 0 <= k2 < self.acts_v()[i2].len() ==> (
                        #[trigger] self.acts_v()[i2][k2]).1.len() <= 1,
                    forall|k2: int|
                        0 <= k2 < k ==> (#[trigger] self.acts_v()[i as int][k2]).1.len() <= 1,
                decreases row@.len() - k,
            {
                if row[k].1.len() > 1 {
                    proof {
                        assert(self.acts_v()[i as int][k as int].1.len() > 1);
                    }
                    return false;
                }
                proof {
                    assert(self.acts_v()[i as int][k as int].1 == row@[k as int].1@);
                }
                k += 1;
            }
            i += 1;
        }
        true
    }
}


/// A driver configuration: the stack, the tree built so far, and the index
/// of the current token.
#[verifier::ext_equal]
pub struct Cfg {
    pub stack: Seq<StackV>,
    pub tree: TreeV,
    pub pos: int,
}

/// One driver step: a successor configuration, or the run's result.
pub enum StepRes {
    Next(Cfg),
    Done(Result<TreeV, LrError>),
}

/// The symbol entries of a stack segment, bottom first.
pub open spec fn sym_entries(s: Seq<StackV>) -> Seq<(SymbolV, Option<int>)>
    decreases s.len(),
{
    if s.len() == 0 {
        Seq::empty()
    } else {
        sym_entries(s.drop_last()) + (match s.last() {
            StackV::Sym(x, n) => seq![(x, n)],
            StackV::St(_) => Seq::empty(),
        })
    }
}

/// Every symbol entry of the segment carries a tree node.
pub open spec fn ids_ok(s: Seq<StackV>) -> bool {
    forall|k: int| 0 <= k < sym_entries(s).len() ==> (#[trigger] sym_entries(s)[k]).1 is Some
}

/// The tree nodes of the segment's symbol entries, bottom first.
pub open spec fn ids_of(s: Seq<StackV>) -> Seq<int> {
    sym_entries(s).map_values(
        |p: (SymbolV, Option<int>)|
            match p.1 {
                Option::Some(v) => v,
                Option::None => 0,
            },
    )
}

/// Attach the listed children under `root`, in order.
pub open spec fn attach_all(t: TreeV, root: int, ids: Seq<int>) -> TreeV
    decreases ids.len(),
{
    if ids.len() == 0 {
        t
    } else {
        let prev = attach_all(t, root, ids.drop_last());
        TreeV { nodes: crate::tree::tree_append(prev.nodes, root, ids.last()), root: prev.root }
    }
}

/// The empty tree value.
pub open spec fn empty_tree() -> TreeV {
    TreeV { nodes: Seq::empty(), root: Option::None }
}

/// The driver's starting configuration: the `EOF` sentinel under state 0.
pub open spec fn init_cfg() -> Cfg {
    Cfg {
        stack: seq![StackV::Sym(eof_v(), Option::None), StackV::St(0)],
        tree: empty_tree(),
        pos: 0,
    }
}

/// The kinds of a token list.
pub open spec fn kinds_of(toks: Seq<(String, String)>) -> Seq<Seq<char>> {
    toks.map_values(|t: (String, String)| t.0@)
}

/// An executable result matches a specification-level one.
pub open spec fn res_matches(r: Result<Tree, LrError>, v: Result<TreeV, LrError>) -> bool {
    match r {
        Result::Ok(t) => v is Ok && t@ == v->Ok_0,
        Result::Err(e) => v is Err && e == v->Err_0,
    }
}

impl Parser {
    /// One step of the table-driven shift-reduce machine on configuration
    /// `c` over the token kinds `toks`.
    pub open spec fn step(&self, toks: Seq<Seq<char>>, c: Cfg) -> StepRes {
        let g = self.grammar@;
        if c.stack.len() == 0 {
            StepRes::Done(Result::Err(LrError::EmptyStack))
        } else {
            match c.stack.last() {
                StackV::Sym(_, _) => StepRes::Done(Result::Err(LrError::EmptyStack)),
                StackV::St(s) => {
                    if !(0 <= s < self.cc@.len() && 0 <= c.pos < toks.len()) {
                        StepRes::Done(Result::Err(LrError::EmptyStack))
                    } else {
                        let t = SymbolV::T(toks[c.pos]);
                        if !self.has_act(s, t) {
                            StepRes::Done(Result::Err(LrError::UnexpectedToken))
                        } else if self.act_of(s, t).len() != 1 {
                            StepRes::Done(Result::Err(LrError::AmbiguousGrammar))
                        } else {
                            match self.act_of(s, t)[0] {
                                Action::Accept => StepRes::Done(Result::Ok(c.tree)),
                                Action::Shift(jj) => {
                                    let id = c.tree.nodes.len() as int;
                                    let tree2 = TreeV {
                                        nodes: c.tree.nodes.push(
                                            crate::tree::NodeV {
                                                id: id,
                                                parent: Option::None,
                                                children: Seq::empty(),
                                                symbol: t,
                                            },
                                        ),
                                        root: c.tree.root,
                                    };
                                    let stack2 = c.stack.push(StackV::Sym(t, Option::Some(id)))
                                        .push(StackV::St(jj as int));
                                    if c.pos + 1 >= toks.len() {
                                        StepRes::Done(Result::Err(LrError::UnexpectedEndOfInput))
                                    } else {
                                        StepRes::Next(
                                            Cfg { stack: stack2, tree: tree2, pos: c.pos + 1 },
                                        )
                                    }
                                },
                                Action::Reduce(pj) => {
                                    if pj >= g.prods.len() {
                                        StepRes::Done(Result::Err(LrError::EmptyStack))
                                    } else {
                                        let prod = g.prods[pj as int];
                                        let new_root = c.tree.nodes.len() as int;
                                        let tree2 = TreeV {
                                            nodes: c.tree.nodes.push(
                                                crate::tree::NodeV {
                                                    id: new_root,
                                                    parent: Option::None,
                                                    children: Seq::empty(),
                                                    symbol: prod.from,
                                                },
                                            ),
                                            root: Option::Some(new_root),
                                        };
                                        let k2 = 2 * prod.to.len() as int;
                                        if k2 > c.stack.len() {
                                            StepRes::Done(Result::Err(LrError::EmptyStack))
                                        } else {
                                            let popped = c.stack.subrange(
                                                c.stack.len() - k2,
                                                c.stack.len() as int,
                                            );
                                            let rest = c.stack.subrange(
                                                0,
                                                c.stack.len() - k2,
                                            );
                                            if !ids_ok(popped) {
                                                StepRes::Done(Result::Err(LrError::EmptyStack))
                                            } else {
                                                let tree3 = attach_all(
                                                    tree2,
                                                    new_root,
                                                    ids_of(popped),
                                                );
                                                if rest.len() == 0 {
                                                    StepRes::Done(
                                                        Result::Err(LrError::EmptyStack),
                                                    )
                                                } else {
                                                    match rest.last() {
                                                        StackV::Sym(_, _) => StepRes::Done(
                                                            Result::Err(LrError::EmptyStack),
                                                        ),
                                                        StackV::St(s2) => {
                                                            if !self.has_goto(s2, prod.from) {
                                                                StepRes::Done(
                                                                    Result::Err(
                                                                        LrError::EmptyStack,
                                                                    ),
                                                                )
                                                            } else if self.goto_of(
                                                                s2,
                                                                prod.from,
                                                            ).len() != 1 {
                                                                StepRes::Done(
                                                                    Result::Err(
                                                                        LrError::AmbiguousGrammar,
                                                                    ),
                                                                )
                                                            } else {
                                                                let j3 = self.goto_of(
                                                                    s2,
                                                                    prod.from,
                                                                )[0];
                                                                StepRes::Next(
                                                                    Cfg {
                                                                        stack: rest.push(
                                                                            StackV::Sym(
                                                                                prod.from,
                                                                                Option::Some(
                                                                                    new_root,
                                                                                ),
                                                                            ),
                                                                        ).push(StackV::St(j3)),
                                                                        tree: tree3,
                                                                        pos: c.pos,
                                                                    },
                                                                )
                                                            }
                                                        },
                                                    }
                                                }
                                            }
                                        }
                                    }
                                },
                            }
                        }
                    }
                },
            }
        }
    }

    /// Run the machine for at most `fuel` steps: `None` when the budget is
    /// exhausted, otherwise the machine's result.
    pub open spec fn run(&self, toks: Seq<Seq<char>>, c: Cfg, fuel: nat) -> Option<
        Result<TreeV, LrError>,
    >
        decreases fuel,
    {
        if fuel == 0 {
            Option::None
        } else {
            match self.step(toks, c) {
                StepRes::Done(r) => Option::Some(r),
                StepRes::Next(c2) => self.run(toks, c2, (fuel - 1) as nat),
            }
        }
    }

    /// A recorded ACTION entry is sound.
    proof fn lemma_cell_sound(&self, i: int, t: SymbolV, b: Action)
        requires
            self.tables_sound(),
            0 <= i < self.actions@.len(),
            self.act_of(i, t).contains(b),
        ensures
            self.action_sound(i, t, b),
    {
        let row = self.acts_v()[i];
        lemma_find_pair(row, t);
        let k = find_pair(row, t);
        assert(0 <= k);
        assert(row[k].0 == t);
        let n = choose|n: int| 0 <= n < row[k].1.len() && row[k].1[n] == b;
        assert(self.action_sound(i, row[k].0, row[k].1[n]));
    }

    /// A recorded GOTO entry is sound.
    proof fn lemma_goto_cell_sound(&self, i: int, x: SymbolV, b: int)
        requires
            self.tables_sound(),
            0 <= i < self.gotos@.len(),
            self.goto_of(i, x).contains(b),
        ensures
            self.goto_sound(i, x, b),
    {
        let row = self.gotos_v()[i];
        lemma_find_pair(row, x);
        let k = find_pair(row, x);
        assert(0 <= k);
        assert(row[k].0 == x);
        let n = choose|n: int| 0 <= n < row[k].1.len() && row[k].1[n] == b;
        assert(self.goto_sound(i, row[k].0, row[k].1[n]));
    }

    /// The state index on top of the residual stack, or `EmptyStack` when
    /// the stack is empty or topped by a symbol entry.
    pub fn get_stacktop_state(&self) -> (r: Result<usize, LrError>)
        ensures
            match r {
                Result::Ok(s) => stack_views(self.stack@).len() > 0 && stack_views(
                    self.stack@,
                ).last() == StackV::St(s as int),
                Result::Err(e) => e == LrError::EmptyStack && (stack_views(self.stack@).len() == 0
                    || stack_views(self.stack@).last() is Sym),
            },
    {
        if self.stack.len() == 0 {
            return Result::Err(LrError::EmptyStack);
        }
        let top = &self.stack[self.stack.len() - 1];
        proof {
            assert(stack_views(self.stack@).last() == self.stack@[self.stack@.len() - 1]@);
        }
        match top {
            StackEl::State(s) => Result::Ok(*s),
            StackEl::Symbol(_) => Result::Err(LrError::EmptyStack),
        }
    }

    /// The single action at `(state, terminal)`: `UnexpectedToken` when the
    /// cell is absent, `AmbiguousGrammar` when it holds several actions.
    fn get_single_action(&self, s: usize, a: &Symbol) -> (r: Result<Action, LrError>)
        requires
            s < self.actions@.len(),
        ensures
            match r {
                Result::Ok(act) => self.has_act(s as int, a@) && self.act_of(s as int, a@).len()
                    == 1 && self.act_of(s as int, a@)[0] == act,
                Result::Err(e) => (e == LrError::UnexpectedToken && !self.has_act(s as int, a@))
                    || (e == LrError::AmbiguousGrammar && self.has_act(s as int, a@)
                    && self.act_of(s as int, a@).len() != 1),
            },
    {
        let ghost rowv = self.acts_v()[s as int];
        let row = &self.actions[s];
        let mut k: usize = 0;
        while k < row.len()
            invariant
                0 <= k <= row@.len(),
                s < self.actions@.len(),
                row == &self.actions@[s as int],
                rowv == self.acts_v()[s as int],
                forall|q: int| 0 <= q < k ==> (#[trigger] rowv[q]).0 != a@,
            decreases row@.len() - k,
        {
            if row[k].0.sym_eq(a) {
                proof {
                    assert(rowv[k as int].0 == a@);
                    lemma_find_pair_at(rowv, a@, k as int);
                }
                if row[k].1.len() != 1 {
                    return Result::Err(LrError::AmbiguousGrammar);
                }
                let act = row[k].1[0];
                proof {
                    assert(self.act_of(s as int, a@) == rowv[k as int].1);
                    assert(rowv[k as int].1[0] == act);
                }
                return Result::Ok(act);
            }
            proof {
                assert(rowv[k as int].0 == self.actions@[s as int]@[k as int].0@);
            }
            k += 1;
        }
        proof {
            lemma_find_pair(rowv, a@);
            if 0 <= find_pair(rowv, a@) {
                assert(rowv[find_pair(rowv, a@)].0 == a@);
            }
        }
        Result::Err(LrError::UnexpectedToken)
    }

    /// The single GOTO successor at `(state, non-terminal)`: `EmptyStack`
    /// when the cell is absent, `AmbiguousGrammar` when it holds several.
    fn get_single_goto(&self, s: usize, x: &Symbol) -> (r: Result<usize, LrError>)
        requires
            s < self.gotos@.len(),
        ensures
            match r {
                Result::Ok(j) => self.has_goto(s as int, x@) && self.goto_of(s as int, x@).len()
                    == 1 && self.goto_of(s as int, x@)[0] == j as int,
                Result::Err(e) => (e == LrError::EmptyStack && !self.has_goto(s as int, x@)) || (
                e == LrError::AmbiguousGrammar && self.has_goto(s as int, x@) && self.goto_of(
                    s as int,
                    x@,
                ).len() != 1),
            },
    {
        let ghost rowv = self.gotos_v()[s as int];
        let row = &self.gotos[s];
        let mut k: usize = 0;
        while k < row.len()
            invariant
                0 <= k <= row@.len(),
                s < self.gotos@.len(),
                row == &self.gotos@[s as int],
                rowv == self.gotos_v()[s as int],
                forall|q: int| 0 <= q < k ==> (#[trigger] rowv[q]).0 != x@,
            decreases row@.len() - k,
        {
            if row[k].0.sym_eq(x) {
                proof {
                    assert(rowv[k as int].0 == x@);
                    lemma_find_pair_at(rowv, x@, k as int);
                }
                if row[k].1.len() != 1 {
                    return Result::Err(LrError::AmbiguousGrammar);
                }
                let j = row[k].1[0];
                proof {
                    assert(self.goto_of(s as int, x@) == rowv[k as int].1);
                    assert(rowv[k as int].1[0] == j as int);
                }
                return Result::Ok(j);
            }
            proof {
                assert(rowv[k as int].0 == self.gotos@[s as int]@[k as int].0@);
            }
            k += 1;
        }
        proof {
            lemma_find_pair(rowv, x@);
            if 0 <= find_pair(rowv, x@) {
                assert(rowv[find_pair(rowv, x@)].0 == x@);
            }
        }
        Result::Err(LrError::EmptyStack)
    }
}


/// A configuration whose stack indices and tree are internally consistent.
pub open spec fn cfg_ok(p: &Parser, c: Cfg) -> bool {
    &&& forall|k: int|
        0 <= k < c.stack.len() ==> match #[trigger] c.stack[k] {
            StackV::St(s) => 0 <= s < p.cc@.len(),
            StackV::Sym(_, n) => match n {
                Option::Some(id) => 0 <= id < c.tree.nodes.len(),
                Option::None => true,
            },
        }
    &&& crate::tree::tree_wf(c.tree)
}

/// Attaching in-range children keeps the arena well-formed and its size.
proof fn lemma_attach_wf(t: TreeV, root: int, ids: Seq<int>)
    requires
        crate::tree::tree_wf(t),
        0 <= root < t.nodes.len(),
        forall|k: int| 0 <= k < ids.len() ==> 0 <= #[trigger] ids[k] < root,
    ensures
        attach_all(t, root, ids).nodes.len() == t.nodes.len(),
        attach_all(t, root, ids).root == t.root,
        crate::tree::tree_wf(attach_all(t, root, ids)),
    decreases ids.len(),
{
    if ids.len() > 0 {
        lemma_attach_wf(t, root, ids.drop_last());
        let prev = attach_all(t, root, ids.drop_last());
        let next = attach_all(t, root, ids);
        let c = ids.last();
        assert(next.nodes == crate::tree::tree_append(prev.nodes, root, c));
        assert forall|i: int| 0 <= i < next.nodes.len() implies (#[trigger] next.nodes[i]).id
            == i by {
            if i != root && i != c {
                assert(next.nodes[i] == prev.nodes[i]);
            }
        }
        assert forall|i: int, ch: int|
            0 <= i < next.nodes.len() && #[trigger] next.nodes[i].children.contains(ch)
            implies 0 <= ch < i by {
            if i == root {
                if next.nodes[i].children.contains(ch) {
                    let mid = prev.nodes.update(
                        c,
                        crate::tree::NodeV { parent: Option::Some(root), ..prev.nodes[c] },
                    );
                    assert(next.nodes[root].children == mid[root].children.push(c));
                    let w = choose|w: int|
                        0 <= w < next.nodes[root].children.len() && next.nodes[
                        root].children[w] == ch;
                    if w < mid[root].children.len() {
                        assert(mid[root].children.contains(ch));
                        if root == c {
                        } else {
                            assert(mid[root] == prev.nodes[root]);
                        }
                        assert(prev.nodes[root].children.contains(ch));
                    }
                }
            } else if i == c {
                assert(next.nodes[i].children == prev.nodes[i].children);
                assert(prev.nodes[i].children.contains(ch));
            } else {
                assert(next.nodes[i] == prev.nodes[i]);
                assert(prev.nodes[i].children.contains(ch));
            }
        }
    }
}

impl Parser {
    /// Drive a shift-reduce parse of the token stream against the tables.
    /// An empty stream or one opening with `EOF` yields the empty tree; a
    /// run that does not settle within the step budget is rejected as not
    /// LR(1).
    #[verifier::rlimit(100)]
    pub fn parse(&mut self, tokens: &Vec<(String, String)>) -> (r: Result<Tree, LrError>)
        requires
            old(self).wf(),
        ensures
            final(self).grammar == old(self).grammar,
            final(self).cc == old(self).cc,
            final(self).actions == old(self).actions,
            final(self).gotos == old(self).gotos,
            final(self).wf(),
            r is Ok ==> crate::tree::tree_wf((r->Ok_0)@),
            tokens@.len() == 0 ==> r is Ok && (r->Ok_0)@ == empty_tree(),
            tokens@.len() > 0 && kinds_of(tokens@)[0] == "EOF"@ ==> r is Ok && (r->Ok_0)@
                == empty_tree(),
            tokens@.len() > 0 && kinds_of(tokens@)[0] != "EOF"@ ==> (match old(self).run(
                kinds_of(tokens@),
                init_cfg(),
                u64::MAX as nat,
            ) {
                Option::Some(v) => res_matches(r, v),
                Option::None => r == Result::<Tree, LrError>::Err(LrError::AmbiguousGrammar),
            }),
    {
        let ghost kinds = kinds_of(tokens@);
        let mut tree = Tree::new();
        let mut stack: Vec<StackEl> = Vec::new();
        stack.push(StackEl::Symbol((Symbol::eof(), Option::None)));
        stack.push(StackEl::State(0));
        proof {
            assert(stack_views(stack@) =~= init_cfg().stack);
        }
        if tokens.len() == 0 {
            self.stack = stack;
            proof {
                Parser::lemma_wf_frame(*old(self), *self);
                assert(tree@ =~~= empty_tree());
            }
            return Result::Ok(tree);
        }
        let eofs = String::from_str("EOF");
        if tokens[0].0.eq(&eofs) {
            self.stack = stack;
            proof {
                Parser::lemma_wf_frame(*old(self), *self);
            }
            proof {
                assert(kinds[0] == tokens@[0].0@);
                assert(tree@ =~~= empty_tree());
            }
            return Result::Ok(tree);
        }
        proof {
            assert(kinds[0] == tokens@[0].0@);
            assert(kinds[0] != "EOF"@);
        }
        let mut cur: usize = 0;
        let mut fuel: u64 = u64::MAX;
        let ghost mut cfg = init_cfg();
        proof {
            assert(cfg.tree =~~= tree@);
            assert(cfg_ok(&*self, cfg)) by {
                assert(cfg.stack[0] == StackV::Sym(eof_v(), Option::None::<int>));
                assert(cfg.stack[1] == StackV::St(0));
            }
        }
        loop
            invariant
                *self == *old(self),
                old(self).wf(),
                kinds == kinds_of(tokens@),
                tokens@.len() > 0,
                kinds[0] != "EOF"@,
                0 <= cur < tokens@.len(),
                stack_views(stack@) == cfg.stack,
                tree@ == cfg.tree,
                cur as int == cfg.pos,
                cfg_ok(&*old(self), cfg),
                old(self).run(kinds, init_cfg(), u64::MAX as nat) == old(self).run(
                    kinds,
                    cfg,
                    fuel as nat,
                ),
            decreases fuel,
        {
            if fuel == 0 {
                self.stack = stack;
                proof {
                    Parser::lemma_wf_frame(*old(self), *self);
                }
            proof {
                Parser::lemma_wf_frame(*old(self), *self);
            }
                return Result::Err(LrError::AmbiguousGrammar);
            }
            let s = if stack.len() == 0 {
                proof {
                    assert(self.step(kinds, cfg) == StepRes::Done(
                        Result::<TreeV, LrError>::Err(LrError::EmptyStack),
                    ));
                }
                self.stack = stack;
                proof {
                    Parser::lemma_wf_frame(*old(self), *self);
                }
            proof {
                Parser::lemma_wf_frame(*old(self), *self);
            }
                return Result::Err(LrError::EmptyStack);
            } else {
                let top_is_state = match &stack[stack.len() - 1] {
                    StackEl::State(_) => true,
                    StackEl::Symbol(_) => false,
                };
                proof {
                    assert(stack_views(stack@).last() == stack@[stack@.len() - 1]@);
                }
                if !top_is_state {
                    proof {
                        assert(self.step(kinds, cfg) == StepRes::Done(
                            Result::<TreeV, LrError>::Err(LrError::EmptyStack),
                        ));
                    }
                    self.stack = stack;
                proof {
                    Parser::lemma_wf_frame(*old(self), *self);
                }
                    proof {
                        Parser::lemma_wf_frame(*old(self), *self);
                    }
            proof {
                Parser::lemma_wf_frame(*old(self), *self);
            }
                    return Result::Err(LrError::EmptyStack);
                }
                match &stack[stack.len() - 1] {
                    StackEl::State(s) => *s,
                    StackEl::Symbol(_) => vstd::pervasive::unreached(),
                }
            };
            proof {
                assert(cfg.stack.last() == StackV::St(s as int));
                assert(0 <= (s as int) && (s as int) < self.cc@.len()) by {
                    assert(cfg.stack[cfg.stack.len() - 1] == cfg.stack.last());
                }
            }
            let tsym = Symbol::new_t(tokens[cur].0.as_str());
            proof {
                assert(tsym@ == SymbolV::T(kinds[cfg.pos]));
            }
            let act = match self.get_single_action(s, &tsym) {
                Result::Err(e) => {
                    proof {
                        assert(self.step(kinds, cfg) == StepRes::Done(
                            Result::<TreeV, LrError>::Err(e),
                        ));
                    }
                    self.stack = stack;
                proof {
                    Parser::lemma_wf_frame(*old(self), *self);
                }
                    proof {
                        Parser::lemma_wf_frame(*old(self), *self);
                    }
            proof {
                Parser::lemma_wf_frame(*old(self), *self);
            }
                    return Result::Err(e);
                },
                Result::Ok(act) => act,
            };
            match act {
                Action::Accept => {
                    proof {
                        assert(self.step(kinds, cfg) == StepRes::Done(
                            Result::<TreeV, LrError>::Ok(cfg.tree),
                        ));
                    }
                    self.stack = stack;
                proof {
                    Parser::lemma_wf_frame(*old(self), *self);
                }
                    proof {
                        Parser::lemma_wf_frame(*old(self), *self);
                    }
            proof {
                Parser::lemma_wf_frame(*old(self), *self);
            }
                    return Result::Ok(tree);
                },
                Action::Shift(j) => {
                    proof {
                        self.lemma_cell_sound(s as int, tsym@, act);
                        assert(0 <= j < self.cc@.len());
                    }
                    let id = tree.new_node(crate::tree::NodeData::new(tsym.dup()));
                    let ghost oldstack = stack@;
                    stack.push(StackEl::Symbol((tsym, Option::Some(id))));
                    stack.push(StackEl::State(j));
                    proof {
                        assert(stack_views(stack@) =~= stack_views(oldstack).push(
                            StackV::Sym(SymbolV::T(kinds[cfg.pos]), Option::Some(id as int)),
                        ).push(StackV::St(j as int)));
                    }
                    if cur >= tokens.len() - 1 {
                        proof {
                            assert(self.step(kinds, cfg) == StepRes::Done(
                                Result::<TreeV, LrError>::Err(LrError::UnexpectedEndOfInput),
                            ));
                        }
                        self.stack = stack;
                proof {
                    Parser::lemma_wf_frame(*old(self), *self);
                }
                    proof {
                        Parser::lemma_wf_frame(*old(self), *self);
                    }
            proof {
                Parser::lemma_wf_frame(*old(self), *self);
            }
                        return Result::Err(LrError::UnexpectedEndOfInput);
                    }
                    cur += 1;
                    proof {
                        let cfg2 = Cfg {
                            stack: stack_views(stack@),
                            tree: tree@,
                            pos: cfg.pos + 1,
                        };
                        assert(self.step(kinds, cfg) == StepRes::Next(cfg2)) by {
                            assert(tree@.nodes =~= cfg.tree.nodes.push(
                                crate::tree::NodeV {
                                    id: cfg.tree.nodes.len() as int,
                                    parent: Option::None,
                                    children: Seq::empty(),
                                    symbol: SymbolV::T(kinds[cfg.pos]),
                                },
                            ));
                            assert(tree@ =~~= (TreeV {
                                nodes: cfg.tree.nodes.push(
                                    crate::tree::NodeV {
                                        id: cfg.tree.nodes.len() as int,
                                        parent: Option::None,
                                        children: Seq::empty(),
                                        symbol: SymbolV::T(kinds[cfg.pos]),
                                    },
                                ),
                                root: cfg.tree.root,
                            }));
                        }
                        assert(self.run(kinds, cfg, fuel as nat) == self.run(
                            kinds,
                            cfg2,
                            (fuel - 1) as nat,
                        ));
                        assert(cfg_ok(&*old(self), cfg2)) by {
                            assert forall|k: int| 0 <= k < cfg2.stack.len() implies match
                                #[trigger] cfg2.stack[k] {
                                StackV::St(s3) => 0 <= s3 < old(self).cc@.len(),
                                StackV::Sym(_, n) => match n {
                                    Option::Some(nid) => 0 <= nid < cfg2.tree.nodes.len(),
                                    Option::None => true,
                                },
                            } by {
                                if k < cfg.stack.len() {
                                    assert(cfg2.stack[k] == cfg.stack[k]);
                                }
                            }
                        }
                        cfg = cfg2;
                    }
                    fuel = fuel - 1;
                },
                Action::Reduce(pj) => {
                    proof {
                        self.lemma_cell_sound(s as int, tsym@, act);
                        let itw = choose|itw: ItemV|
                            #[trigger] self.sets()[s as int].contains(itw) && item_complete(
                                self.grammar@,
                                itw,
                            ) && !item_terminator(self.grammar@, itw) && itw.prod == pj as int
                                && itw.la == tsym@;
                        assert(state_ok(self.grammar@, self.cc@[s as int]@));
                        assert(self.sets()[s as int] == item_views(self.cc@[s as int]@).to_set());
                        let w = choose|w: int|
                            0 <= w < item_views(self.cc@[s as int]@).len() && item_views(
                                self.cc@[s as int]@,
                            )[w] == itw;
                        assert(item_wf(self.grammar@, itw));
                        assert(pj < self.grammar@.prods.len());
                    }
                    let head = self.grammar.productions[pj].from.dup();
                    let len_p = self.grammar.productions[pj].to.len();
                    proof {
                        assert(head@ == self.grammar@.prods[pj as int].from);
                        assert(len_p as int == self.grammar@.prods[pj as int].to.len());
                    }
                    let new_root = tree.new_node(crate::tree::NodeData::new(head.dup()));
                    tree.set_root(new_root);
                    let ghost tree2 = tree@;
                    if len_p > stack.len() / 2 {
                        proof {
                            assert(2 * len_p as int > cfg.stack.len());
                            assert(self.step(kinds, cfg) == StepRes::Done(
                                Result::<TreeV, LrError>::Err(LrError::EmptyStack),
                            ));
                        }
                        self.stack = stack;
                proof {
                    Parser::lemma_wf_frame(*old(self), *self);
                }
                    proof {
                        Parser::lemma_wf_frame(*old(self), *self);
                    }
            proof {
                Parser::lemma_wf_frame(*old(self), *self);
            }
                        return Result::Err(LrError::EmptyStack);
                    }
                    let to_pop = 2 * len_p;
                    proof {
                        assert(to_pop as int <= cfg.stack.len());
                    }
                    let base = stack.len() - to_pop;
                    let ghost popped = cfg.stack.subrange(
                        cfg.stack.len() - 2 * (len_p as int),
                        cfg.stack.len() as int,
                    );
                    let ghost rest = cfg.stack.subrange(0, cfg.stack.len() - 2 * (len_p as int));
                    let mut kid: Vec<usize> = Vec::new();
                    let mut ok = true;
                    let mut m: usize = 0;
                    proof {
                        assert(popped.take(0) =~= Seq::<StackV>::empty());
                        assert(sym_entries(Seq::<StackV>::empty()) =~= Seq::<(
                            SymbolV,
                            Option<int>,
                        )>::empty());
                        assert(kid@.map_values(|u: usize| u as int) =~= ids_of(popped.take(0)));
                    }
                    while m < to_pop
                        invariant
                            0 <= m <= to_pop,
                            base + to_pop == stack@.len(),
                            stack_views(stack@) == cfg.stack,
                            popped == cfg.stack.subrange(
                                base as int,
                                cfg.stack.len() as int,
                            ),
                            ok == ids_ok(popped.take(m as int)),
                            ok ==> kid@.map_values(|u: usize| u as int) == ids_of(
                                popped.take(m as int),
                            ),
                            cfg_ok(&*old(self), cfg),
                            *self == *old(self),
                            tree@.nodes.len() == cfg.tree.nodes.len() + 1,
                            forall|w: int|
                                0 <= w < kid@.len() ==> (#[trigger] kid@[w]) < cfg.tree.nodes.len(),
                        decreases to_pop - m,
                    {
                        let ghost pre = popped.take(m as int);
                        let nlen = stack.len();
                        proof {
                            assert(base + m < nlen);
                            assert(popped.take(m + 1) =~= pre.push(popped[m as int]));
                            assert(popped.take(m + 1).drop_last() =~= pre);
                            assert(popped[m as int] == cfg.stack[base + m]);
                            assert(cfg.stack[base + m] == stack@[base + m]@);
                        }
                        match &stack[base + m] {
                            StackEl::Symbol((sy, nid)) => {
                                match nid {
                                    Option::Some(id) => {
                                        let ghost oldkid = kid@;
                                        kid.push(*id);
                                        proof {
                                            assert(sym_entries(popped.take(m + 1))
                                                =~= sym_entries(pre).push(
                                                (sy@, Option::Some(*id as int)),
                                            ));
                                            assert(cfg.stack[base + m] == StackV::Sym(
                                                sy@,
                                                Option::Some(*id as int),
                                            ));
                                            assert(*id < cfg.tree.nodes.len());
                                            if ok {
                                                assert(kid@ =~= oldkid.push(*id));
                                                assert(kid@.map_values(|u: usize| u as int)
                                                    =~= oldkid.map_values(
                                                    |u: usize| u as int,
                                                ).push(*id as int));
                                                assert(ids_of(popped.take(m + 1)) =~= ids_of(
                                                    pre,
                                                ).push(*id as int));
                                                assert(kid@.map_values(|u: usize| u as int)
                                                    =~= ids_of(popped.take(m + 1)));
                                                assert forall|w: int|
                                                    0 <= w < sym_entries(
                                                        popped.take(m + 1),
                                                    ).len() implies (#[trigger] sym_entries(
                                                    popped.take(m + 1),
                                                )[w]).1 is Some by {
                                                    if w < sym_entries(pre).len() {
                                                        assert(sym_entries(popped.take(m + 1))[w]
                                                            == sym_entries(pre)[w]);
                                                    }
                                                }
                                            } else {
                                                let bad = choose|w: int|
                                                    0 <= w < sym_entries(pre).len() && !((
                                                    #[trigger] sym_entries(pre)[w]).1 is Some);
                                                assert(sym_entries(popped.take(m + 1))[bad]
                                                    == sym_entries(pre)[bad]);
                                            }
                                        }
                                    },
                                    Option::None => {
                                        ok = false;
                                        proof {
                                            let se = sym_entries(popped.take(m + 1));
                                            assert(se.last() == (sy@, Option::None::<int>));
                                            assert(!ids_ok(popped.take(m + 1)));
                                        }
                                    },
                                }
                            },
                            StackEl::State(_) => {
                                proof {
                                    assert(sym_entries(popped.take(m + 1)) =~= sym_entries(pre)
                                        + Seq::<(SymbolV, Option<int>)>::empty());
                                    assert(sym_entries(popped.take(m + 1)) =~= sym_entries(pre));
                                    if ok {
                                        assert(kid@.map_values(|u: usize| u as int) =~= ids_of(
                                            popped.take(m + 1),
                                        ));
                                    } else {
                                        let bad = choose|w: int|
                                            0 <= w < sym_entries(pre).len() && !((
                                            #[trigger] sym_entries(pre)[w]).1 is Some);
                                        assert(sym_entries(popped.take(m + 1))[bad]
                                            == sym_entries(pre)[bad]);
                                    }
                                }
                            },
                        }
                        m += 1;
                    }
                    proof {
                        assert(popped.take(to_pop as int) =~= popped);
                    }
                    if !ok {
                        proof {
                            assert(self.step(kinds, cfg) == StepRes::Done(
                                Result::<TreeV, LrError>::Err(LrError::EmptyStack),
                            ));
                        }
                        self.stack = stack;
                proof {
                    Parser::lemma_wf_frame(*old(self), *self);
                }
                    proof {
                        Parser::lemma_wf_frame(*old(self), *self);
                    }
            proof {
                Parser::lemma_wf_frame(*old(self), *self);
            }
                        return Result::Err(LrError::EmptyStack);
                    }
                    stack.truncate(base);
                    proof {
                        assert(stack_views(stack@) =~= rest);
                    }
                    let ghost idsv = ids_of(popped);
                    proof {
                        assert(kid@.map_values(|u: usize| u as int) == idsv);
                        assert(crate::tree::tree_wf(tree2)) by {
                            assert forall|i2: int, ch: int|
                                0 <= i2 < tree2.nodes.len() && #[trigger] tree2.nodes[
                                i2].children.contains(ch) implies 0 <= ch < tree2.nodes.len() by {
                                if i2 < cfg.tree.nodes.len() {
                                    assert(tree2.nodes[i2] == cfg.tree.nodes[i2]);
                                    assert(cfg.tree.nodes[i2].children.contains(ch));
                                } else {
                                    assert(tree2.nodes[i2].children == Seq::<int>::empty());
                                }
                            }
                            assert forall|i2: int| 0 <= i2 < tree2.nodes.len() implies (
                            #[trigger] tree2.nodes[i2]).id == i2 by {
                                if i2 < cfg.tree.nodes.len() {
                                    assert(tree2.nodes[i2] == cfg.tree.nodes[i2]);
                                }
                            }
                        }
                        assert forall|w: int| 0 <= w < idsv.len() implies 0 <= #[trigger] idsv[w]
                            < new_root as int by {
                            assert(idsv[w] == kid@[w] as int);
                        }
                        lemma_attach_wf(tree2, new_root as int, idsv);
                    }
                    let mut q: usize = 0;
                    while q < kid.len()
                        invariant
                            0 <= q <= kid@.len(),
                            kid@.map_values(|u: usize| u as int) == idsv,
                            forall|w: int|
                                0 <= w < idsv.len() ==> 0 <= #[trigger] idsv[w] < new_root as int,
                            (new_root as int) < tree2.nodes.len(),
                            crate::tree::tree_wf(tree2),
                            tree@ == attach_all(tree2, new_root as int, idsv.take(q as int)),
                            *self == *old(self),
                        decreases kid@.len() - q,
                    {
                        proof {
                            assert(idsv.take(q as int) =~= idsv.take(q + 1).drop_last());
                            assert(idsv.take(q + 1).last() == idsv[q as int]);
                            lemma_attach_wf(tree2, new_root as int, idsv.take(q as int));
                            assert(idsv[q as int] == kid@[q as int] as int);
                        }
                        tree.append(new_root, kid[q]);
                        proof {
                            assert(tree@ =~~= attach_all(tree2, new_root as int, idsv.take(q + 1)));
                        }
                        q += 1;
                    }
                    let ghost tree3 = attach_all(tree2, new_root as int, idsv);
                    proof {
                        assert(idsv.take(idsv.len() as int) =~= idsv);
                        assert(tree@ == tree3);
                        lemma_attach_wf(tree2, new_root as int, idsv);
                    }
                    // The exposed state below the handle.
                    if stack.len() == 0 {
                        proof {
                            assert(rest.len() == 0);
                            assert(self.step(kinds, cfg) == StepRes::Done(
                                Result::<TreeV, LrError>::Err(LrError::EmptyStack),
                            ));
                        }
                        self.stack = stack;
                proof {
                    Parser::lemma_wf_frame(*old(self), *self);
                }
                    proof {
                        Parser::lemma_wf_frame(*old(self), *self);
                    }
            proof {
                Parser::lemma_wf_frame(*old(self), *self);
            }
                        return Result::Err(LrError::EmptyStack);
                    }
                    let top_is_state = match &stack[stack.len() - 1] {
                        StackEl::State(_) => true,
                        StackEl::Symbol(_) => false,
                    };
                    proof {
                        assert(stack_views(stack@).last() == stack@[stack@.len() - 1]@);
                    }
                    if !top_is_state {
                        proof {
                            assert(rest.last() is Sym);
                            assert(self.step(kinds, cfg) == StepRes::Done(
                                Result::<TreeV, LrError>::Err(LrError::EmptyStack),
                            ));
                        }
                        self.stack = stack;
                proof {
                    Parser::lemma_wf_frame(*old(self), *self);
                }
                    proof {
                        Parser::lemma_wf_frame(*old(self), *self);
                    }
            proof {
                Parser::lemma_wf_frame(*old(self), *self);
            }
                        return Result::Err(LrError::EmptyStack);
                    }
                    let s2 = match &stack[stack.len() - 1] {
                        StackEl::State(s2) => *s2,
                        StackEl::Symbol(_) => vstd::pervasive::unreached(),
                    };
                    proof {
                        assert(rest.last() == StackV::St(s2 as int));
                        assert(0 <= (s2 as int) && (s2 as int) < self.cc@.len()) by {
                            assert(rest[rest.len() - 1] == cfg.stack[rest.len() - 1]);
                            assert(cfg.stack[rest.len() - 1] == rest.last());
                        }
                    }
                    let j3 = match self.get_single_goto(s2, &head) {
                        Result::Err(e) => {
                            proof {
                                assert(self.step(kinds, cfg) == StepRes::Done(
                                    Result::<TreeV, LrError>::Err(e),
                                ));
                            }
                            self.stack = stack;
                proof {
                    Parser::lemma_wf_frame(*old(self), *self);
                }
                    proof {
                        Parser::lemma_wf_frame(*old(self), *self);
                    }
            proof {
                Parser::lemma_wf_frame(*old(self), *self);
            }
                            return Result::Err(e);
                        },
                        Result::Ok(j3) => j3,
                    };
                    proof {
                        self.lemma_goto_cell_sound(s2 as int, head@, j3 as int);
                        assert(0 <= (j3 as int) && (j3 as int) < self.cc@.len());
                    }
                    let ghost oldstack = stack@;
                    stack.push(StackEl::Symbol((head, Option::Some(new_root))));
                    stack.push(StackEl::State(j3));
                    proof {
                        assert(stack_views(stack@) =~= rest.push(
                            StackV::Sym(
                                self.grammar@.prods[pj as int].from,
                                Option::Some(new_root as int),
                            ),
                        ).push(StackV::St(j3 as int)));
                        let cfg2 = Cfg { stack: stack_views(stack@), tree: tree3, pos: cfg.pos };
                        assert(self.step(kinds, cfg) == StepRes::Next(cfg2)) by {
                            assert(tree2 =~~= (TreeV {
                                nodes: cfg.tree.nodes.push(
                                    crate::tree::NodeV {
                                        id: cfg.tree.nodes.len() as int,
                                        parent: Option::None,
                                        children: Seq::empty(),
                                        symbol: self.grammar@.prods[pj as int].from,
                                    },
                                ),
                                root: Option::Some(cfg.tree.nodes.len() as int),
                            }));
                        }
                        assert(self.run(kinds, cfg, fuel as nat) == self.run(
                            kinds,
                            cfg2,
                            (fuel - 1) as nat,
                        ));
                        assert(cfg_ok(&*old(self), cfg2)) by {
                            assert forall|k: int| 0 <= k < cfg2.stack.len() implies match
                                #[trigger] cfg2.stack[k] {
                                StackV::St(s3) => 0 <= s3 < old(self).cc@.len(),
                                StackV::Sym(_, n) => match n {
                                    Option::Some(nid) => 0 <= nid < cfg2.tree.nodes.len(),
                                    Option::None => true,
                                },
                            } by {
                                if k < rest.len() {
                                    assert(cfg2.stack[k] == rest[k]);
                                    assert(rest[k] == cfg.stack[k]);
                                }
                            }
                        }
                        cfg = cfg2;
                    }
                    fuel = fuel - 1;
                },
            }
        }
    }
}


impl Parser {
    /// The invariant does not depend on the residual parse stack.
    pub proof fn lemma_wf_frame(p1: Parser, p2: Parser)
        requires
            p1.wf(),
            p2.grammar == p1.grammar,
            p2.cc == p1.cc,
            p2.actions == p1.actions,
            p2.gotos == p1.gotos,
        ensures
            p2.wf(),
    {
        assert(p2.acts_v() == p1.acts_v());
        assert(p2.gotos_v() == p1.gotos_v());
        assert(p2.sets() == p1.sets());
        assert forall|i: int, k: int, n: int|
            0 <= i < p2.acts_v().len() && 0 <= k < p2.acts_v()[i].len() && 0 <= n
                < p2.acts_v()[i][k].1.len() implies p2.action_sound(
            i,
            p2.acts_v()[i][k].0,
            #[trigger] p2.acts_v()[i][k].1[n],
        ) by {
            assert(p1.action_sound(i, p1.acts_v()[i][k].0, p1.acts_v()[i][k].1[n]));
        }
        assert forall|i: int, k: int, n: int|
            0 <= i < p2.gotos_v().len() && 0 <= k < p2.gotos_v()[i].len() && 0 <= n
                < p2.gotos_v()[i][k].1.len() implies p2.goto_sound(
            i,
            p2.gotos_v()[i][k].0,
            #[trigger] p2.gotos_v()[i][k].1[n],
        ) by {
            assert(p1.goto_sound(i, p1.gotos_v()[i][k].0, p1.gotos_v()[i][k].1[n]));
        }
        assert forall|i: int, it: ItemV|
            0 <= i < p2.cc@.len() && #[trigger] p2.sets()[i].contains(it) implies p2.item_route(
            i,
            it,
        ) by {
            assert(p1.sets()[i].contains(it));
            assert(p1.item_route(i, it));
            if !item_complete(p1.grammar@, it) {
                let j = choose|j: usize| #[trigger] p1.route_witness(i, it, j);
                assert(p1.route_witness(i, it, j));
                assert(p2.act_of(i, p1.grammar@.prods[it.prod].to[it.dot]) == p1.act_of(
                    i,
                    p1.grammar@.prods[it.prod].to[it.dot],
                ));
                assert(p2.goto_of(i, p1.grammar@.prods[it.prod].to[it.dot]) == p1.goto_of(
                    i,
                    p1.grammar@.prods[it.prod].to[it.dot],
                ));
                assert(p2.route_witness(i, it, j));
            }
        }
    }
}


/// An action printed `Accept`, `Shift(i)` or `Reduce(head -> body)`.
pub open spec fn action_str(g: GrammarV, a: Action) -> Seq<char> {
    match a {
        Action::Accept => "Accept"@,
        Action::Shift(j) => "Shift("@ + dec_str(j as int) + ")"@,
        Action::Reduce(p) => "Reduce("@ + crate::production::prod_str(g.prods[p as int]) + ")"@,
    }
}

/// The texts of an action list.
pub open spec fn actions_strs(g: GrammarV, cell: Seq<Action>) -> Seq<Seq<char>> {
    cell.map_values(|a: Action| action_str(g, a))
}

/// A stack entry printed as its state index, or as `name:node` for a symbol
/// entry (`name` alone without a node).
pub open spec fn stack_el_str(e: StackV) -> Seq<char> {
    match e {
        StackV::St(s) => dec_str(s),
        StackV::Sym(x, n) => match n {
            Option::None => x.name(),
            Option::Some(id) => x.name() + ":"@ + dec_str(id),
        },
    }
}

impl Parser {
    /// One action as text.
    pub fn action_to_string(&self, action: &Action) -> (r: String)
        requires
            action matches Action::Reduce(p) ==> (p as int) < self.grammar@.prods.len(),
        ensures
            r@ == action_str(self.grammar@, *action),
    {
        match action {
            Action::Accept => {
                let s = String::from_str("Accept");
                proof {
                    assert(s@ =~= action_str(self.grammar@, *action));
                }
                s
            },
            Action::Shift(j) => {
                let mut s = String::from_str("Shift(");
                push_usize(&mut s, *j);
                push_str(&mut s, ")");
                proof {
                    assert(s@ =~= action_str(self.grammar@, *action));
                }
                s
            },
            Action::Reduce(p) => {
                let mut s = String::from_str("Reduce(");
                let t = self.grammar.productions[*p].describe();
                push_str(&mut s, t.as_str());
                push_str(&mut s, ")");
                proof {
                    assert(s@ =~= action_str(self.grammar@, *action));
                }
                s
            },
        }
    }

    /// An action set as text, comma-separated: several entries in one cell
    /// are the conflict signature.
    pub fn set_of_actions_to_string(&self, actions: &Vec<Action>) -> (r: String)
        requires
            forall|n: int|
                0 <= n < actions@.len() ==> ((#[trigger] actions@[n]) matches Action::Reduce(p)
                    ==> (p as int) < self.grammar@.prods.len()),
        ensures
            r@ == join_strs(actions_strs(self.grammar@, actions@), ", "@),
    {
        let ghost strs = actions_strs(self.grammar@, actions@);
        let mut parts: Vec<String> = Vec::new();
        let mut i: usize = 0;
        proof {
            assert(strs_views(parts@) =~= strs.take(0));
        }
        while i < actions.len()
            invariant
                0 <= i <= actions@.len(),
                strs == actions_strs(self.grammar@, actions@),
                forall|n: int|
                    0 <= n < actions@.len() ==> ((#[trigger] actions@[n]) matches Action::Reduce(
                        p,
                    ) ==> (p as int) < self.grammar@.prods.len()),
                strs_views(parts@) == strs.take(i as int),
            decreases actions@.len() - i,
        {
            let ghost oldparts = parts@;
            let a = actions[i];
            parts.push(self.action_to_string(&a));
            proof {
                crate::text::lemma_strs_views_push(oldparts, parts@.last());
                assert(strs_views(parts@) =~= strs.take(i + 1));
            }
            i += 1;
        }
        proof {
            assert(strs.take(strs.len() as int) =~= strs);
        }
        let mut s = String::new();
        crate::text::join_into(&mut s, &parts, ", ");
        proof {
            assert(s@ =~= join_strs(strs, ", "@));
        }
        s
    }

    /// The residual parse stack as text, bottom first.
    pub fn stack_to_string(&self) -> (r: String)
        ensures
            r@ == join_strs(
                stack_views(self.stack@).map_values(|e: StackV| stack_el_str(e)),
                ", "@,
            ),
    {
        let ghost strs = stack_views(self.stack@).map_values(|e: StackV| stack_el_str(e));
        let mut parts: Vec<String> = Vec::new();
        let mut i: usize = 0;
        proof {
            assert(strs_views(parts@) =~= strs.take(0));
        }
        while i < self.stack.len()
            invariant
                0 <= i <= self.stack@.len(),
                strs == stack_views(self.stack@).map_values(|e: StackV| stack_el_str(e)),
                strs_views(parts@) == strs.take(i as int),
            decreases self.stack@.len() - i,
        {
            let ghost oldparts = parts@;
            let part = match &self.stack[i] {
                StackEl::State(st) => {
                    let mut t = String::new();
                    push_usize(&mut t, *st);
                    t
                },
                StackEl::Symbol((x, n)) => {
                    let mut t = String::from_str(x.as_str());
                    match n {
                        Option::None => {},
                        Option::Some(id) => {
                            push_str(&mut t, ":");
                            push_usize(&mut t, *id);
                        },
                    }
                    t
                },
            };
            proof {
                assert(stack_views(self.stack@)[i as int] == self.stack@[i as int]@);
                assert(part@ == stack_el_str(stack_views(self.stack@)[i as int]));
            }
            parts.push(part);
            proof {
                crate::text::lemma_strs_views_push(oldparts, parts@.last());
                assert(strs_views(parts@) =~= strs.take(i + 1));
            }
            i += 1;
        }
        proof {
            assert(strs.take(strs.len() as int) =~= strs);
        }
        let mut s = String::new();
        crate::text::join_into(&mut s, &parts, ", ");
        proof {
            assert(s@ =~= join_strs(strs, ", "@));
        }
        s
    }
}

/// The state listing: one line `<index>  <items>` per state.
pub open spec fn cc_lines(p: &Parser, n: int) -> Seq<char>
    decreases n,
{
    if n <= 0 {
        "CC\n======\n"@
    } else {
        cc_lines(p, n - 1) + dec_str(n - 1) + "  "@ + join_strs(
            crate::item::items_strs(p.grammar@, item_views(p.cc@[n - 1]@)),
            " "@,
        ) + "\n"@
    }
}

impl Parser {
    /// The canonical collection as text, one state per line.
    pub fn print_cc(&self) -> (r: String)
        requires
            self.wf(),
        ensures
            r@ == cc_lines(self, self.cc@.len() as int),
    {
        let mut s = String::from_str("CC\n======\n");
        proof {
            assert(s@ =~= cc_lines(self, 0));
        }
        let mut i: usize = 0;
        while i < self.cc.len()
            invariant
                0 <= i <= self.cc@.len(),
                self.wf(),
                s@ == cc_lines(self, i as int),
            decreases self.cc@.len() - i,
        {
            push_usize(&mut s, i);
            push_str(&mut s, "  ");
            proof {
                assert(state_ok(self.grammar@, self.cc@[i as int]@));
            }
            let t = crate::item::Item::set_to_string(&self.cc[i], &self.grammar);
            push_str(&mut s, t.as_str());
            push_str(&mut s, "\n");
            proof {
                assert(s@ =~= cc_lines(self, i + 1));
            }
            i += 1;
        }
        s
    }
}


/// The texts of a GOTO cell's targets.
pub open spec fn targets_strs(cell: Seq<int>) -> Seq<Seq<char>> {
    cell.map_values(|j: int| dec_str(j))
}

/// The ACTION lines of state `i`, first `k` row entries.
pub open spec fn act_lines_row(p: &Parser, i: int, k: int) -> Seq<char>
    decreases k,
{
    if k <= 0 {
        Seq::empty()
    } else {
        act_lines_row(p, i, k - 1) + dec_str(i) + " "@ + p.acts_v()[i][k - 1].0.name() + " -> "@
            + join_strs(actions_strs(p.grammar@, p.acts_v()[i][k - 1].1), ", "@) + "\n"@
    }
}

/// The ACTION lines of the first `n` states.
pub open spec fn act_lines(p: &Parser, n: int) -> Seq<char>
    decreases n,
{
    if n <= 0 {
        Seq::empty()
    } else {
        act_lines(p, n - 1) + act_lines_row(p, n - 1, p.acts_v()[n - 1].len() as int)
    }
}

/// The GOTO lines of state `i`, first `k` row entries.
pub open spec fn goto_lines_row(p: &Parser, i: int, k: int) -> Seq<char>
    decreases k,
{
    if k <= 0 {
        Seq::empty()
    } else {
        goto_lines_row(p, i, k - 1) + dec_str(i) + " "@ + p.gotos_v()[i][k - 1].0.name()
            + " -> "@ + join_strs(targets_strs(p.gotos_v()[i][k - 1].1), ", "@) + "\n"@
    }
}

/// The GOTO lines of the first `n` states.
pub open spec fn goto_lines(p: &Parser, n: int) -> Seq<char>
    decreases n,
{
    if n <= 0 {
        Seq::empty()
    } else {
        goto_lines(p, n - 1) + goto_lines_row(p, n - 1, p.gotos_v()[n - 1].len() as int)
    }
}

impl Parser {
    /// Every `Reduce` recorded in a cell refers into the grammar.
    proof fn lemma_cell_reduces_bounded(&self, i: int, k: int)
        requires
            self.wf(),
            0 <= i < self.acts_v().len(),
            0 <= k < self.acts_v()[i].len(),
        ensures
            forall|n: int|
                0 <= n < self.acts_v()[i][k].1.len() ==> ((#[trigger] self.acts_v()[i][k].1[n])
                    matches Action::Reduce(p) ==> (p as int) < self.grammar@.prods.len()),
    {
        assert forall|n: int|
            0 <= n < self.acts_v()[i][k].1.len() implies ((#[trigger] self.acts_v()[i][k].1[n])
            matches Action::Reduce(p) ==> (p as int) < self.grammar@.prods.len()) by {
            assert(self.action_sound(i, self.acts_v()[i][k].0, self.acts_v()[i][k].1[n]));
            match self.acts_v()[i][k].1[n] {
                Action::Reduce(p) => {
                    let itw = choose|itw: ItemV|
                        #[trigger] self.sets()[i].contains(itw) && item_complete(
                            self.grammar@,
                            itw,
                        ) && !item_terminator(self.grammar@, itw) && itw.prod == p as int
                            && itw.la == self.acts_v()[i][k].0;
                    assert(state_ok(self.grammar@, self.cc@[i]@));
                    assert(self.sets()[i] == item_views(self.cc@[i]@).to_set());
                    let w = choose|w: int|
                        0 <= w < item_views(self.cc@[i]@).len() && item_views(self.cc@[i]@)[w]
                            == itw;
                    assert(item_wf(self.grammar@, itw));
                },
                _ => {},
            }
        }
    }

    /// The ACTION and GOTO tables as text, one line per recorded cell.
    pub fn print_tables(&self) -> (r: String)
        requires
            self.wf(),
        ensures
            r@ == "ACTION\n======\n"@ + act_lines(self, self.cc@.len() as int)
                + "\nGOTO\n======\n"@ + goto_lines(self, self.cc@.len() as int),
    {
        let mut s = String::from_str("ACTION\n======\n");
        let mut i: usize = 0;
        proof {
            assert(s@ =~= "ACTION\n======\n"@ + act_lines(self, 0));
        }
        while i < self.actions.len()
            invariant
                0 <= i <= self.actions@.len(),
                self.wf(),
                s@ == "ACTION\n======\n"@ + act_lines(self, i as int),
            decreases self.actions@.len() - i,
        {
            let ghost rowv = self.acts_v()[i as int];
            let mut k: usize = 0;
            proof {
                assert(s@ =~= "ACTION\n======\n"@ + act_lines(self, i as int)
                    + act_lines_row(self, i as int, 0));
            }
            while k < self.actions[i].len()
                invariant
                    0 <= k <= self.actions@[i as int]@.len(),
                    0 <= i < self.actions@.len(),
                    self.wf(),
                    rowv == self.acts_v()[i as int],
                    rowv.len() == self.actions@[i as int]@.len(),
                    s@ == "ACTION\n======\n"@ + act_lines(self, i as int) + act_lines_row(
                        self,
                        i as int,
                        k as int,
                    ),
                decreases self.actions@[i as int]@.len() - k,
            {
                proof {
                    self.lemma_cell_reduces_bounded(i as int, k as int);
                    assert(rowv[k as int].0 == self.actions@[i as int]@[k as int].0@);
                    assert(rowv[k as int].1 == self.actions@[i as int]@[k as int].1@);
                }
                push_usize(&mut s, i);
                push_str(&mut s, " ");
                push_str(&mut s, self.actions[i][k].0.as_str());
                push_str(&mut s, " -> ");
                let t = self.set_of_actions_to_string(&self.actions[i][k].1);
                push_str(&mut s, t.as_str());
                push_str(&mut s, "\n");
                proof {
                    assert(s@ =~= "ACTION\n======\n"@ + act_lines(self, i as int)
                        + act_lines_row(self, i as int, k + 1));
                }
                k += 1;
            }
            proof {
                assert(s@ =~= "ACTION\n======\n"@ + act_lines(self, i + 1));
            }
            i += 1;
        }
        let ghost acts_part = "ACTION\n======\n"@ + act_lines(self, self.cc@.len() as int);
        push_str(&mut s, "\nGOTO\n======\n");
        let mut i: usize = 0;
        proof {
            assert(s@ =~= acts_part + "\nGOTO\n======\n"@ + goto_lines(self, 0));
        }
        while i < self.gotos.len()
            invariant
                0 <= i <= self.gotos@.len(),
                self.wf(),
                acts_part == "ACTION\n======\n"@ + act_lines(self, self.cc@.len() as int),
                s@ == acts_part + "\nGOTO\n======\n"@ + goto_lines(self, i as int),
            decreases self.gotos@.len() - i,
        {
            let ghost rowv = self.gotos_v()[i as int];
            let mut k: usize = 0;
            proof {
                assert(s@ =~= acts_part + "\nGOTO\n======\n"@ + goto_lines(self, i as int)
                    + goto_lines_row(self, i as int, 0));
            }
            while k < self.gotos[i].len()
                invariant
                    0 <= k <= self.gotos@[i as int]@.len(),
                    0 <= i < self.gotos@.len(),
                    self.wf(),
                    acts_part == "ACTION\n======\n"@ + act_lines(
                        self,
                        self.cc@.len() as int,
                    ),
                    rowv == self.gotos_v()[i as int],
                    rowv.len() == self.gotos@[i as int]@.len(),
                    s@ == acts_part + "\nGOTO\n======\n"@ + goto_lines(self, i as int)
                        + goto_lines_row(self, i as int, k as int),
                decreases self.gotos@[i as int]@.len() - k,
            {
                proof {
                    assert(rowv[k as int].0 == self.gotos@[i as int]@[k as int].0@);
                    assert(rowv[k as int].1 == self.gotos@[i as int]@[k as int].1@.map_values(
                        |u: usize| u as int,
                    ));
                }
                push_usize(&mut s, i);
                push_str(&mut s, " ");
                push_str(&mut s, self.gotos[i][k].0.as_str());
                push_str(&mut s, " -> ");
                // The cell's destination indices, comma-separated.
                let cell = &self.gotos[i][k].1;
                let ghost tstrs = targets_strs(rowv[k as int].1);
                let mut parts: Vec<String> = Vec::new();
                let mut n: usize = 0;
                proof {
                    assert(strs_views(parts@) =~= tstrs.take(0));
                }
                while n < cell.len()
                    invariant
                        0 <= n <= cell@.len(),
                        cell == &self.gotos@[i as int]@[k as int].1,
                        tstrs == targets_strs(
                            cell@.map_values(|u: usize| u as int),
                        ),
                        strs_views(parts@) == tstrs.take(n as int),
                    decreases cell@.len() - n,
                {
                    let ghost oldparts = parts@;
                    let mut t = String::new();
                    push_usize(&mut t, cell[n]);
                    parts.push(t);
                    proof {
                        crate::text::lemma_strs_views_push(oldparts, parts@.last());
                        assert(strs_views(parts@) =~= tstrs.take(n + 1));
                    }
                    n += 1;
                }
                proof {
                    assert(tstrs.take(tstrs.len() as int) =~= tstrs);
                }
                let mut joined = String::new();
                crate::text::join_into(&mut joined, &parts, ", ");
                push_str(&mut s, joined.as_str());
                push_str(&mut s, "\n");
                proof {
                    assert(joined@ =~= join_strs(targets_strs(rowv[k as int].1), ", "@));
                    assert(s@ =~= acts_part + "\nGOTO\n======\n"@ + goto_lines(
                        self,
                        i as int,
                    ) + goto_lines_row(self, i as int, k + 1));
                }
                k += 1;
            }
            proof {
                assert(s@ =~= acts_part + "\nGOTO\n======\n"@ + goto_lines(self, i + 1));
            }
            i += 1;
        }
        s
    }
}


/// An ACTION cell as text: empty when absent, comma-separated on conflict.
pub open spec fn cell_text_a(p: &Parser, i: int, t: SymbolV) -> Seq<char> {
    if p.has_act(i, t) {
        join_strs(actions_strs(p.grammar@, p.act_of(i, t)), ", "@)
    } else {
        Seq::empty()
    }
}

/// A GOTO cell as text: empty when absent, the destination state indices.
pub open spec fn cell_text_g(p: &Parser, i: int, x: SymbolV) -> Seq<char> {
    if p.has_goto(i, x) {
        join_strs(targets_strs(p.goto_of(i, x)), ", "@)
    } else {
        Seq::empty()
    }
}

/// A header of padded column names.
pub open spec fn hdr_cells(cols: Seq<SymbolV>, w: int) -> Seq<char>
    decreases cols.len(),
{
    if cols.len() == 0 {
        Seq::empty()
    } else {
        hdr_cells(cols.drop_last(), w) + pad_str(cols.last().name(), w)
    }
}

/// The padded ACTION cells of one state across the columns.
pub open spec fn row_cells_a(p: &Parser, i: int, cols: Seq<SymbolV>, w: int) -> Seq<char>
    decreases cols.len(),
{
    if cols.len() == 0 {
        Seq::empty()
    } else {
        row_cells_a(p, i, cols.drop_last(), w) + pad_str(cell_text_a(p, i, cols.last()), w)
    }
}

/// The padded GOTO cells of one state across the columns.
pub open spec fn row_cells_g(p: &Parser, i: int, cols: Seq<SymbolV>, w: int) -> Seq<char>
    decreases cols.len(),
{
    if cols.len() == 0 {
        Seq::empty()
    } else {
        row_cells_g(p, i, cols.drop_last(), w) + pad_str(cell_text_g(p, i, cols.last()), w)
    }
}

/// The ACTION grid rows of the first `n` states.
pub open spec fn rows_a(p: &Parser, n: int, cols: Seq<SymbolV>, w: int) -> Seq<char>
    decreases n,
{
    if n <= 0 {
        Seq::empty()
    } else {
        rows_a(p, n - 1, cols, w) + pad_str(dec_str(n - 1), 4) + row_cells_a(p, n - 1, cols, w)
            + "\n"@
    }
}

/// The GOTO grid rows of the first `n` states.
pub open spec fn rows_g(p: &Parser, n: int, cols: Seq<SymbolV>, w: int) -> Seq<char>
    decreases n,
{
    if n <= 0 {
        Seq::empty()
    } else {
        rows_g(p, n - 1, cols, w) + pad_str(dec_str(n - 1), 4) + row_cells_g(p, n - 1, cols, w)
            + "\n"@
    }
}

/// The ACTION grid columns: `EOF`, then the grammar's terminals.
pub open spec fn a_cols(p: &Parser) -> Seq<SymbolV> {
    seq![eof_v()] + crate::grammar::dedup_first(
        crate::grammar::filter_kind(p.grammar@.syms, true),
    )
}

/// The GOTO grid columns: the grammar's non-terminals.
pub open spec fn g_cols(p: &Parser) -> Seq<SymbolV> {
    crate::grammar::dedup_first(crate::grammar::filter_kind(p.grammar@.syms, false))
}

impl Parser {
    /// One ACTION cell as text.
    fn action_cell_text(&self, i: usize, t: &Symbol) -> (r: String)
        requires
            self.wf(),
            i < self.actions@.len(),
        ensures
            r@ == cell_text_a(self, i as int, t@),
    {
        let ghost rowv = self.acts_v()[i as int];
        let row = &self.actions[i];
        let mut k: usize = 0;
        while k < row.len()
            invariant
                0 <= k <= row@.len(),
                self.wf(),
                i < self.actions@.len(),
                row == &self.actions@[i as int],
                rowv == self.acts_v()[i as int],
                forall|q: int| 0 <= q < k ==> (#[trigger] rowv[q]).0 != t@,
            decreases row@.len() - k,
        {
            if row[k].0.sym_eq(t) {
                proof {
                    assert(rowv[k as int].0 == t@);
                    lemma_find_pair_at(rowv, t@, k as int);
                    self.lemma_cell_reduces_bounded(i as int, k as int);
                    assert(self.act_of(i as int, t@) == rowv[k as int].1);
                }
                return self.set_of_actions_to_string(&row[k].1);
            }
            proof {
                assert(rowv[k as int].0 == self.actions@[i as int]@[k as int].0@);
            }
            k += 1;
        }
        proof {
            lemma_find_pair(rowv, t@);
            if 0 <= find_pair(rowv, t@) {
                assert(rowv[find_pair(rowv, t@)].0 == t@);
            }
            assert(!self.has_act(i as int, t@));
        }
        let r = String::new();
        proof {
            assert(r@ =~= Seq::<char>::empty());
        }
        r
    }

    /// One GOTO cell as text.
    fn goto_cell_text(&self, i: usize, x: &Symbol) -> (r: String)
        requires
            i < self.gotos@.len(),
        ensures
            r@ == cell_text_g(self, i as int, x@),
    {
        let ghost rowv = self.gotos_v()[i as int];
        let row = &self.gotos[i];
        let mut k: usize = 0;
        while k < row.len()
            invariant
                0 <= k <= row@.len(),
                i < self.gotos@.len(),
                row == &self.gotos@[i as int],
                rowv == self.gotos_v()[i as int],
                forall|q: int| 0 <= q < k ==> (#[trigger] rowv[q]).0 != x@,
            decreases row@.len() - k,
        {
            if row[k].0.sym_eq(x) {
                proof {
                    assert(rowv[k as int].0 == x@);
                    lemma_find_pair_at(rowv, x@, k as int);
                    assert(self.goto_of(i as int, x@) == rowv[k as int].1);
                }
                let cell = &row[k].1;
                let ghost tstrs = targets_strs(rowv[k as int].1);
                let mut parts: Vec<String> = Vec::new();
                let mut n: usize = 0;
                proof {
                    assert(strs_views(parts@) =~= tstrs.take(0));
                }
                while n < cell.len()
                    invariant
                        0 <= n <= cell@.len(),
                        cell == &self.gotos@[i as int]@[k as int].1,
                        tstrs == targets_strs(cell@.map_values(|u: usize| u as int)),
                        strs_views(parts@) == tstrs.take(n as int),
                    decreases cell@.len() - n,
                {
                    let ghost oldparts = parts@;
                    let mut t = String::new();
                    push_usize(&mut t, cell[n]);
                    parts.push(t);
                    proof {
                        crate::text::lemma_strs_views_push(oldparts, parts@.last());
                        assert(strs_views(parts@) =~= tstrs.take(n + 1));
                    }
                    n += 1;
                }
                proof {
                    assert(tstrs.take(tstrs.len() as int) =~= tstrs);
                }
                let mut joined = String::new();
                crate::text::join_into(&mut joined, &parts, ", ");
                proof {
                    assert(joined@ =~= cell_text_g(self, i as int, x@));
                }
                return joined;
            }
            proof {
                assert(rowv[k as int].0 == self.gotos@[i as int]@[k as int].0@);
            }
            k += 1;
        }
        proof {
            lemma_find_pair(rowv, x@);
            if 0 <= find_pair(rowv, x@) {
                assert(rowv[find_pair(rowv, x@)].0 == x@);
            }
            assert(!self.has_goto(i as int, x@));
        }
        let r = String::new();
        proof {
            assert(r@ =~= Seq::<char>::empty());
        }
        r
    }

    /// The tables as fixed-width grids: one ACTION row per state with a
    /// column for `EOF` and each terminal, then one GOTO row per state with
    /// a column for each non-terminal.  Each cell holds the destination or
    /// the action set; a conflicting cell shows its actions comma-separated.
    pub fn pretty_print_tables(&self) -> (r: String)
        requires
            self.wf(),
        ensures
            r@ == "ACTION\n======\n"@ + pad_str(Seq::empty(), 4) + hdr_cells(a_cols(self), 30)
                + "\n"@ + rows_a(self, self.cc@.len() as int, a_cols(self), 30)
                + "\nGOTO\n====\n"@ + pad_str(Seq::empty(), 4) + hdr_cells(g_cols(self), 10)
                + "\n"@ + rows_g(self, self.cc@.len() as int, g_cols(self), 10),
    {
        // Column symbol lists.
        let terms = self.grammar.terminals();
        let mut acols: Vec<Symbol> = Vec::new();
        acols.push(Symbol::eof());
        let mut i: usize = 0;
        proof {
            assert(views(acols@) =~= (seq![eof_v()] + views(terms@).take(0)));
        }
        while i < terms.len()
            invariant
                0 <= i <= terms@.len(),
                views(acols@) == seq![eof_v()] + views(terms@).take(i as int),
            decreases terms@.len() - i,
        {
            let ghost oldcols = acols@;
            acols.push(terms[i].dup());
            proof {
                crate::symbol::lemma_views_push(oldcols, acols@.last());
                assert(views(acols@) =~= seq![eof_v()] + views(terms@).take(i + 1));
            }
            i += 1;
        }
        proof {
            assert(views(terms@).take(terms@.len() as int) =~= views(terms@));
            assert(views(acols@) == a_cols(self));
        }
        let ncols = self.grammar.non_terminals();
        proof {
            assert(views(ncols@) == g_cols(self));
        }
        let empty_head = String::new();
        let mut s = String::from_str("ACTION\n======\n");
        crate::text::push_padded(&mut s, &empty_head, 4);
        let ghost a_hdr = "ACTION\n======\n"@ + pad_str(Seq::empty(), 4);
        // Header row of terminal columns.
        let mut k: usize = 0;
        proof {
            assert(s@ =~= a_hdr + hdr_cells(views(acols@).take(0), 30));
        }
        while k < acols.len()
            invariant
                0 <= k <= acols@.len(),
                views(acols@) == a_cols(self),
                a_hdr == "ACTION\n======\n"@ + pad_str(Seq::empty(), 4),
                s@ == a_hdr + hdr_cells(views(acols@).take(k as int), 30),
            decreases acols@.len() - k,
        {
            let name = String::from_str(acols[k].as_str());
            crate::text::push_padded(&mut s, &name, 30);
            proof {
                assert(views(acols@).take(k + 1).drop_last() =~= views(acols@).take(k as int));
                assert(views(acols@).take(k + 1).last() == views(acols@)[k as int]);
                assert(s@ =~= a_hdr + hdr_cells(views(acols@).take(k + 1), 30));
            }
            k += 1;
        }
        push_str(&mut s, "\n");
        proof {
            assert(views(acols@).take(acols@.len() as int) =~= views(acols@));
        }
        let ghost a_top = a_hdr + hdr_cells(a_cols(self), 30) + "\n"@;
        // One row per state.
        let mut i: usize = 0;
        proof {
            assert(s@ =~= a_top + rows_a(self, 0, a_cols(self), 30));
        }
        while i < self.cc.len()
            invariant
                0 <= i <= self.cc@.len(),
                self.wf(),
                views(acols@) == a_cols(self),
                a_top == "ACTION\n======\n"@ + pad_str(Seq::empty(), 4) + hdr_cells(
                    a_cols(self),
                    30,
                ) + "\n"@,
                s@ == a_top + rows_a(self, i as int, a_cols(self), 30),
            decreases self.cc@.len() - i,
        {
            let mut idx = String::new();
            push_usize(&mut idx, i);
            crate::text::push_padded(&mut s, &idx, 4);
            let mut k: usize = 0;
            proof {
                assert(s@ =~= a_top + rows_a(self, i as int, a_cols(self), 30) + pad_str(
                    dec_str(i as int),
                    4,
                ) + row_cells_a(self, i as int, views(acols@).take(0), 30));
            }
            while k < acols.len()
                invariant
                    0 <= k <= acols@.len(),
                    0 <= i < self.cc@.len(),
                    self.wf(),
                    views(acols@) == a_cols(self),
                    a_top == "ACTION\n======\n"@ + pad_str(Seq::empty(), 4) + hdr_cells(
                        a_cols(self),
                        30,
                    ) + "\n"@,
                    s@ == a_top + rows_a(self, i as int, a_cols(self), 30) + pad_str(
                        dec_str(i as int),
                        4,
                    ) + row_cells_a(self, i as int, views(acols@).take(k as int), 30),
                decreases acols@.len() - k,
            {
                let cell = self.action_cell_text(i, &acols[k]);
                crate::text::push_padded(&mut s, &cell, 30);
                proof {
                    assert(views(acols@).take(k + 1).drop_last() =~= views(acols@).take(
                        k as int,
                    ));
                    assert(views(acols@).take(k + 1).last() == views(acols@)[k as int]);
                    assert(s@ =~= a_top + rows_a(self, i as int, a_cols(self), 30) + pad_str(
                        dec_str(i as int),
                        4,
                    ) + row_cells_a(self, i as int, views(acols@).take(k + 1), 30));
                }
                k += 1;
            }
            push_str(&mut s, "\n");
            proof {
                assert(views(acols@).take(acols@.len() as int) =~= views(acols@));
                assert(s@ =~= a_top + rows_a(self, i + 1, a_cols(self), 30));
            }
            i += 1;
        }
        let ghost a_all = a_top + rows_a(self, self.cc@.len() as int, a_cols(self), 30);
        // The GOTO grid.
        push_str(&mut s, "\nGOTO\n====\n");
        crate::text::push_padded(&mut s, &empty_head, 4);
        let ghost g_hdr = a_all + "\nGOTO\n====\n"@ + pad_str(Seq::empty(), 4);
        let mut k: usize = 0;
        proof {
            assert(s@ =~= g_hdr + hdr_cells(views(ncols@).take(0), 10));
        }
        while k < ncols.len()
            invariant
                0 <= k <= ncols@.len(),
                views(ncols@) == g_cols(self),
                g_hdr == a_all + "\nGOTO\n====\n"@ + pad_str(Seq::empty(), 4),
                a_all == a_top + rows_a(self, self.cc@.len() as int, a_cols(self), 30),
                a_top == "ACTION\n======\n"@ + pad_str(Seq::empty(), 4) + hdr_cells(
                    a_cols(self),
                    30,
                ) + "\n"@,
                s@ == g_hdr + hdr_cells(views(ncols@).take(k as int), 10),
            decreases ncols@.len() - k,
        {
            let name = String::from_str(ncols[k].as_str());
            crate::text::push_padded(&mut s, &name, 10);
            proof {
                assert(views(ncols@).take(k + 1).drop_last() =~= views(ncols@).take(k as int));
                assert(views(ncols@).take(k + 1).last() == views(ncols@)[k as int]);
                assert(s@ =~= g_hdr + hdr_cells(views(ncols@).take(k + 1), 10));
            }
            k += 1;
        }
        push_str(&mut s, "\n");
        proof {
            assert(views(ncols@).take(ncols@.len() as int) =~= views(ncols@));
        }
        let ghost g_top = g_hdr + hdr_cells(g_cols(self), 10) + "\n"@;
        let mut i: usize = 0;
        proof {
            assert(s@ =~= g_top + rows_g(self, 0, g_cols(self), 10));
        }
        while i < self.cc.len()
            invariant
                0 <= i <= self.cc@.len(),
                self.wf(),
                views(ncols@) == g_cols(self),
                g_top == a_top + rows_a(self, self.cc@.len() as int, a_cols(self), 30)
                    + "\nGOTO\n====\n"@ + pad_str(Seq::empty(), 4) + hdr_cells(
                    g_cols(self),
                    10,
                ) + "\n"@,
                a_top == "ACTION\n======\n"@ + pad_str(Seq::empty(), 4) + hdr_cells(
                    a_cols(self),
                    30,
                ) + "\n"@,
                s@ == g_top + rows_g(self, i as int, g_cols(self), 10),
            decreases self.cc@.len() - i,
        {
            let mut idx = String::new();
            push_usize(&mut idx, i);
            crate::text::push_padded(&mut s, &idx, 4);
            let mut k: usize = 0;
            proof {
                assert(s@ =~= g_top + rows_g(self, i as int, g_cols(self), 10) + pad_str(
                    dec_str(i as int),
                    4,
                ) + row_cells_g(self, i as int, views(ncols@).take(0), 10));
            }
            while k < ncols.len()
                invariant
                    0 <= k <= ncols@.len(),
                    0 <= i < self.cc@.len(),
                    self.wf(),
                    views(ncols@) == g_cols(self),
                    g_top == a_top + rows_a(self, self.cc@.len() as int, a_cols(self), 30)
                        + "\nGOTO\n====\n"@ + pad_str(Seq::empty(), 4) + hdr_cells(
                        g_cols(self),
                        10,
                    ) + "\n"@,
                    a_top == "ACTION\n======\n"@ + pad_str(Seq::empty(), 4) + hdr_cells(
                        a_cols(self),
                        30,
                    ) + "\n"@,
                    s@ == g_top + rows_g(self, i as int, g_cols(self), 10) + pad_str(
                        dec_str(i as int),
                        4,
                    ) + row_cells_g(self, i as int, views(ncols@).take(k as int), 10),
                decreases ncols@.len() - k,
            {
                let cell = self.goto_cell_text(i, &ncols[k]);
                crate::text::push_padded(&mut s, &cell, 10);
                proof {
                    assert(views(ncols@).take(k + 1).drop_last() =~= views(ncols@).take(
                        k as int,
                    ));
                    assert(views(ncols@).take(k + 1).last() == views(ncols@)[k as int]);
                    assert(s@ =~= g_top + rows_g(self, i as int, g_cols(self), 10) + pad_str(
                        dec_str(i as int),
                        4,
                    ) + row_cells_g(self, i as int, views(ncols@).take(k + 1), 10));
                }
                k += 1;
            }
            push_str(&mut s, "\n");
            proof {
                assert(views(ncols@).take(ncols@.len() as int) =~= views(ncols@));
                assert(s@ =~= g_top + rows_g(self, i + 1, g_cols(self), 10));
            }
            i += 1;
        }
        s
    }
}


/// Law: every state of the canonical collection is closed under the
/// item-derivation rule: for an item `[A -> alpha . X beta, a]` of state `I`
/// with `X` a non-terminal, every production `X -> gamma` and every `b` in
/// the FIRST walk of `beta a` put `[X -> . gamma, b]` in `I` as well.
pub proof fn lemma_state_closure_property(p: &Parser, i: int, it: ItemV, d: ItemV)
    requires
        p.wf(),
        0 <= i < p.cc@.len(),
        p.sets()[i].contains(it),
        item_child(p.grammar@, it, d),
    ensures
        p.sets()[i].contains(d),
{
    assert(closed(p.grammar@, p.sets()[i]));
}

/// Law: a run of the driver can only accept after reading an `EOF` token:
/// whenever the machine answers `Ok`, some token of the stream has the
/// reserved end-of-input kind.
pub proof fn lemma_accept_needs_eof(p: &Parser, toks: Seq<Seq<char>>, c: Cfg, fuel: nat)
    requires
        p.wf(),
        p.run(toks, c, fuel) matches Option::Some(r) && r is Ok,
    ensures
        exists|i: int| 0 <= i < toks.len() && toks[i] == "EOF"@,
    decreases fuel,
{
    match p.step(toks, c) {
        StepRes::Done(r) => {
            // The only accepting step looks up an `Accept` action, and every
            // recorded `Accept` comes from a terminator item, whose lookahead
            // is the `EOF` sentinel.
            let s = c.stack.last()->St_0;
            let t = SymbolV::T(toks[c.pos]);
            assert(p.act_of(s, t)[0] == Action::Accept);
            assert(p.act_of(s, t).contains(Action::Accept));
            p.lemma_cell_sound(s, t, Action::Accept);
            let it = choose|it: ItemV|
                #[trigger] p.sets()[s].contains(it) && item_terminator(p.grammar@, it) && it.la
                    == t;
            assert(p.grammar@.prods[it.prod].from == fake_goal_v());
            assert(it.prod == 0) by {
                if it.prod != 0 {
                    assert(p.grammar@.prods[it.prod].from != fake_goal_v());
                }
            }
            assert(fg_ok(it));
            assert(t == eof_v());
            assert(toks[c.pos] == "EOF"@);
        },
        StepRes::Next(c2) => {
            lemma_accept_needs_eof(p, toks, c2, (fuel - 1) as nat);
        },
    }
}

} // verus!
