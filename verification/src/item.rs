//! LR(1) items: a production, a dot position, and a lookahead terminal.
//!
//! An item refers to its production by index into the grammar's production
//! list, so item equality is equality of index, dot and lookahead.

use vstd::prelude::*;
use vstd::string::StringExecFns;
use crate::grammar::{Grammar, GrammarV};
use crate::production::name_views;
use crate::text::{join_strs, push_str, strs_views};
use crate::production::ProductionV;
use crate::symbol::{fake_goal_v, Symbol, SymbolV};

verus! {

/// Mathematical value of an [`Item`].
#[verifier::ext_equal]
pub struct ItemV {
    pub prod: int,
    pub dot: int,
    pub la: SymbolV,
}

/// An LR(1) item `[A -> alpha . beta, a]`: the production's index in the
/// grammar, the dot position `stacktop`, and the lookahead.
pub struct Item {
    pub prod: usize,
    pub stacktop: usize,
    pub lookahead: Symbol,
}

impl View for Item {
    type V = ItemV;

    open spec fn view(&self) -> ItemV {
        ItemV { prod: self.prod as int, dot: self.stacktop as int, la: self.lookahead@ }
    }
}

/// The item's production refers into the grammar, the dot stays inside the
/// body, and the lookahead is a terminal known to the FIRST map.
pub open spec fn item_wf(g: GrammarV, it: ItemV) -> bool {
    &&& 0 <= it.prod < g.prods.len()
    &&& 0 <= it.dot <= g.prods[it.prod].to.len()
    &&& it.la.is_t()
    &&& g.first.dom().contains(it.la)
}

/// The dot sits past the last body symbol.
pub open spec fn item_complete(g: GrammarV, it: ItemV) -> bool {
    it.dot == g.prods[it.prod].to.len()
}

/// The body symbol just after the dot, or `None` when complete.
pub open spec fn item_stacktop(g: GrammarV, it: ItemV) -> Option<SymbolV> {
    if item_complete(g, it) {
        Option::None
    } else {
        Option::Some(g.prods[it.prod].to[it.dot])
    }
}

/// The body symbols after the one at the dot.
pub open spec fn item_after(g: GrammarV, it: ItemV) -> Seq<SymbolV> {
    g.prods[it.prod].to.subrange(it.dot + 1, g.prods[it.prod].to.len() as int)
}

/// Those symbols followed by the lookahead: the `alpha` handed to the FIRST
/// walk during closure.
pub open spec fn item_after_la(g: GrammarV, it: ItemV) -> Seq<SymbolV> {
    item_after(g, it).push(it.la)
}

/// The accepting item: the augmented production, complete.
pub open spec fn item_terminator(g: GrammarV, it: ItemV) -> bool {
    &&& g.prods[it.prod].from == fake_goal_v()
    &&& it.dot == 1
    &&& item_complete(g, it)
}

/// The item with the dot moved one symbol right.
pub open spec fn item_advance(it: ItemV) -> ItemV {
    ItemV { prod: it.prod, dot: it.dot + 1, la: it.la }
}

impl Item {
    /// An item from a production index, dot position and lookahead.
    pub fn new(prod: usize, stacktop: usize, lookahead: Symbol) -> (r: Item)
        ensures
            r@ == (ItemV { prod: prod as int, dot: stacktop as int, la: lookahead@ }),
    {
        Item { prod, stacktop, lookahead }
    }

    /// An item with the dot at the start of the body.
    pub fn from_production(prod: usize, lookahead: Symbol) -> (r: Item)
        ensures
            r@ == (ItemV { prod: prod as int, dot: 0, la: lookahead@ }),
    {
        Item::new(prod, 0, lookahead)
    }

    /// An owned copy.
    pub fn dup(&self) -> (r: Item)
        ensures
            r == *self,
    {
        Item { prod: self.prod, stacktop: self.stacktop, lookahead: self.lookahead.dup() }
    }

    /// Value equality: same production index, dot and lookahead.
    pub fn item_eq(&self, other: &Item) -> (r: bool)
        ensures
            r == (self@ == other@),
    {
        self.prod == other.prod && self.stacktop == other.stacktop && self.lookahead.sym_eq(
            &other.lookahead,
        )
    }

    /// Whether the dot sits past the last body symbol.
    pub fn is_complete(&self, g: &Grammar) -> (r: bool)
        requires
            item_wf(g@, self@),
        ensures
            r == item_complete(g@, self@),
    {
        self.stacktop == g.productions[self.prod].to.len()
    }

    /// Whether this is the accepting item of the augmented grammar.
    pub fn is_terminator(&self, g: &Grammar) -> (r: bool)
        requires
            item_wf(g@, self@),
        ensures
            r == item_terminator(g@, self@),
    {
        let from = &g.productions[self.prod].from;
        from.is_non_terminal() && from.name_is("FAKE_GOAL") && self.stacktop == 1
            && self.is_complete(g)
    }

    /// The body symbol just after the dot, or `None` when complete.
    pub fn stacktop<'a>(&self, g: &'a Grammar) -> (r: Option<&'a Symbol>)
        requires
            item_wf(g@, self@),
        ensures
            match r {
                Option::None => item_complete(g@, self@),
                Option::Some(s) => !item_complete(g@, self@) && item_stacktop(g@, self@)
                    == Option::Some(s@),
            },
    {
        if self.stacktop == g.productions[self.prod].to.len() {
            Option::None
        } else {
            Option::Some(&g.productions[self.prod].to[self.stacktop])
        }
    }

    /// The body symbols after the one at the dot.
    pub fn after_stacktop(&self, g: &Grammar) -> (r: Vec<Symbol>)
        requires
            item_wf(g@, self@),
            !item_complete(g@, self@),
        ensures
            crate::symbol::views(r@) == item_after(g@, self@),
    {
        let body = &g.productions[self.prod].to;
        let n = body.len();
        proof {
            assert(self.stacktop < n);
        }
        let mut r: Vec<Symbol> = Vec::new();
        let mut i: usize = self.stacktop + 1;
        proof {
            assert(crate::symbol::views(r@) =~= crate::symbol::views(body@).subrange(
                self@.dot + 1,
                self@.dot + 1,
            ));
        }
        while i < body.len()
            invariant
                self@.dot + 1 <= i <= body@.len(),
                body == &g.productions@[self@.prod].to,
                item_wf(g@, self@),
                crate::symbol::views(r@) == crate::symbol::views(body@).subrange(
                    self@.dot + 1,
                    i as int,
                ),
            decreases body@.len() - i,
        {
            let ghost oldr = r@;
            r.push(body[i].dup());
            proof {
                crate::symbol::lemma_views_push(oldr, r@.last());
                assert(crate::symbol::views(r@) =~= crate::symbol::views(body@).subrange(
                    self@.dot + 1,
                    i + 1,
                ));
            }
            i += 1;
        }
        proof {
            assert(crate::symbol::views(body@) =~= g@.prods[self@.prod].to);
        }
        r
    }

    /// Those symbols followed by the lookahead.
    pub fn after_stacktop_and_lookahead(&self, g: &Grammar) -> (r: Vec<Symbol>)
        requires
            item_wf(g@, self@),
            !item_complete(g@, self@),
        ensures
            crate::symbol::views(r@) == item_after_la(g@, self@),
            r@.len() > 0,
    {
        let mut r = self.after_stacktop(g);
        let ghost oldr = r@;
        r.push(self.lookahead.dup());
        proof {
            crate::symbol::lemma_views_push(oldr, r@.last());
            assert(crate::symbol::views(r@) =~= item_after_la(g@, self@));
        }
        r
    }

    /// A copy with the dot moved one symbol right.  Defined only for an
    /// incomplete item.
    pub fn clone_with_next_stacktop(&self, g: &Grammar) -> (r: Item)
        requires
            item_wf(g@, self@),
            !item_complete(g@, self@),
        ensures
            r@ == item_advance(self@),
    {
        let n = g.productions[self.prod].to.len();
        proof {
            assert(self.stacktop < n);
        }
        Item { prod: self.prod, stacktop: self.stacktop + 1, lookahead: self.lookahead.dup() }
    }

    /// The item denoted by raw names, resolved against `g`: names among
    /// `g`'s non-terminals become non-terminals, the production must be one
    /// of `g`'s, and the item refers to its first occurrence.
    pub fn from_str(from: &str, to: Vec<&str>, stacktop: usize, lookahead: &str, g: &Grammar) -> (r:
        Item)
        requires
            ({
                let d = nt_names(g@);
                let p = ProductionV {
                    from: SymbolV::NT(from@),
                    to: crate::grammar::str_views(to@).map_values(
                        |n: Seq<char>| crate::grammar::classify(d, n),
                    ),
                };
                &&& d.contains(from@)
                &&& exists|j: int| 0 <= j < g@.prods.len() && g@.prods[j] == p
            }),
        ensures
            ({
                let d = nt_names(g@);
                let p = ProductionV {
                    from: SymbolV::NT(from@),
                    to: crate::grammar::str_views(to@).map_values(
                        |n: Seq<char>| crate::grammar::classify(d, n),
                    ),
                };
                r@ == (ItemV {
                    prod: find_prod_pos(g@.prods, p),
                    dot: stacktop as int,
                    la: crate::grammar::classify(d, lookahead@),
                })
            }),
    {
        let ghost d = nt_names(g@);
        let nts = g.non_terminals();
        proof {
            lemma_nt_names(g@, nts@);
        }
        let fromsym = Symbol::new_nt(from);
        let mut body: Vec<Symbol> = Vec::new();
        let mut j: usize = 0;
        while j < to.len()
            invariant
                0 <= j <= to@.len(),
                d == nt_names(g@),
                crate::symbol::views(nts@).to_set() == Set::new(
                    |x: SymbolV| x.is_nt() && g@.syms.contains(x),
                ),
                crate::symbol::views(body@) == crate::grammar::str_views(to@).take(
                    j as int,
                ).map_values(|n: Seq<char>| crate::grammar::classify(d, n)),
            decreases to@.len() - j,
        {
            let ghost oldbody = body@;
            if name_in_syms(&nts, to[j]) {
                body.push(Symbol::new_nt(to[j]));
            } else {
                body.push(Symbol::new_t(to[j]));
            }
            proof {
                crate::symbol::lemma_views_push(oldbody, body@.last());
                assert(crate::symbol::views(body@) =~= crate::grammar::str_views(to@).take(
                    j + 1,
                ).map_values(|n: Seq<char>| crate::grammar::classify(d, n)));
            }
            j += 1;
        }
        proof {
            assert(crate::grammar::str_views(to@).take(to@.len() as int) =~= crate::grammar::str_views(
                to@,
            ));
        }
        let lasym = if name_in_syms(&nts, lookahead) {
            Symbol::new_nt(lookahead)
        } else {
            Symbol::new_t(lookahead)
        };
        let prod = crate::production::Production::new(fromsym, body);
        let pj = match find_production(&g.productions, &prod) {
            Option::Some(pj) => pj,
            Option::None => {
                proof {
                    lemma_find_prod_pos(g@.prods, prod@);
                }
                vstd::pervasive::unreached()
            },
        };
        Item::new(pj, stacktop, lasym)
    }
}

/// The names of the grammar's non-terminal symbols.
pub open spec fn nt_names(g: GrammarV) -> Set<Seq<char>> {
    Set::new(|n: Seq<char>| g.syms.contains(SymbolV::NT(n)))
}

/// The non-terminal list of a grammar carries exactly the `nt_names`.
proof fn lemma_nt_names(g: GrammarV, nts: Seq<Symbol>)
    requires
        crate::symbol::views(nts).to_set() == Set::new(
            |x: SymbolV| x.is_nt() && g.syms.contains(x),
        ),
    ensures
        forall|n: Seq<char>|
            nt_names(g).contains(n) <==> crate::symbol::views(nts).to_set().contains(
                SymbolV::NT(n),
            ),
{
}

/// Whether `name`, read as a non-terminal, occurs in the symbol list.
fn name_in_syms(v: &Vec<Symbol>, name: &str) -> (r: bool)
    ensures
        r == crate::symbol::views(v@).to_set().contains(SymbolV::NT(name@)),
{
    let sym = Symbol::new_nt(name);
    let r = crate::symbol::syms_contain(v, &sym);
    proof {
        if crate::symbol::views(v@).contains(sym@) {
            assert(crate::symbol::views(v@).to_set().contains(sym@));
        }
    }
    r
}

/// Index of the first occurrence of production value `p`, or `-1`.
pub open spec fn find_prod_pos(prods: Seq<ProductionV>, p: ProductionV) -> int
    decreases prods.len(),
{
    if prods.len() == 0 {
        -1
    } else if prods[0] == p {
        0
    } else {
        let r = find_prod_pos(prods.drop_first(), p);
        if r < 0 {
            -1
        } else {
            r + 1
        }
    }
}

/// `find_prod_pos` finds a valid position holding `p`, exactly when `p`
/// occurs.
pub proof fn lemma_find_prod_pos(prods: Seq<ProductionV>, p: ProductionV)
    ensures
        -1 <= find_prod_pos(prods, p) < prods.len(),
        (exists|j: int| 0 <= j < prods.len() && prods[j] == p) <==> 0 <= find_prod_pos(prods, p),
        0 <= find_prod_pos(prods, p) ==> prods[find_prod_pos(prods, p)] == p,
    decreases prods.len(),
{
    if prods.len() != 0 && prods[0] != p {
        let rest = prods.drop_first();
        lemma_find_prod_pos(rest, p);
        if exists|j: int| 0 <= j < prods.len() && prods[j] == p {
            let j = choose|j: int| 0 <= j < prods.len() && prods[j] == p;
            assert(rest[j - 1] == p);
        }
        if 0 <= find_prod_pos(rest, p) {
            assert(prods[find_prod_pos(rest, p) + 1] == rest[find_prod_pos(rest, p)]);
        }
    }
}

/// First-occurrence version of `find_prod_pos`.
proof fn lemma_find_prod_pos_at(prods: Seq<ProductionV>, p: ProductionV, i: int)
    requires
        0 <= i < prods.len(),
        prods[i] == p,
        forall|j: int| 0 <= j < i ==> prods[j] != p,
    ensures
        find_prod_pos(prods, p) == i,
    decreases prods.len(),
{
    if prods[0] == p {
        assert(i == 0);
    } else {
        let rest = prods.drop_first();
        assert(rest[i - 1] == p);
        assert(forall|j: int| 0 <= j < i - 1 ==> rest[j] != p);
        lemma_find_prod_pos_at(rest, p, i - 1);
    }
}

/// Position of the first production equal in value to `p`.
fn find_production(prods: &Vec<crate::production::Production>, p: &crate::production::Production)
    -> (r: Option<usize>)
    ensures
        match r {
            Option::None => find_prod_pos(crate::production::prod_views(prods@), p@) == -1,
            Option::Some(j) => j < prods@.len() && j as int == find_prod_pos(
                crate::production::prod_views(prods@),
                p@,
            ),
        },
{
    let ghost pv = crate::production::prod_views(prods@);
    let mut i: usize = 0;
    while i < prods.len()
        invariant
            0 <= i <= prods@.len(),
            pv == crate::production::prod_views(prods@),
            forall|j: int| 0 <= j < i ==> pv[j] != p@,
        decreases prods@.len() - i,
    {
        if prods[i].prod_eq(p) {
            proof {
                lemma_find_prod_pos_at(pv, p@, i as int);
            }
            return Option::Some(i);
        }
        i += 1;
    }
    proof {
        lemma_find_prod_pos(pv, p@);
    }
    Option::None
}

/// The views of a sequence of items.
pub open spec fn item_views(s: Seq<Item>) -> Seq<ItemV> {
    s.map_values(|x: Item| x@)
}

/// Viewing commutes with appending one item.
pub proof fn lemma_item_views_push(s: Seq<Item>, x: Item)
    ensures
        item_views(s.push(x)) =~= item_views(s).push(x@),
{
}

/// Membership of an item view in an executable item list.
pub fn items_contain(v: &Vec<Item>, x: &Item) -> (r: bool)
    ensures
        r == item_views(v@).contains(x@),
{
    let mut i: usize = 0;
    while i < v.len()
        invariant
            0 <= i <= v.len(),
            forall|k: int| 0 <= k < i ==> item_views(v@)[k] != x@,
        decreases v.len() - i,
    {
        if v[i].item_eq(x) {
            assert(item_views(v@)[i as int] == x@);
            return true;
        }
        i += 1;
    }
    false
}

/// Insert `x` into the duplicate-free item list `v` unless already present.
pub fn insert_item(v: &mut Vec<Item>, x: &Item) -> (grew: bool)
    requires
        item_views(old(v)@).no_duplicates(),
    ensures
        item_views(final(v)@).no_duplicates(),
        item_views(final(v)@).to_set() == item_views(old(v)@).to_set().insert(x@),
        grew == !item_views(old(v)@).contains(x@),
        grew ==> final(v)@ == old(v)@.push(*x) && final(v)@.len() == old(v)@.len() + 1,
        !grew ==> *final(v) == *old(v),
{
    broadcast use vstd::seq_lib::group_seq_properties;

    if items_contain(v, x) {
        proof {
            assert(item_views(v@).to_set().insert(x@) =~= item_views(v@).to_set());
        }
        false
    } else {
        let ghost oldv = item_views(v@);
        v.push(x.dup());
        proof {
            assert(item_views(v@) =~= oldv.push(x@));
            assert(item_views(v@).to_set() =~= oldv.to_set().insert(x@));
            assert(v@ =~= old(v)@.push(*x));
        }
        true
    }
}

/// Whether every item of `a` occurs in `b`.
pub fn items_subset(a: &Vec<Item>, b: &Vec<Item>) -> (r: bool)
    ensures
        r == item_views(a@).to_set().subset_of(item_views(b@).to_set()),
{
    let mut i: usize = 0;
    while i < a.len()
        invariant
            0 <= i <= a.len(),
            forall|k: int| 0 <= k < i ==> item_views(b@).contains(item_views(a@)[k]),
        decreases a.len() - i,
    {
        if !items_contain(b, &a[i]) {
            assert(item_views(a@).to_set().contains(item_views(a@)[i as int]));
            return false;
        }
        i += 1;
    }
    assert forall|x: ItemV| item_views(a@).to_set().contains(x) implies item_views(
        b@,
    ).to_set().contains(x) by {
        let k = choose|k: int| 0 <= k < item_views(a@).len() && item_views(a@)[k] == x;
        assert(item_views(b@).contains(item_views(a@)[k]));
    }
    true
}

/// Whether `a` and `b` hold the same set of items.
pub fn items_set_eq(a: &Vec<Item>, b: &Vec<Item>) -> (r: bool)
    ensures
        r == (item_views(a@).to_set() == item_views(b@).to_set()),
{
    let ab = items_subset(a, b);
    let ba = items_subset(b, a);
    proof {
        if ab && ba {
            assert(item_views(a@).to_set() =~= item_views(b@).to_set());
        }
    }
    ab && ba
}

/// An owned copy of an item list.
pub fn dup_items(v: &Vec<Item>) -> (r: Vec<Item>)
    ensures
        r@ == v@,
{
    let mut r: Vec<Item> = Vec::new();
    let mut i: usize = 0;
    while i < v.len()
        invariant
            0 <= i <= v.len(),
            r@ == v@.take(i as int),
        decreases v.len() - i,
    {
        r.push(v[i].dup());
        proof {
            assert(r@ =~= v@.take(i + 1));
        }
        i += 1;
    }
    proof {
        assert(v@.take(v@.len() as int) =~= v@);
    }
    r
}


/// An item printed `[head -> a \u{2022} b c, lookahead]`, the dot drawn as a
/// bullet (after the last body symbol when complete).
pub open spec fn item_str(g: GrammarV, it: ItemV) -> Seq<char> {
    "["@ + g.prods[it.prod].from.name() + " -> "@ + join_strs(
        name_views(g.prods[it.prod].to).insert(it.dot, bullet_str()),
        " "@,
    ) + ", "@ + it.la.name() + "]"@
}

/// The dot marker.
pub open spec fn bullet_str() -> Seq<char> {
    "."@
}

/// The texts of an item list.
pub open spec fn items_strs(g: GrammarV, items: Seq<ItemV>) -> Seq<Seq<char>> {
    items.map_values(|it: ItemV| item_str(g, it))
}

impl Item {
    /// The item as text: `[head -> alpha . beta, lookahead]`.
    pub fn describe(&self, g: &Grammar) -> (r: String)
        requires
            item_wf(g@, self@),
        ensures
            r@ == item_str(g@, self@),
    {
        let ghost withdot = name_views(g@.prods[self@.prod].to).insert(self@.dot, bullet_str());
        let body = &g.productions[self.prod].to;
        let n = body.len();
        let mut parts: Vec<String> = Vec::new();
        let mut j: usize = 0;
        proof {
            assert(strs_views(parts@) =~= withdot.take(0));
        }
        while j < n
            invariant
                0 <= j <= n,
                item_wf(g@, self@),
                body == &g.productions@[self@.prod].to,
                n == body@.len(),
                withdot == name_views(g@.prods[self@.prod].to).insert(self@.dot, bullet_str()),
                strs_views(parts@) == withdot.take(
                    if j <= self@.dot {
                        j as int
                    } else {
                        j + 1
                    },
                ),
            decreases n - j,
        {
            if j == self.stacktop {
                let ghost oldparts = parts@;
                parts.push(String::from_str("."));
                proof {
                    crate::text::lemma_strs_views_push(oldparts, parts@.last());
                    assert(withdot[j as int] == bullet_str());
                    assert(strs_views(parts@) =~= withdot.take(j + 1));
                }
            }
            let ghost oldparts = parts@;
            let ghost at: int = if j < self@.dot {
                j as int
            } else {
                j + 1
            };
            parts.push(String::from_str(body[j].as_str()));
            proof {
                crate::text::lemma_strs_views_push(oldparts, parts@.last());
                assert(withdot[at] == name_views(g@.prods[self@.prod].to)[j as int]);
                assert(strs_views(parts@) =~= withdot.take(at + 1));
            }
            j += 1;
        }
        if self.stacktop == n {
            let ghost oldparts = parts@;
            parts.push(String::from_str("."));
            proof {
                crate::text::lemma_strs_views_push(oldparts, parts@.last());
                assert(withdot[n as int] == bullet_str());
                assert(strs_views(parts@) =~= withdot.take(n as int + 1));
            }
        }
        proof {
            assert(withdot.len() == body@.len() + 1);
            assert(strs_views(parts@) =~= withdot);
        }
        let mut s = String::new();
        push_str(&mut s, "[");
        push_str(&mut s, g.productions[self.prod].from.as_str());
        push_str(&mut s, " -> ");
        crate::text::join_into(&mut s, &parts, " ");
        push_str(&mut s, ", ");
        push_str(&mut s, self.lookahead.as_str());
        push_str(&mut s, "]");
        proof {
            assert(s@ =~= item_str(g@, self@));
        }
        s
    }

    /// An item list as text, the items separated by spaces.
    pub fn set_to_string(items: &Vec<Item>, g: &Grammar) -> (r: String)
        requires
            forall|k: int|
                0 <= k < items@.len() ==> item_wf(g@, #[trigger] item_views(items@)[k]),
        ensures
            r@ == join_strs(items_strs(g@, item_views(items@)), " "@),
    {
        let ghost strs = items_strs(g@, item_views(items@));
        let mut parts: Vec<String> = Vec::new();
        let mut i: usize = 0;
        proof {
            assert(strs_views(parts@) =~= strs.take(0));
        }
        while i < items.len()
            invariant
                0 <= i <= items@.len(),
                strs == items_strs(g@, item_views(items@)),
                forall|k: int|
                    0 <= k < items@.len() ==> item_wf(g@, #[trigger] item_views(items@)[k]),
                strs_views(parts@) == strs.take(i as int),
            decreases items@.len() - i,
        {
            proof {
                assert(item_views(items@)[i as int] == items@[i as int]@);
            }
            let ghost oldparts = parts@;
            parts.push(items[i].describe(g));
            proof {
                crate::text::lemma_strs_views_push(oldparts, parts@.last());
                assert(strs_views(parts@) =~= strs.take(i + 1));
            }
            i += 1;
        }
        proof {
            assert(strs.take(strs.len() as int) =~= strs);
        }
        let mut s = String::new();
        crate::text::join_into(&mut s, &parts, " ");
        proof {
            assert(s@ =~= join_strs(strs, " "@));
        }
        s
    }

    /// A list of item sets as text, one set per line.
    pub fn set_of_sets_to_string(sets: &Vec<Vec<Item>>, g: &Grammar) -> (r: String)
        requires
            forall|q: int, k: int|
                0 <= q < sets@.len() && 0 <= k < (#[trigger] sets@[q])@.len() ==> item_wf(
                    g@,
                    #[trigger] item_views(sets@[q]@)[k],
                ),
        ensures
            r@ == join_strs(
                sets@.map_values(
                    |v: Vec<Item>| join_strs(items_strs(g@, item_views(v@)), " "@),
                ),
                "\n"@,
            ),
    {
        let ghost strs = sets@.map_values(
            |v: Vec<Item>| join_strs(items_strs(g@, item_views(v@)), " "@),
        );
        let mut parts: Vec<String> = Vec::new();
        let mut i: usize = 0;
        proof {
            assert(strs_views(parts@) =~= strs.take(0));
        }
        while i < sets.len()
            invariant
                0 <= i <= sets@.len(),
                strs == sets@.map_values(
                    |v: Vec<Item>| join_strs(items_strs(g@, item_views(v@)), " "@),
                ),
                forall|q: int, k: int|
                    0 <= q < sets@.len() && 0 <= k < (#[trigger] sets@[q])@.len() ==> item_wf(
                        g@,
                        #[trigger] item_views(sets@[q]@)[k],
                    ),
                strs_views(parts@) == strs.take(i as int),
            decreases sets@.len() - i,
        {
            let ghost oldparts = parts@;
            parts.push(Item::set_to_string(&sets[i], g));
            proof {
                crate::text::lemma_strs_views_push(oldparts, parts@.last());
                assert(strs_views(parts@) =~= strs.take(i + 1));
            }
            i += 1;
        }
        proof {
            assert(strs.take(strs.len() as int) =~= strs);
        }
        let mut s = String::new();
        crate::text::join_into(&mut s, &parts, "\n");
        proof {
            assert(s@ =~= join_strs(strs, "\n"@));
        }
        s
    }
}

} // verus!
