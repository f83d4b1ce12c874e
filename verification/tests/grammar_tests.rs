use std::collections::BTreeSet;

use lr1::{Grammar, LrError, Symbol};

const LAMBDA: &str = "LAMBDA";

fn example_grammar() -> Grammar {
    let non_terminals = vec!["Goal", "Expr", "Expr'", "Term", "Term'", "Factor"];

    let prods = vec![
        ("Goal", vec!["Expr"]),
        ("Expr", vec!["Term", "Expr'"]),
        ("Expr'", vec!["+", "Term", "Expr'"]),
        ("Expr'", vec!["-", "Term", "Expr'"]),
        ("Expr'", vec![LAMBDA]),
        ("Term", vec!["Factor", "Term'"]),
        ("Term'", vec!["x", "Factor", "Term'"]),
        ("Term'", vec!["%", "Factor", "Term'"]),
        ("Term'", vec![LAMBDA]),
        ("Factor", vec!["(", "Expr", ")"]),
        ("Factor", vec!["num"]),
        ("Factor", vec!["name"]),
    ];

    Grammar::new_simple("Goal", non_terminals, prods).unwrap()
}

fn sym_pairs(syms: &[Symbol]) -> BTreeSet<(bool, String)> {
    syms.iter().map(|s| (s.is_terminal(), s.as_str().to_string())).collect()
}

fn t_set(names: &[&str]) -> BTreeSet<(bool, String)> {
    names.iter().map(|n| (true, n.to_string())).collect()
}

fn nt_set(names: &[&str]) -> BTreeSet<(bool, String)> {
    names.iter().map(|n| (false, n.to_string())).collect()
}

#[test]
fn grammar_creation() {
    let g = example_grammar();

    assert_eq!(
        sym_pairs(&g.terminals()),
        t_set(&["+", "-", "x", "%", LAMBDA, "(", ")", "num", "name"])
    );

    assert_eq!(
        sym_pairs(&g.non_terminals()),
        nt_set(&["Goal", "Expr", "Expr'", "Term", "Term'", "Factor"])
    );
}

#[test]
fn first_of_terminals() {
    let g = example_grammar();

    for t in &g.terminals() {
        let first = g.first_of(&vec![t.dup()]).unwrap();
        assert_eq!(sym_pairs(&first), sym_pairs(&[t.dup()]));
    }
}

#[test]
fn first_of_non_terminals() {
    let g = example_grammar();

    let cases = vec![
        ("Goal", vec!["(", "name", "num"]),
        ("Expr", vec!["(", "name", "num"]),
        ("Expr'", vec!["+", "-", LAMBDA]),
        ("Term", vec!["(", "name", "num"]),
        ("Term'", vec!["x", "%", LAMBDA]),
        ("Factor", vec!["(", "name", "num"]),
    ];

    for (nt, first) in &cases {
        let actual = g.first_of(&vec![Symbol::new_nt(nt)]).unwrap();
        let expected: BTreeSet<(bool, String)> = t_set(&first);
        assert_eq!(
            sym_pairs(&actual),
            expected,
            "case nt {:?}, first {:?}",
            nt,
            first
        );
    }
}

#[test]
fn first_of_symbols() {
    // The walk of `Expr' x` keeps LAMBDA out: `x` is not nullable, so the
    // empty-string marker of `Expr'` does not survive.
    let g = example_grammar();
    let actual = g
        .first_of(&vec![Symbol::new_nt("Expr'"), Symbol::new_t("x")])
        .unwrap();
    assert_eq!(sym_pairs(&actual), t_set(&["+", "-", "x"]));
}

#[test]
fn first_of_production_bodies_within_head() {
    // For every production `A -> alpha`, FIRST(alpha) is within FIRST(A).
    let g = example_grammar();
    for p in &g.productions {
        if p.to.is_empty() {
            continue;
        }
        let body: Vec<Symbol> = p.to.iter().map(|s| s.dup()).collect();
        let of_body = g.first_of(&body).unwrap();
        let of_head = g.first_of(&vec![p.from.dup()]).unwrap();
        let head_set = sym_pairs(&of_head);
        for s in sym_pairs(&of_body) {
            assert!(head_set.contains(&s), "missing {:?}", s);
        }
    }
}

#[test]
fn rejects_undeclared_goal() {
    let r = Grammar::new_simple("Start", vec!["S"], vec![("S", vec!["a"])]);
    assert_eq!(r.err(), Some(LrError::InvalidGrammar));
}

#[test]
fn rejects_undeclared_head() {
    let r = Grammar::new_simple("S", vec!["S"], vec![("T", vec!["a"])]);
    assert_eq!(r.err(), Some(LrError::InvalidGrammar));
}

#[test]
fn rejects_reserved_non_terminal() {
    let r = Grammar::new_simple("S", vec!["S", "EOF"], vec![("S", vec!["a"])]);
    assert_eq!(r.err(), Some(LrError::InvalidGrammar));
    let r = Grammar::new_simple("S", vec!["S", "FAKE_GOAL"], vec![("S", vec!["a"])]);
    assert_eq!(r.err(), Some(LrError::InvalidGrammar));
    let r = Grammar::new_simple("S", vec!["S", "LAMBDA"], vec![("S", vec!["a"])]);
    assert_eq!(r.err(), Some(LrError::InvalidGrammar));
}

#[test]
fn with_fake_goal_prepends_start_production() {
    let g = example_grammar();
    let aug = g.with_fake_goal();
    assert!(aug.goal.is_non_terminal());
    assert_eq!(aug.goal.as_str(), "FAKE_GOAL");
    assert_eq!(aug.productions.len(), g.productions.len() + 1);
    assert_eq!(aug.productions[0].from.as_str(), "FAKE_GOAL");
    assert_eq!(aug.productions[0].to.len(), 1);
    assert_eq!(aug.productions[0].to[0].as_str(), "Goal");
}

#[test]
fn get_prods_indexes_by_head() {
    let g = example_grammar();
    let ix = g.get_prods(&Symbol::new_nt("Expr'")).unwrap();
    assert_eq!(ix, vec![2, 3, 4]);
    assert!(g.get_prods(&Symbol::new_t("num")).is_none());
    assert!(g.get_prods(&Symbol::new_nt("Missing")).is_none());
}
