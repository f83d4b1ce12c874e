use std::collections::BTreeSet;

use lr1::{Action, Grammar, Item, LrError, Parser, Symbol, Token, TokenLike, Tree};

const EOF: &str = "EOF";
const FAKE_GOAL: &str = "FAKE_GOAL";

fn paretheses_grammar() -> Grammar {
    let non_terminals = vec!["List", "Pair"];

    let prods = vec![
        ("List", vec!["List", "Pair"]),
        ("List", vec!["Pair"]),
        ("Pair", vec!["(", "Pair", ")"]),
        ("Pair", vec!["(", ")"]),
    ];

    Grammar::new_simple("List", non_terminals, prods).unwrap()
}

fn example_parser() -> Parser {
    Parser::new(paretheses_grammar())
}

fn item_key(it: &Item) -> (usize, usize, bool, String) {
    (
        it.prod,
        it.stacktop,
        it.lookahead.is_terminal(),
        it.lookahead.as_str().to_string(),
    )
}

fn items_key(v: &[Item]) -> BTreeSet<(usize, usize, bool, String)> {
    v.iter().map(item_key).collect()
}

fn paretheses_cc(g: &Grammar) -> Vec<Vec<Item>> {
    let cc0 = vec![
        Item::from_str(FAKE_GOAL, vec!["List"], 0, EOF, g),
        Item::from_str("List", vec!["List", "Pair"], 0, EOF, g),
        Item::from_str("List", vec!["List", "Pair"], 0, "(", g),
        Item::from_str("List", vec!["Pair"], 0, EOF, g),
        Item::from_str("List", vec!["Pair"], 0, "(", g),
        Item::from_str("Pair", vec!["(", "Pair", ")"], 0, EOF, g),
        Item::from_str("Pair", vec!["(", "Pair", ")"], 0, "(", g),
        Item::from_str("Pair", vec!["(", ")"], 0, EOF, g),
        Item::from_str("Pair", vec!["(", ")"], 0, "(", g),
    ];

    let cc1 = vec![
        Item::from_str(FAKE_GOAL, vec!["List"], 1, EOF, g),
        Item::from_str("List", vec!["List", "Pair"], 1, EOF, g),
        Item::from_str("List", vec!["List", "Pair"], 1, "(", g),
        Item::from_str("Pair", vec!["(", "Pair", ")"], 0, EOF, g),
        Item::from_str("Pair", vec!["(", "Pair", ")"], 0, "(", g),
        Item::from_str("Pair", vec!["(", ")"], 0, EOF, g),
        Item::from_str("Pair", vec!["(", ")"], 0, "(", g),
    ];

    let cc2 = vec![
        Item::from_str("List", vec!["Pair"], 1, EOF, g),
        Item::from_str("List", vec!["Pair"], 1, "(", g),
    ];

    let cc3 = vec![
        Item::from_str("Pair", vec!["(", "Pair", ")"], 0, ")", g),
        Item::from_str("Pair", vec!["(", "Pair", ")"], 1, EOF, g),
        Item::from_str("Pair", vec!["(", "Pair", ")"], 1, "(", g),
        Item::from_str("Pair", vec!["(", ")"], 0, ")", g),
        Item::from_str("Pair", vec!["(", ")"], 1, EOF, g),
        Item::from_str("Pair", vec!["(", ")"], 1, "(", g),
    ];

    let cc4 = vec![
        Item::from_str("List", vec!["List", "Pair"], 2, EOF, g),
        Item::from_str("List", vec!["List", "Pair"], 2, "(", g),
    ];

    let cc5 = vec![
        Item::from_str("Pair", vec!["(", "Pair", ")"], 2, EOF, g),
        Item::from_str("Pair", vec!["(", "Pair", ")"], 2, "(", g),
    ];

    let cc6 = vec![
        Item::from_str("Pair", vec!["(", "Pair", ")"], 0, ")", g),
        Item::from_str("Pair", vec!["(", "Pair", ")"], 1, ")", g),
        Item::from_str("Pair", vec!["(", ")"], 0, ")", g),
        Item::from_str("Pair", vec!["(", ")"], 1, ")", g),
    ];

    let cc7 = vec![
        Item::from_str("Pair", vec!["(", ")"], 2, EOF, g),
        Item::from_str("Pair", vec!["(", ")"], 2, "(", g),
    ];

    let cc8 = vec![
        Item::from_str("Pair", vec!["(", "Pair", ")"], 3, EOF, g),
        Item::from_str("Pair", vec!["(", "Pair", ")"], 3, "(", g),
    ];

    let cc9 = vec![Item::from_str("Pair", vec!["(", "Pair", ")"], 2, ")", g)];

    let cc10 = vec![Item::from_str("Pair", vec!["(", ")"], 2, ")", g)];

    let cc11 = vec![Item::from_str("Pair", vec!["(", "Pair", ")"], 3, ")", g)];

    vec![cc0, cc1, cc2, cc3, cc4, cc5, cc6, cc7, cc8, cc9, cc10, cc11]
}

fn action_cell(p: &Parser, state: usize, t: &Symbol) -> Option<Vec<Action>> {
    for (key, cell) in &p.actions[state] {
        if key.is_terminal() == t.is_terminal() && key.as_str() == t.as_str() {
            return Some(cell.clone());
        }
    }
    None
}

fn lex(tokens: &str) -> Vec<(String, String)> {
    if tokens.is_empty() {
        return vec![];
    }
    tokens
        .split(' ')
        .map(|s| (s.to_string(), "".to_string()))
        .collect()
}

#[test]
fn closure_and_goto_test() {
    let parser = example_parser();
    let g = &parser.grammar;
    let item = Item::from_production(0, Symbol::eof());
    let items = vec![item];
    let cc0 = parser.closure(&items);

    let expected = vec![
        Item::from_str(FAKE_GOAL, vec!["List"], 0, EOF, g),
        Item::from_str("List", vec!["List", "Pair"], 0, EOF, g),
        Item::from_str("List", vec!["List", "Pair"], 0, "(", g),
        Item::from_str("List", vec!["Pair"], 0, EOF, g),
        Item::from_str("List", vec!["Pair"], 0, "(", g),
        Item::from_str("Pair", vec!["(", "Pair", ")"], 0, EOF, g),
        Item::from_str("Pair", vec!["(", "Pair", ")"], 0, "(", g),
        Item::from_str("Pair", vec!["(", ")"], 0, EOF, g),
        Item::from_str("Pair", vec!["(", ")"], 0, "(", g),
    ];

    assert_eq!(items_key(&cc0), items_key(&expected));

    let actual = parser.goto(&cc0, &Symbol::new_t("(")).unwrap();
    let expected = vec![
        Item::from_str("Pair", vec!["(", "Pair", ")"], 1, EOF, g),
        Item::from_str("Pair", vec!["(", "Pair", ")"], 1, "(", g),
        Item::from_str("Pair", vec!["(", ")"], 1, EOF, g),
        Item::from_str("Pair", vec!["(", ")"], 1, "(", g),
        Item::from_str("Pair", vec!["(", "Pair", ")"], 0, ")", g),
        Item::from_str("Pair", vec!["(", ")"], 0, ")", g),
    ];
    assert_eq!(items_key(&actual), items_key(&expected));
}

#[test]
fn goto_test2() {
    let parser = example_parser();
    let cc_vec = paretheses_cc(&parser.grammar);

    let col = vec![
        Symbol::new_nt("Goal"),
        Symbol::new_nt("List"),
        Symbol::new_nt("Pair"),
        Symbol::new_t("("),
        Symbol::new_t(")"),
        Symbol::eof(),
    ];

    let expected: Vec<[Option<usize>; 6]> = vec![
        [None, Some(1), Some(2), Some(3), None, None],
        [None, None, Some(4), Some(3), None, None],
        [None, None, None, None, None, None],
        [None, None, Some(5), Some(6), Some(7), None],
        [None, None, None, None, None, None],
        [None, None, None, None, Some(8), None],
        [None, None, Some(9), Some(6), Some(10), None],
        [None, None, None, None, None, None],
        [None, None, None, None, None, None],
        [None, None, None, None, Some(11), None],
        [None, None, None, None, None, None],
        [None, None, None, None, None, None],
    ];

    for (i, row) in expected.iter().enumerate() {
        for (j, e) in row.iter().enumerate() {
            let a = parser.goto(&cc_vec[i], &col[j]);
            match (a, e) {
                (None, None) => {}
                (Some(items), Some(k)) => {
                    assert_eq!(
                        items_key(&items),
                        items_key(&cc_vec[*k]),
                        "from state {} under {:?}",
                        i,
                        col[j].as_str()
                    );
                }
                (a, e) => panic!("state {} col {}: {:?} vs {:?}", i, j, a.is_some(), e),
            }
        }
    }
}

#[test]
fn action_test() {
    let parser = example_parser();
    let cc_vec = paretheses_cc(&parser.grammar);
    let idx: Vec<usize> = cc_vec
        .iter()
        .map(|st| parser.find_state(st).expect("state missing"))
        .collect();

    let col = [EOF, "(", ")"];

    // Expected single actions per (state, terminal): `S(k)` is a shift to
    // expected state k, `R(p)` a reduction by production p of the augmented
    // grammar.
    #[derive(Clone, Copy)]
    enum Exp {
        S(usize),
        R(usize),
        A,
    }
    let expected: Vec<[Option<Exp>; 3]> = vec![
        [None, Some(Exp::S(3)), None],
        [Some(Exp::A), Some(Exp::S(3)), None],
        [Some(Exp::R(2)), Some(Exp::R(2)), None],
        [None, Some(Exp::S(6)), Some(Exp::S(7))],
        [Some(Exp::R(1)), Some(Exp::R(1)), None],
        [None, None, Some(Exp::S(8))],
        [None, Some(Exp::S(6)), Some(Exp::S(10))],
        [Some(Exp::R(4)), Some(Exp::R(4)), None],
        [Some(Exp::R(3)), Some(Exp::R(3)), None],
        [None, None, Some(Exp::S(11))],
        [None, None, Some(Exp::R(4))],
        [None, None, Some(Exp::R(3))],
    ];

    for (i, row) in expected.iter().enumerate() {
        for (j, e) in row.iter().enumerate() {
            let cell = action_cell(&parser, idx[i], &Symbol::new_t(col[j]));
            let want = e.map(|x| match x {
                Exp::S(k) => Action::Shift(idx[k]),
                Exp::R(p) => Action::Reduce(p),
                Exp::A => Action::Accept,
            });
            match (cell, want) {
                (None, None) => {}
                (Some(cell), Some(w)) => {
                    assert_eq!(cell, vec![w], "state {} terminal {}", i, col[j]);
                }
                (cell, _) => panic!("state {} terminal {}: {:?}", i, col[j], cell),
            }
        }
    }
}

#[test]
fn build_cc_test() {
    let parser = example_parser();
    let expected_cc = paretheses_cc(&parser.grammar);

    assert_eq!(parser.cc.len(), expected_cc.len(), "should have the same length");

    for st in &expected_cc {
        assert!(parser.find_state(st).is_some());
    }

    assert!(parser.is_lr1());
}

#[test]
fn closure_is_idempotent() {
    // Re-running CLOSURE on a closed set returns the same set.
    let parser = example_parser();
    let item = Item::from_production(0, Symbol::eof());
    let once = parser.closure(&vec![item]);
    let twice = parser.closure(&once);
    assert_eq!(items_key(&once), items_key(&twice));
}

#[test]
fn build_cc_is_reproducible() {
    // Building the canonical collection twice yields identical states with
    // identical indices.
    let p1 = example_parser();
    let p2 = example_parser();
    assert_eq!(p1.cc.len(), p2.cc.len());
    for (a, b) in p1.cc.iter().zip(p2.cc.iter()) {
        assert_eq!(items_key(a), items_key(b));
    }
}

#[test]
fn parse_test() {
    let mut parser = example_parser();

    let cases = vec![
        "",
        "EOF",
        "( ) EOF",
        "( ( ) ) EOF",
        "( ) ( ) EOF",
        "( ) ( ) ( ) EOF",
        "( ( ) ) ( ) EOF",
        "( ( ) ) ( ) ( ) EOF",
        "( ( ( ) ) ) ( ) EOF",
        "( ( ( ) ) ) ( ( ) ) EOF",
    ];

    for case in cases {
        let tokens = lex(case);
        let res = parser.parse(&tokens);
        assert!(res.is_ok(), "case {:?}, res {:?}", case, res.err());
    }
}

fn name_of(t: &Tree, id: usize) -> String {
    t.nodes[id].data.symbol.as_str().to_string()
}

fn kids(t: &Tree, id: usize) -> Vec<usize> {
    t.nodes[id].children.clone()
}

#[test]
fn empty_stream_gives_empty_tree() {
    let mut parser = example_parser();
    let t = parser.parse(&lex("")).unwrap();
    assert!(t.root.is_none());
    assert!(t.nodes.is_empty());
}

#[test]
fn lone_eof_gives_empty_tree() {
    let mut parser = example_parser();
    let t = parser.parse(&lex("EOF")).unwrap();
    assert!(t.root.is_none());
    assert!(t.nodes.is_empty());
}

#[test]
fn missing_eof_is_unexpected_end() {
    let mut parser = example_parser();
    assert_eq!(parser.parse(&lex("( )")).err(), Some(LrError::UnexpectedEndOfInput));
    assert_eq!(parser.parse(&lex("(")).err(), Some(LrError::UnexpectedEndOfInput));
}

#[test]
fn tree_of_one_pair() {
    let mut parser = example_parser();
    let t = parser.parse(&lex("( ) EOF")).unwrap();
    let root = t.root.unwrap();
    assert_eq!(name_of(&t, root), "List");
    let c = kids(&t, root);
    assert_eq!(c.len(), 1);
    assert_eq!(name_of(&t, c[0]), "Pair");
    let pc = kids(&t, c[0]);
    assert_eq!(pc.len(), 2);
    assert_eq!(name_of(&t, pc[0]), "(");
    assert_eq!(name_of(&t, pc[1]), ")");
}

#[test]
fn tree_of_nested_pair() {
    let mut parser = example_parser();
    let t = parser.parse(&lex("( ( ) ) EOF")).unwrap();
    let root = t.root.unwrap();
    assert_eq!(name_of(&t, root), "List");
    let c = kids(&t, root);
    assert_eq!(c.len(), 1);
    assert_eq!(name_of(&t, c[0]), "Pair");
    let outer = kids(&t, c[0]);
    assert_eq!(outer.len(), 3);
    assert_eq!(name_of(&t, outer[0]), "(");
    assert_eq!(name_of(&t, outer[1]), "Pair");
    assert_eq!(name_of(&t, outer[2]), ")");
    let inner = kids(&t, outer[1]);
    assert_eq!(inner.len(), 2);
    assert_eq!(name_of(&t, inner[0]), "(");
    assert_eq!(name_of(&t, inner[1]), ")");
}

#[test]
fn tree_of_two_pairs() {
    let mut parser = example_parser();
    let t = parser.parse(&lex("( ) ( ) EOF")).unwrap();
    let root = t.root.unwrap();
    assert_eq!(name_of(&t, root), "List");
    let c = kids(&t, root);
    assert_eq!(c.len(), 2);
    assert_eq!(name_of(&t, c[0]), "List");
    assert_eq!(name_of(&t, c[1]), "Pair");
    let left = kids(&t, c[0]);
    assert_eq!(left.len(), 1);
    assert_eq!(name_of(&t, left[0]), "Pair");
    let p1 = kids(&t, left[0]);
    assert_eq!(p1.len(), 2);
    assert_eq!(name_of(&t, p1[0]), "(");
    assert_eq!(name_of(&t, p1[1]), ")");
    let p2 = kids(&t, c[1]);
    assert_eq!(p2.len(), 2);
    assert_eq!(name_of(&t, p2[0]), "(");
    assert_eq!(name_of(&t, p2[1]), ")");
}

#[test]
fn tree_of_two_nested_pairs() {
    let mut parser = example_parser();
    let t = parser.parse(&lex("( ( ( ) ) ) ( ( ) ) EOF")).unwrap();
    let root = t.root.unwrap();
    assert_eq!(name_of(&t, root), "List");
    let c = kids(&t, root);
    assert_eq!(c.len(), 2);
    assert_eq!(name_of(&t, c[0]), "List");
    assert_eq!(name_of(&t, c[1]), "Pair");

    // Left branch: the triply nested pair.
    let left = kids(&t, c[0]);
    assert_eq!(left.len(), 1);
    let d1 = kids(&t, left[0]);
    assert_eq!(d1.len(), 3);
    assert_eq!(name_of(&t, d1[1]), "Pair");
    let d2 = kids(&t, d1[1]);
    assert_eq!(d2.len(), 3);
    assert_eq!(name_of(&t, d2[1]), "Pair");
    let d3 = kids(&t, d2[1]);
    assert_eq!(d3.len(), 2);

    // Right branch: the doubly nested pair.
    let r1 = kids(&t, c[1]);
    assert_eq!(r1.len(), 3);
    assert_eq!(name_of(&t, r1[1]), "Pair");
    let r2 = kids(&t, r1[1]);
    assert_eq!(r2.len(), 2);
}

#[test]
fn unexpected_eof_token() {
    let mut parser = example_parser();
    assert_eq!(parser.parse(&lex("( EOF")).err(), Some(LrError::UnexpectedToken));
}

#[test]
fn unexpected_close_token() {
    let mut parser = example_parser();
    assert_eq!(parser.parse(&lex(") EOF")).err(), Some(LrError::UnexpectedToken));
}

#[test]
fn unknown_token_is_rejected() {
    let mut parser = example_parser();
    assert_eq!(parser.parse(&lex("x EOF")).err(), Some(LrError::UnexpectedToken));
}

#[test]
fn ambiguous_grammar_is_detected() {
    // A reduce-reduce conflict: two productions derive the same terminal.
    let g = Grammar::new_simple(
        "S",
        vec!["S", "A", "B"],
        vec![
            ("S", vec!["A"]),
            ("S", vec!["B"]),
            ("A", vec!["x"]),
            ("B", vec!["x"]),
        ],
    )
    .unwrap();
    let mut parser = Parser::new(g);
    assert!(!parser.is_lr1());
    assert_eq!(parser.parse(&lex("x EOF")).err(), Some(LrError::AmbiguousGrammar));
}

#[test]
fn stack_elements() {
    let el = lr1::StackEl::Symbol((Symbol::new_t("("), Some(3)));
    assert!(el.is_symbol());
    let (s, n) = el.unwrap_symbol();
    assert_eq!(s.as_str(), "(");
    assert_eq!(n, Some(3));
    let st = lr1::StackEl::State(2);
    assert!(!st.is_symbol());
}

#[test]
fn tree_arena_links() {
    let mut t = Tree::new();
    let a = t.new_node(lr1::NodeData::new(Symbol::new_nt("List")));
    let b = t.new_node(lr1::NodeData::new(Symbol::new_t("(")));
    t.append(a, b);
    t.set_root(a);
    assert_eq!(t.len(), 2);
    assert_eq!(t.root, Some(a));
    assert_eq!(t.nodes[a].children, vec![b]);
    assert_eq!(t.nodes[b].parent, Some(a));
    assert_eq!(t.nodes[b].id, b);
}

#[test]
fn error_descriptions() {
    assert_eq!(LrError::InvalidGrammar.describe(), "invalid grammar");
    assert_eq!(LrError::UnexpectedToken.describe(), "unexpected token");
}

#[test]
fn token_interfaces() {
    let t = ("(".to_string(), "(".to_string());
    assert_eq!(Token::kind(&t), "(");
    assert_eq!(Token::lexeme(&t), "(");
    assert_eq!(TokenLike::kind(&t), "(");
    assert_eq!(TokenLike::lexeme(&t), "(");
}

#[test]
fn tables_test() {
    let parser = example_parser();

    let cc = parser.print_cc();
    assert!(cc.starts_with("CC\n======\n"));
    assert_eq!(cc.lines().count(), 2 + 12);

    let tables = parser.print_tables();
    assert!(tables.starts_with("ACTION\n======\n"));
    assert!(tables.contains("\nGOTO\n======\n"));

    let pretty = parser.pretty_print_tables();
    assert!(pretty.starts_with("ACTION\n======\n"));
    assert!(pretty.contains("\nGOTO\n====\n"));
    assert!(pretty.contains("Accept"));
    assert!(pretty.contains("Shift("));
    assert!(pretty.contains("Reduce("));
}

#[test]
fn dump_formats() {
    let parser = example_parser();
    let g = &parser.grammar;

    let it = Item::from_str("Pair", vec!["(", "Pair", ")"], 1, "EOF", g);
    assert_eq!(it.describe(g), "[Pair -> ( . Pair ), EOF]");

    let complete = Item::from_str("Pair", vec!["(", ")"], 2, "(", g);
    assert_eq!(complete.describe(g), "[Pair -> ( ) ., (]");

    assert_eq!(g.productions[0].describe(), "FAKE_GOAL -> List");

    assert_eq!(parser.action_to_string(&Action::Accept), "Accept");
    assert_eq!(parser.action_to_string(&Action::Shift(7)), "Shift(7)");
    assert_eq!(parser.action_to_string(&Action::Reduce(2)), "Reduce(List -> Pair)");

    let cell = vec![Action::Accept, Action::Shift(3)];
    assert_eq!(parser.set_of_actions_to_string(&cell), "Accept, Shift(3)");
}

#[test]
fn tree_print_format() {
    let mut parser = example_parser();
    let t = parser.parse(&lex("( ) EOF")).unwrap();
    let dump = t.print();
    let lines: Vec<&str> = dump.lines().collect();
    assert_eq!(lines[0], "|-- List");
    assert_eq!(lines[1], "    |-- Pair");
    assert_eq!(lines[2], "        |-- (");
    assert_eq!(lines[3], "        |-- )");
    assert_eq!(lines.len(), 4);
}

#[test]
fn stack_dump_after_error() {
    let mut parser = example_parser();
    let _ = parser.parse(&lex("( EOF"));
    // The residual stack still shows the sentinel and state 0 at its bottom.
    let dump = parser.stack_to_string();
    assert!(dump.starts_with("EOF, 0"));
}
