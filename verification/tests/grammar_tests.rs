use pgen::pgen_grammar;
use pgen::Grammar;
use pgen::GrammarError;
use pgen::GrammarHelper;
use pgen::LR0Item;
use pgen::OrdHashMap;
use pgen::Production;
use pgen::Symbol;

fn name_id(h: &GrammarHelper, name: &str) -> usize {
    let mut i = 0;
    while i < h.names.len() {
        if h.names[i] == name {
            return i;
        }
        i += 1;
    }
    panic!("unknown name");
}

fn grammar(starts: &[&str], terms: &[(&str, &str)], prods: &[(&str, &[&[&str]])]) -> Grammar {
    let mut terminals: OrdHashMap<String, String> = OrdHashMap::new();
    for (n, p) in terms {
        terminals.insert(n.to_string(), p.to_string());
    }
    let mut productions: OrdHashMap<String, Vec<Production>> = OrdHashMap::new();
    for (n, alts) in prods {
        let mut v = Vec::new();
        for alt in alts.iter() {
            v.push(Production(alt.iter().map(|s| s.to_string()).collect()));
        }
        productions.insert(n.to_string(), v);
    }
    Grammar {
        start_symbols: starts.iter().map(|s| s.to_string()).collect(),
        terminals,
        productions,
    }
}

#[test]
fn test_arith_1() {
    let grammar = pgen_grammar();
    let mut helper = grammar.create_grammar_helper().unwrap();

    // First sets
    helper.compute_first_sets();
    let e = name_id(&helper, "E");
    let b = name_id(&helper, "B");
    let add = name_id(&helper, "Add");
    let mul = name_id(&helper, "Mul");
    let n0 = name_id(&helper, "N0");
    let n1 = name_id(&helper, "N1");
    let u = helper.names.len() + 2;
    for x in 0..u {
        let expected = x == n0 || x == n1;
        assert!(
            helper.first_sets[e][x] == expected,
            "Expected: {:?}, Got: {:?}",
            expected,
            helper.first_sets[e][x]
        );
        assert!(
            helper.first_sets[b][x] == expected,
            "Expected: {:?}, Got: {:?}",
            expected,
            helper.first_sets[b][x]
        );
    }

    // Follow sets
    helper.compute_follow_sets();
    let eof = helper.names.len() + 1;
    for x in 0..u {
        let expected = x == add || x == mul || x == eof;
        assert!(
            helper.follow_sets[e][x] == expected,
            "Expected: {:?}, Got: {:?}",
            expected,
            helper.follow_sets[e][x]
        );
        assert!(
            helper.follow_sets[b][x] == expected,
            "Expected: {:?}, Got: {:?}",
            expected,
            helper.follow_sets[b][x]
        );
    }
}

#[test]
fn test_name_conflict() {
    let g = grammar(&["X"], &[("X", "x")], &[("X", &[&["X"]])]);
    let es = g.build().unwrap_err();
    assert_eq!(es.len(), 1);
    assert_eq!(es[0], GrammarError::NameConflict("X".to_string()));
}

#[test]
fn test_starting_terminal() {
    let g = grammar(&["T"], &[("T", "t")], &[("S", &[&["T"]])]);
    let es = g.build().unwrap_err();
    assert_eq!(es.len(), 1);
    assert_eq!(es[0], GrammarError::StartingTerminal("T".to_string()));
}

#[test]
fn test_unknown_symbol() {
    let g = grammar(&["E"], &[("A", "a")], &[("E", &[&["Zed"]])]);
    let es = g.build().unwrap_err();
    assert_eq!(es.len(), 1);
    assert_eq!(es[0], GrammarError::InvalidSymbol("Zed".to_string()));
}

#[test]
fn test_epsilon_grammar_first_follow() {
    // Recursive-descent-friendly arithmetic with epsilon alternatives.
    let g = grammar(
        &["E"],
        &[("Add", "\\+"), ("Mul", "\\*"), ("LP", "\\("), ("RP", "\\)"), ("N", "\\d+")],
        &[
            ("E", &[&["T", "E'"]]),
            ("E'", &[&["Add", "T", "E'"], &["\u{025b}"]]),
            ("T", &[&["F", "T'"]]),
            ("T'", &[&["Mul", "F", "T'"], &["\u{025b}"]]),
            ("F", &[&["LP", "E", "RP"], &["N"]]),
        ],
    );
    let mut helper = g.create_grammar_helper().unwrap();
    helper.compute_first_sets();
    helper.compute_follow_sets();
    let e2 = name_id(&helper, "E'");
    let f = name_id(&helper, "F");
    let add = name_id(&helper, "Add");
    let mul = name_id(&helper, "Mul");
    let rp = name_id(&helper, "RP");
    let eps = helper.names.len();
    let eof = helper.names.len() + 1;
    // FIRST(E') = {Add, epsilon} exactly
    for x in 0..helper.names.len() + 2 {
        assert_eq!(helper.first_sets[e2][x], x == add || x == eps);
    }
    // FOLLOW(F) contains Add, Mul, RP and end-of-input
    assert!(helper.follow_sets[f][add]);
    assert!(helper.follow_sets[f][mul]);
    assert!(helper.follow_sets[f][rp]);
    assert!(helper.follow_sets[f][eof]);
    // and the whole grammar builds without conflicts
    let g2 = grammar(
        &["E"],
        &[("Add", "\\+"), ("Mul", "\\*"), ("LP", "\\("), ("RP", "\\)"), ("N", "\\d+")],
        &[
            ("E", &[&["T", "E'"]]),
            ("E'", &[&["Add", "T", "E'"], &["\u{025b}"]]),
            ("T", &[&["F", "T'"]]),
            ("T'", &[&["Mul", "F", "T'"], &["\u{025b}"]]),
            ("F", &[&["LP", "E", "RP"], &["N"]]),
        ],
    );
    assert!(g2.build().is_ok());
}

#[test]
fn test_ambiguous_grammar_conflicts() {
    // S -> S S | a is ambiguous: a shift/reduce conflict must be reported.
    let g = grammar(&["S"], &[("a", "a")], &[("S", &[&["S", "S"], &["a"]])]);
    let es = g.build().unwrap_err();
    assert!(!es.is_empty());
    assert!(es
        .iter()
        .any(|e| matches!(e, GrammarError::ShiftReduceConflict { .. })));
}

#[test]
fn test_dangling_else_conflicts() {
    // The classic dangling-else shape fails with a shift/reduce conflict.
    let g = grammar(
        &["S"],
        &[("i", "if"), ("e", "else"), ("a", "a")],
        &[("S", &[&["i", "S", "e", "S"], &["i", "S"], &["a"]])],
    );
    let es = g.build().unwrap_err();
    assert!(!es.is_empty());
    assert!(es
        .iter()
        .any(|e| matches!(e, GrammarError::ShiftReduceConflict { .. })));
}

#[test]
fn test_reduce_reduce_conflict() {
    // Two nonterminals with the same single-terminal production reduce on
    // the same lookahead: a reduce/reduce conflict.
    let g = grammar(
        &["S"],
        &[("a", "a")],
        &[("S", &[&["A"], &["B"]]), ("A", &[&["a"]]), ("B", &[&["a"]])],
    );
    let es = g.build().unwrap_err();
    assert!(!es.is_empty());
    assert!(es
        .iter()
        .any(|e| matches!(e, GrammarError::ReduceReduceConflict { .. })));
}

#[test]
fn test_symbol_names_and_item_accessors() {
    let grammar = pgen_grammar();
    let helper = grammar.create_grammar_helper().unwrap();
    let add = name_id(&helper, "Add");
    let e = name_id(&helper, "E");
    assert_eq!(Symbol::T(add).name(&helper.names), "Add");
    assert_eq!(Symbol::NT(e).name(&helper.names), "E");
    assert_eq!(Symbol::Epsilon.name(&helper.names), "\u{025b}");
    assert_eq!(Symbol::EOF.name(&helper.names), "$");
    assert!(Symbol::NT(e).is_nonterminal());
    assert!(!Symbol::T(add).is_nonterminal());

    let item = LR0Item {
        lhs: e,
        symbols: vec![Symbol::NT(e), Symbol::T(add)],
        dot: 1,
        is_start: false,
        production_number: Some(1),
    };
    assert_eq!(item.symbol_after_dot(), Some(Symbol::T(add)));
    assert_eq!(item.symbol_before_dot(), Some(Symbol::NT(e)));
    assert_eq!(item.name_after_dot(&helper.names), Some("Add".to_string()));
    assert!(!item.dot_at_end());
    let done = LR0Item {
        lhs: e,
        symbols: vec![Symbol::NT(e), Symbol::T(add)],
        dot: 2,
        is_start: false,
        production_number: Some(1),
    };
    assert!(done.dot_at_end());
    assert_eq!(done.symbol_after_dot(), None);
}

#[test]
fn test_production_symbols_resolution() {
    let grammar = pgen_grammar();
    let helper = grammar.create_grammar_helper().unwrap();
    let add = name_id(&helper, "Add");
    let e = name_id(&helper, "E");
    let p = Production(vec![
        "E".to_string(),
        "\u{025b}".to_string(),
        "Add".to_string(),
    ]);
    let syms = p.symbols(&helper.names, helper.n_terminals).unwrap();
    assert_eq!(syms, vec![Symbol::NT(e), Symbol::Epsilon, Symbol::T(add)]);
    let bad = Production(vec!["Zed".to_string()]);
    assert!(matches!(
        bad.symbols(&helper.names, helper.n_terminals),
        Err(GrammarError::InvalidSymbol(_))
    ));
}
