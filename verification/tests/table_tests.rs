use pgen::pgen_grammar;
use pgen::Action;
use pgen::Grammar;
use pgen::OrdHashMap;
use pgen::Production;
use pgen::Symbol;

fn grammar(starts: &[&str], terms: &[(&str, &str)], prods: &[(&str, &[&[&str]])]) -> Grammar {
    let mut terminals: OrdHashMap<String, String> = OrdHashMap::new();
    for (n, p) in terms {
        terminals.insert(n.to_string(), p.to_string());
    }
    let mut productions: OrdHashMap<String, Vec<Production>> = OrdHashMap::new();
    for (n, alts) in prods {
        let mut v = Vec::new();
        for alt in alts.iter() {
            v.push(Production(alt.iter().map(|s| s.to_string()).collect()));
        }
        productions.insert(n.to_string(), v);
    }
    Grammar {
        start_symbols: starts.iter().map(|s| s.to_string()).collect(),
        terminals,
        productions,
    }
}

#[test]
fn test_arith_table() {
    // start E; E -> E Mul B | E Add B | B ; B -> N0 | N1.
    let table = pgen_grammar().build().unwrap();
    // Terminal ids follow declaration order, nonterminals after them.
    assert_eq!(table.n_terminals, 4);
    assert_eq!(table.terminal_names, vec!["Add", "Mul", "N0", "N1"]);
    assert_eq!(table.nonterminal_names, vec!["E", "B"]);
    let n0 = Symbol::T(2);
    // The initial state's successor on N0 reduces to B -> N0 (production 3:
    // E's three alternatives take ids 0..2, B's take 3 and 4).
    let j = match table.action(0, n0) {
        Some(Action::Shift(j)) => j,
        other => panic!("expected a shift on N0 from state 0, got {:?}", other),
    };
    assert_eq!(table.action(j, Symbol::T(0)), Some(Action::Reduce(3)));
    assert_eq!(table.action(j, Symbol::T(1)), Some(Action::Reduce(3)));
    assert_eq!(table.action(j, Symbol::EOF), Some(Action::Reduce(3)));
    // Production metadata: E -> E Mul B has left-hand side E (id 4), length 3.
    assert_eq!(table.production(0), Some((4, 3)));
    assert_eq!(table.production(3), Some((5, 1)));
    assert_eq!(table.production(5), None);
    // Parsing starts in state 0 for the declared start, nowhere otherwise.
    assert_eq!(table.start_state(&"E".to_string()), Some(0));
    assert_eq!(table.start_state(&"B".to_string()), None);
}

#[test]
fn test_accept_cell() {
    // After taking the goto on the start nonterminal from the initial
    // state, end-of-input accepts.
    let table = pgen_grammar().build().unwrap();
    let e = Symbol::NT(4);
    let j = table.goto(0, e).expect("goto on the start nonterminal");
    assert_eq!(table.action(j, Symbol::EOF), Some(Action::Accept));
}

#[test]
fn test_epsilon_only_production_two_states() {
    // A single start symbol with a single epsilon-only production builds a
    // two-state table: the initial closure and the accept state.
    let g = grammar(&["S"], &[("a", "a")], &[("S", &[&["\u{025b}"]])]);
    let table = g.build().unwrap();
    assert_eq!(table.num_states(), 2);
    let s = Symbol::NT(1);
    let j = table.goto(0, s).expect("goto on the start nonterminal");
    assert_eq!(table.action(j, Symbol::EOF), Some(Action::Accept));
}

#[test]
fn test_left_recursion_builds() {
    // A start nonterminal on both sides of left recursion builds and does
    // not loop.
    let g = grammar(&["E"], &[("a", "a")], &[("E", &[&["E", "a"], &["a"]])]);
    let table = g.build().unwrap();
    assert!(table.num_states() >= 4);
}

#[test]
fn test_unreachable_nonterminal_builds() {
    // Unreachable nonterminals do not stop the build, and their productions
    // produce no states: only the initial closure and the two reachable
    // successors exist.
    let g = grammar(
        &["E"],
        &[("a", "a"), ("b", "b")],
        &[("E", &[&["a"]]), ("U", &[&["b"]])],
    );
    let table = g.build().unwrap();
    assert_eq!(table.num_states(), 3);
}

#[test]
fn test_multi_start_shares_initial_state() {
    // Several start symbols seed one initial state; both start in state 0.
    let g = grammar(
        &["E", "B"],
        &[("a", "a"), ("b", "b")],
        &[("E", &[&["a"]]), ("B", &[&["b"]])],
    );
    let table = g.build().unwrap();
    assert_eq!(table.start_state(&"E".to_string()), Some(0));
    assert_eq!(table.start_state(&"B".to_string()), Some(0));
    assert_eq!(table.start_state(&"a".to_string()), None);
}
