use vstd::prelude::*;

use crate::grammar::Grammar;
use crate::grammar::Production;
use crate::ordmap::OrdHashMap;

verus! {

/// The sample grammar this generator is exercised on: left-recursive
/// arithmetic over the binary digits, with addition and multiplication.
pub fn pgen_grammar() -> (r: Grammar)
    ensures
        r.wf(),
        r.start_names() == seq!["E"@],
        r.t_names() == seq!["Add"@, "Mul"@, "N0"@, "N1"@],
        r.nt_names() == seq!["E"@, "B"@],
{
    proof {
        reveal_strlit("Add");
        reveal_strlit("Mul");
        reveal_strlit("N0");
        reveal_strlit("N1");
        reveal_strlit("E");
        reveal_strlit("B");
        reveal_strlit("$");
        reveal_strlit("\u{025b}");
        assert("Add"@.len() == 3 && "Add"@[0] == 'A');
        assert("Mul"@.len() == 3 && "Mul"@[0] == 'M');
        assert("N0"@.len() == 2 && "N0"@[0] == 'N' && "N0"@[1] == '0');
        assert("N1"@.len() == 2 && "N1"@[0] == 'N' && "N1"@[1] == '1');
        assert("E"@.len() == 1 && "E"@[0] == 'E');
        assert("B"@.len() == 1 && "B"@[0] == 'B');
        assert(crate::grammar::eps_glyph().len() == 1 && crate::grammar::eps_glyph()[0]
            == '\u{025b}');
        assert(crate::grammar::dollar_name().len() == 1 && crate::grammar::dollar_name()[0]
            == '$');
    }
    let mut terminals: OrdHashMap<String, String> = OrdHashMap::new();
    let _r1 = terminals.insert("Add".to_owned(), "\\+".to_owned());
    let _r2 = terminals.insert("Mul".to_owned(), "\\*".to_owned());
    let _r3 = terminals.insert("N0".to_owned(), "0".to_owned());
    let _r4 = terminals.insert("N1".to_owned(), "1".to_owned());
    proof {
        assert(terminals.wf());
        assert(terminals@.len() == 4);
        assert(terminals@[0].0@ == "Add"@ && terminals@[1].0@ == "Mul"@ && terminals@[2].0@
            == "N0"@ && terminals@[3].0@ == "N1"@);
    }

    let mut alts_e: Vec<Production> = Vec::new();
    let mut p1: Vec<String> = Vec::new();
    p1.push("E".to_owned());
    p1.push("Mul".to_owned());
    p1.push("B".to_owned());
    alts_e.push(Production::new(p1));
    let mut p2: Vec<String> = Vec::new();
    p2.push("E".to_owned());
    p2.push("Add".to_owned());
    p2.push("B".to_owned());
    alts_e.push(Production::new(p2));
    let mut p3: Vec<String> = Vec::new();
    p3.push("B".to_owned());
    alts_e.push(Production::new(p3));

    let mut alts_b: Vec<Production> = Vec::new();
    let mut p4: Vec<String> = Vec::new();
    p4.push("N0".to_owned());
    alts_b.push(Production::new(p4));
    let mut p5: Vec<String> = Vec::new();
    p5.push("N1".to_owned());
    alts_b.push(Production::new(p5));

    let mut productions: OrdHashMap<String, Vec<Production>> = OrdHashMap::new();
    let _r5 = productions.insert("E".to_owned(), alts_e);
    let _r6 = productions.insert("B".to_owned(), alts_b);
    proof {
        assert(productions.wf());
        assert(productions@.len() == 2);
        assert(productions@[0].0@ == "E"@ && productions@[1].0@ == "B"@);
    }

    let mut start_symbols: Vec<String> = Vec::new();
    start_symbols.push("E".to_owned());

    let g = Grammar { start_symbols, terminals, productions };
    proof {
        assert(g.t_names() =~= seq!["Add"@, "Mul"@, "N0"@, "N1"@]);
        assert(g.nt_names() =~= seq!["E"@, "B"@]);
        assert(g.start_names() =~= seq!["E"@]);
        assert(g.wf()) by {
            assert(g.t_names().len() + g.nt_names().len() + 2 <= usize::MAX);
            assert(forall|k: int| 0 <= k < g.nt_names().len() ==> g.alts(k).len() >= 1);
            assert forall|k: int, a: int|
                0 <= k < g.nt_names().len() && 0 <= a < g.alts(k).len() implies g.alts(
                k,
            )[a].0@.len() >= 1 by {}
            assert forall|i: int| 0 <= i < g.t_names().len() implies crate::grammar::legal_name(
                g.t_names()[i],
            ) by {}
            assert forall|k: int| 0 <= k < g.nt_names().len() implies crate::grammar::legal_name(
                g.nt_names()[k],
            ) by {}
            assert forall|s: int|
                0 <= s < g.start_names().len() implies crate::grammar::legal_name(
                g.start_names()[s],
            ) by {}
        }
    }
    g
}

} // verus!
