use vstd::prelude::*;

use crate::items::ItemSet;
use crate::ordmap::OrdHashMap;

verus! {

/// The glyph that stands for the empty string in a production's right-hand
/// side.
pub open spec fn eps_glyph() -> Seq<char> {
    seq!['\u{025b}']
}

/// The display name of the end-of-input sentinel.
pub open spec fn dollar_name() -> Seq<char> {
    seq!['$']
}

/// A name is fit to declare a symbol: non-empty and neither sentinel's
/// display form.
pub open spec fn legal_name(n: Seq<char>) -> bool {
    n.len() > 0 && n != eps_glyph() && n != dollar_name()
}

/// A grammar symbol. Terminals and nonterminals carry their id in the build
/// context's name table (terminals first, then nonterminals); the two
/// sentinels carry no payload.
#[derive(Clone, Copy, PartialEq, Eq, Structural, Debug)]
pub enum Symbol {
    T(usize),
    NT(usize),
    Epsilon,
    EOF,
}

impl Symbol {
    /// The display name: the table entry for terminals and nonterminals, a
    /// chosen glyph for epsilon, `$` for end-of-input.
    pub open spec fn name_spec(self, names: Seq<String>) -> Seq<char> {
        match self {
            Symbol::T(i) => names[i as int]@,
            Symbol::NT(i) => names[i as int]@,
            Symbol::Epsilon => eps_glyph(),
            Symbol::EOF => dollar_name(),
        }
    }

    pub open spec fn is_nonterminal_spec(self) -> bool {
        self is NT
    }

    /// Looks the display name up in the build context's name table.
    pub fn name(&self, names: &Vec<String>) -> (r: String)
        requires
            match *self {
                Symbol::T(i) => i < names@.len(),
                Symbol::NT(i) => i < names@.len(),
                _ => true,
            },
        ensures
            r@ == self.name_spec(names@),
    {
        match *self {
            Symbol::T(i) => names[i].clone(),
            Symbol::NT(i) => names[i].clone(),
            Symbol::Epsilon => {
                let s: String = "\u{025b}".to_owned();
                proof {
                    reveal_strlit("\u{025b}");
                    assert(s@ =~= eps_glyph());
                }
                s
            },
            Symbol::EOF => {
                let s: String = "$".to_owned();
                proof {
                    reveal_strlit("$");
                    assert(s@ =~= dollar_name());
                }
                s
            },
        }
    }

    pub fn is_nonterminal(&self) -> (r: bool)
        ensures
            r == self.is_nonterminal_spec(),
    {
        match *self {
            Symbol::NT(_) => true,
            _ => false,
        }
    }
}

/// One alternative expansion of a nonterminal: the ordered list of symbol
/// names it expands to. Empty right-hand sides are written as the single
/// epsilon glyph; a production of length zero is not a legal input.
#[derive(Debug)]
pub struct Production(pub Vec<String>);

impl Production {
    pub fn new(names: Vec<String>) -> (r: Production)
        ensures
            r.0@ == names@,
    {
        Production(names)
    }
}

/// A structured build failure. The first three arise during validation, the
/// two conflict forms during table synthesis.
#[derive(Debug, PartialEq)]
pub enum GrammarError {
    /// A nonterminal was declared under a name a terminal already holds.
    NameConflict(String),
    /// A production names a symbol that is declared nowhere.
    InvalidSymbol(String),
    /// A start symbol does not resolve to a nonterminal.
    StartingTerminal(String),
    /// One table cell demands both a shift and a reduce. An accept colliding
    /// with a reduce is reported in this form with the state itself as the
    /// shift target.
    ShiftReduceConflict { state: usize, symbol: String, shift_state: usize, reduce_production: usize },
    /// One table cell demands two different reduces.
    ReduceReduceConflict { state: usize, symbol: String, production_a: usize, production_b: usize },
}

/// The user-supplied grammar: start symbol names, terminal declarations
/// (name, lexer pattern) in declaration order, and for each nonterminal its
/// ordered list of alternatives.
pub struct Grammar {
    pub start_symbols: Vec<String>,
    pub terminals: OrdHashMap<String, String>,
    pub productions: OrdHashMap<String, Vec<Production>>,
}

/// The views of a table of names.
pub open spec fn name_views(ns: Seq<String>) -> Seq<Seq<char>> {
    ns.map(|i: int, s: String| s@)
}

/// The position of a name in a table; meaningful when the name occurs.
pub open spec fn name_pos(nv: Seq<Seq<char>>, n: Seq<char>) -> int {
    choose|i: int| 0 <= i < nv.len() && nv[i] == n
}

/// A right-hand-side name resolves: it is the epsilon glyph or declared.
pub open spec fn resolvable_in(nv: Seq<Seq<char>>, n: Seq<char>) -> bool {
    n == eps_glyph() || nv.contains(n)
}

/// What a right-hand-side name resolves to, against a name table whose first
/// `n_t` entries are the terminals.
pub open spec fn resolve_in(nv: Seq<Seq<char>>, n_t: int, n: Seq<char>) -> Symbol {
    if n == eps_glyph() {
        Symbol::Epsilon
    } else {
        let i = name_pos(nv, n);
        if i < n_t {
            Symbol::T(i as usize)
        } else {
            Symbol::NT(i as usize)
        }
    }
}

impl Grammar {
    pub open spec fn t_names(&self) -> Seq<Seq<char>> {
        self.terminals@.map(|i: int, e: (String, String)| e.0@)
    }

    pub open spec fn t_patterns(&self) -> Seq<Seq<char>> {
        self.terminals@.map(|i: int, e: (String, String)| e.1@)
    }

    pub open spec fn nt_names(&self) -> Seq<Seq<char>> {
        self.productions@.map(|i: int, e: (String, Vec<Production>)| e.0@)
    }

    pub open spec fn start_names(&self) -> Seq<Seq<char>> {
        self.start_symbols@.map(|i: int, s: String| s@)
    }

    /// The alternatives declared for the `k`-th nonterminal.
    pub open spec fn alts(&self, k: int) -> Seq<Production> {
        self.productions@[k].1@
    }

    /// All declared names, terminals first.
    pub open spec fn all_names(&self) -> Seq<Seq<char>> {
        self.t_names() + self.nt_names()
    }

    /// The input obligations of the grammar-construction interface: at least
    /// one start name and one terminal, no duplicate start names, unique map
    /// keys, non-empty production lists, non-empty productions, and legal
    /// declared names.
    pub open spec fn wf(&self) -> bool {
        &&& self.t_names().len() + self.nt_names().len() + 2 <= usize::MAX
        &&& self.start_names().len() >= 1
        &&& forall|i: int, j: int|
            0 <= i < j < self.start_names().len() ==> self.start_names()[i]
                != self.start_names()[j]
        &&& self.terminals.wf()
        &&& self.t_names().len() >= 1
        &&& self.productions.wf()
        &&& forall|k: int| 0 <= k < self.nt_names().len() ==> self.alts(k).len() >= 1
        &&& forall|k: int, a: int|
            0 <= k < self.nt_names().len() && 0 <= a < self.alts(k).len() ==> self.alts(
                k,
            )[a].0@.len() >= 1
        &&& forall|i: int| 0 <= i < self.t_names().len() ==> legal_name(self.t_names()[i])
        &&& forall|k: int| 0 <= k < self.nt_names().len() ==> legal_name(self.nt_names()[k])
        &&& forall|s: int| 0 <= s < self.start_names().len() ==> legal_name(self.start_names()[s])
    }

    /// A nonterminal is declared under a name a terminal already holds.
    pub open spec fn has_conflict(&self) -> bool {
        exists|k: int| 0 <= k < self.nt_names().len() && self.t_names().contains(self.nt_names()[k])
    }

    /// Every right-hand-side name resolves.
    pub open spec fn all_resolve(&self) -> bool {
        forall|k: int, a: int, j: int|
            0 <= k < self.nt_names().len() && 0 <= a < self.alts(k).len() && 0 <= j < self.alts(
                k,
            )[a].0@.len() ==> resolvable_in(self.all_names(), self.alts(k)[a].0@[j]@)
    }

    /// Every start name is a declared nonterminal.
    pub open spec fn starts_ok(&self) -> bool {
        forall|s: int|
            0 <= s < self.start_names().len() ==> self.nt_names().contains(self.start_names()[s])
    }

    /// Validation succeeds exactly on these grammars.
    pub open spec fn spec_valid(&self) -> bool {
        !self.has_conflict() && self.all_resolve() && self.starts_ok()
    }
}

/// One resolved production: the producing nonterminal's symbol id and the
/// resolved right-hand side.
pub struct Prod {
    pub lhs: usize,
    pub rhs: Vec<Symbol>,
}

/// The validated build context: the interned name table (terminals first,
/// then nonterminals), the lexer patterns, the start nonterminals' ids, the
/// flat production table (index = production id), the per-nonterminal
/// production id ranges, and the working state the later phases fill in.
pub struct GrammarHelper {
    pub n_terminals: usize,
    pub names: Vec<String>,
    pub patterns: Vec<String>,
    pub start_ids: Vec<usize>,
    pub prods: Vec<Prod>,
    pub prod_lo: Vec<usize>,
    pub prod_hi: Vec<usize>,
    pub first_sets: Vec<Vec<bool>>,
    pub follow_sets: Vec<Vec<bool>>,
    pub canonical_collection: Vec<ItemSet>,
}

impl GrammarHelper {
    pub open spec fn n_names(&self) -> int {
        self.names@.len() as int
    }

    pub open spec fn n_nts(&self) -> int {
        self.n_names() - self.n_terminals
    }

    /// Symbol codes: ids as given, then epsilon, then end-of-input.
    pub open spec fn eps_code(&self) -> int {
        self.n_names()
    }

    pub open spec fn eof_code(&self) -> int {
        self.n_names() + 1
    }

    pub open spec fn n_codes(&self) -> int {
        self.n_names() + 2
    }

    pub open spec fn is_t_id(&self, i: int) -> bool {
        0 <= i < self.n_terminals
    }

    pub open spec fn is_nt_id(&self, i: int) -> bool {
        self.n_terminals <= i < self.n_names()
    }

    /// The row/column code of a symbol in the FIRST and FOLLOW tables.
    pub open spec fn code_of(&self, s: Symbol) -> int {
        match s {
            Symbol::T(i) => i as int,
            Symbol::NT(i) => i as int,
            Symbol::Epsilon => self.eps_code(),
            Symbol::EOF => self.eof_code(),
        }
    }

    /// A symbol fit to appear in a resolved right-hand side.
    pub open spec fn wf_sym(&self, s: Symbol) -> bool {
        match s {
            Symbol::T(i) => self.is_t_id(i as int),
            Symbol::NT(i) => self.is_nt_id(i as int),
            Symbol::Epsilon => true,
            Symbol::EOF => false,
        }
    }

    pub open spec fn wf_prod(&self, p: Prod) -> bool {
        &&& self.is_nt_id(p.lhs as int)
        &&& p.rhs@.len() >= 1
        &&& forall|j: int| 0 <= j < p.rhs@.len() ==> self.wf_sym(p.rhs@[j])
    }

    /// The production ids belonging to nonterminal id `k` are
    /// `prod_lo[k] .. prod_hi[k]`.
    pub open spec fn prod_range_of(&self, k: int, p: int) -> bool {
        self.prod_lo@[k] <= p < self.prod_hi@[k]
    }

    /// Structural well-formedness of the context, established by validation
    /// and preserved by every later phase.
    pub open spec fn base_wf(&self) -> bool {
        &&& self.n_names() + 2 <= usize::MAX
        &&& self.n_terminals <= self.n_names()
        &&& self.patterns@.len() == self.n_terminals
        &&& forall|i: int, j: int|
            0 <= i < j < self.n_names() ==> self.names@[i]@ != self.names@[j]@
        &&& self.prod_lo@.len() == self.n_names()
        &&& self.prod_hi@.len() == self.n_names()
        &&& forall|k: int|
            self.is_nt_id(k) ==> self.prod_lo@[k] <= self.prod_hi@[k] <= self.prods@.len()
        &&& (self.n_nts() > 0 ==> self.prod_lo@[self.n_terminals as int] == 0 && self.prod_hi@[
            self.n_names() - 1] == self.prods@.len())
        &&& (self.n_nts() == 0 ==> self.prods@.len() == 0)
        &&& forall|k: int|
            self.n_terminals <= k < self.n_names() - 1 ==> self.prod_hi@[k] == self.prod_lo@[k + 1]
        &&& forall|k: int, p: int|
            self.is_nt_id(k) && self.prod_range_of(k, p) ==> self.prods@[p].lhs == k
        &&& forall|p: int| 0 <= p < self.prods@.len() ==> self.wf_prod(self.prods@[p])
        &&& self.start_ids@.len() >= 1
        &&& forall|s: int|
            0 <= s < self.start_ids@.len() ==> self.is_nt_id(self.start_ids@[s] as int)
        &&& forall|s1: int, s2: int|
            0 <= s1 < s2 < self.start_ids@.len() ==> self.start_ids@[s1] != self.start_ids@[s2]
    }

    /// The context is the faithful interning of the grammar `g`.
    pub open spec fn models(&self, g: Grammar) -> bool {
        &&& self.n_terminals == g.t_names().len()
        &&& self.n_names() == g.all_names().len()
        &&& forall|i: int|
            0 <= i < self.n_names() ==> self.names@[i]@ == g.all_names()[i]
        &&& forall|i: int|
            0 <= i < self.n_terminals ==> self.patterns@[i]@ == g.t_patterns()[i]
        &&& self.start_ids@.len() == g.start_names().len()
        &&& forall|s: int|
            0 <= s < self.start_ids@.len() ==> self.names@[self.start_ids@[s] as int]@
                == g.start_names()[s]
        &&& forall|k: int|
            0 <= k < g.nt_names().len() ==> self.prod_hi@[self.n_terminals + k] - self.prod_lo@[
                self.n_terminals + k] == g.alts(k).len()
        &&& forall|k: int, a: int|
            0 <= k < g.nt_names().len() && 0 <= a < g.alts(k).len() ==> self.prod_matches(g, k, a)
    }

    /// Production `a` of the `k`-th nonterminal was resolved name by name.
    pub open spec fn prod_matches(&self, g: Grammar, k: int, a: int) -> bool {
        let p = self.prods@[self.prod_lo@[self.n_terminals + k] + a];
        &&& p.rhs@.len() == g.alts(k)[a].0@.len()
        &&& forall|j: int|
            0 <= j < p.rhs@.len() ==> p.rhs@[j] == resolve_in(
                name_views(self.names@),
                self.n_terminals as int,
                g.alts(k)[a].0@[j]@,
            )
    }
}

impl Grammar {
    /// Validates the grammar and interns it into a build context: terminals
    /// then nonterminals get ids in declaration order, every production is
    /// resolved name by name, productions get globally sequential ids in
    /// declaration order, and every start name must denote a nonterminal.
    /// The three checks run in that order and the first offence wins.
    pub fn create_grammar_helper(&self) -> (r: Result<GrammarHelper, GrammarError>)
        requires
            self.wf(),
        ensures
            (r is Ok) <==> self.spec_valid(),
            match r {
                Ok(h) => h.base_wf() && h.models(*self) && h.first_sets@.len() == 0
                    && h.follow_sets@.len() == 0 && h.canonical_collection@.len() == 0,
                Err(e) => match e {
                    GrammarError::NameConflict(n) => self.t_names().contains(n@) && exists|k: int|
                        0 <= k < self.nt_names().len() && self.nt_names()[k] == n@,
                    GrammarError::InvalidSymbol(n) => !self.has_conflict() && !resolvable_in(
                        self.all_names(),
                        n@,
                    ) && exists|k: int, a: int, j: int|
                        0 <= k < self.nt_names().len() && 0 <= a < self.alts(k).len() && 0 <= j
                            < self.alts(k)[a].0@.len() && self.alts(k)[a].0@[j]@ == n@,
                    GrammarError::StartingTerminal(n) => !self.has_conflict() && self.all_resolve()
                        && !self.nt_names().contains(n@) && exists|s: int|
                        0 <= s < self.start_names().len() && self.start_names()[s] == n@,
                    _ => false,
                },
            },
    {
        let t_len = self.terminals.len();
        let mut names: Vec<String> = Vec::new();
        let mut patterns: Vec<String> = Vec::new();
        let mut i: usize = 0;
        while i < t_len
            invariant
                t_len == self.t_names().len(),
                i <= t_len,
                names@.len() == i,
                patterns@.len() == i,
                forall|q: int| 0 <= q < i ==> names@[q]@ == self.t_names()[q],
                forall|q: int| 0 <= q < i ==> patterns@[q]@ == self.t_patterns()[q],
            decreases t_len - i,
        {
            names.push(self.terminals.key_at(i).clone());
            patterns.push(self.terminals.value_at(i).clone());
            i = i + 1;
        }
        let n_t = t_len;

        let p_len = self.productions.len();
        let mut k: usize = 0;
        while k < p_len
            invariant
                self.wf(),
                t_len == self.t_names().len(),
                n_t == t_len,
                p_len == self.nt_names().len(),
                k <= p_len,
                names@.len() == n_t + k,
                patterns@.len() == n_t,
                forall|q: int| 0 <= q < n_t ==> names@[q]@ == self.t_names()[q],
                forall|q: int| 0 <= q < n_t ==> patterns@[q]@ == self.t_patterns()[q],
                forall|q: int| n_t <= q < n_t + k ==> names@[q]@ == self.nt_names()[q - n_t],
                forall|q: int, j: int|
                    #![trigger names@[j], names@[q]]
                    n_t <= q < n_t + k && 0 <= j < q ==> names@[j]@ != names@[q]@,
            decreases p_len - k,
        {
            let ntname = self.productions.key_at(k);
            match name_index(&names, ntname) {
                Some(idx) => {
                    proof {
                        assert(names@[idx as int]@ == self.nt_names()[k as int]);
                        if idx >= n_t {
                            assert(self.nt_names()[idx - n_t] == self.nt_names()[k as int]);
                            assert(self.productions@[idx - n_t].0@ == self.productions@[
                                k as int].0@);
                            assert(false);
                        }
                        assert(self.t_names()[idx as int] == self.nt_names()[k as int]);
                        assert(self.t_names().contains(self.nt_names()[k as int]));
                    }
                    return Err(GrammarError::NameConflict(ntname.clone()));
                },
                None => {
                    names.push(ntname.clone());
                },
            }
            k = k + 1;
        }
        let total = names.len();
        proof {
            assert(name_views(names@) =~= self.all_names());
            assert forall|q1: int, q2: int| 0 <= q1 < q2 < names@.len() implies names@[q1]@
                != names@[q2]@ by {
                if q2 < n_t {
                    assert(names@[q1]@ == self.t_names()[q1]);
                    assert(names@[q2]@ == self.t_names()[q2]);
                    assert(self.t_names()[q1] == self.terminals@[q1].0@);
                    assert(self.t_names()[q2] == self.terminals@[q2].0@);
                    assert(self.terminals@[q1].0@ != self.terminals@[q2].0@);
                } else {
                    assert(n_t <= q2 < n_t + p_len && 0 <= q1 < q2);
                    assert(names@[q1]@ != names@[q2]@);
                }
            }
            assert(!self.has_conflict()) by {
                if self.has_conflict() {
                    let k0 = choose|k0: int|
                        0 <= k0 < self.nt_names().len() && self.t_names().contains(
                            self.nt_names()[k0],
                        );
                    let j0 = choose|j0: int|
                        0 <= j0 < self.t_names().len() && self.t_names()[j0]
                            == self.nt_names()[k0];
                    assert(names@[j0]@ == names@[n_t + k0]@);
                }
            }
        }

        let mut prods: Vec<Prod> = Vec::new();
        let mut prod_lo: Vec<usize> = Vec::new();
        let mut prod_hi: Vec<usize> = Vec::new();
        let mut t: usize = 0;
        while t < n_t
            invariant
                t <= n_t,
                prod_lo@.len() == t,
                prod_hi@.len() == t,
                forall|q: int| 0 <= q < t ==> prod_lo@[q] == 0 && prod_hi@[q] == 0,
            decreases n_t - t,
        {
            prod_lo.push(0);
            prod_hi.push(0);
            t = t + 1;
        }

        let mut k: usize = 0;
        while k < p_len
            invariant
                self.wf(),
                n_t == self.t_names().len(),
                p_len == self.nt_names().len(),
                k <= p_len,
                total == n_t + p_len,
                names@.len() == n_t + p_len,
                name_views(names@) == self.all_names(),
                forall|q1: int, q2: int|
                    0 <= q1 < q2 < names@.len() ==> names@[q1]@ != names@[q2]@,
                !self.has_conflict(),
                prod_lo@.len() == n_t + k,
                prod_hi@.len() == n_t + k,
                forall|q: int| 0 <= q < n_t ==> prod_lo@[q] == 0 && prod_hi@[q] == 0,
                k == 0 ==> prods@.len() == 0,
                k > 0 ==> prod_lo@[n_t as int] == 0,
                k > 0 ==> prod_hi@[n_t + k - 1] == prods@.len(),
                forall|q: int| n_t <= q < n_t + k - 1 ==> prod_hi@[q] == prod_lo@[q + 1],
                forall|q: int|
                    #![trigger prod_lo@[q]]
                    n_t <= q < n_t + k ==> prod_lo@[q] <= prod_hi@[q] <= prods@.len(),
                forall|k2: int|
                    0 <= k2 < k ==> prod_hi@[n_t + k2] - prod_lo@[n_t + k2] == self.alts(
                        k2,
                    ).len(),
                forall|q: int, p: int|
                    #![trigger prod_lo@[q], prods@[p]]
                    n_t <= q < n_t + k && prod_lo@[q] <= p < prod_hi@[q] ==> prods@[p].lhs == q,
                forall|k2: int, a2: int|
                    #![trigger self.alts(k2)[a2]]
                    0 <= k2 < k && 0 <= a2 < self.alts(k2).len() ==> prod_entry_matches(
                        *self,
                        names@,
                        prods@,
                        prod_lo@[n_t + k2] + a2,
                        k2,
                        a2,
                        n_t as int,
                    ),
                forall|k2: int, a2: int, j: int|
                    #![trigger self.alts(k2)[a2].0@[j]]
                    0 <= k2 < k && 0 <= a2 < self.alts(k2).len() && 0 <= j < self.alts(
                        k2,
                    )[a2].0@.len() ==> resolvable_in(name_views(names@), self.alts(k2)[a2].0@[j]@),
                forall|p: int|
                    0 <= p < prods@.len() ==> prod_entry_wf(prods@[p], n_t as int, (n_t
                        + p_len) as int),
            decreases p_len - k,
        {
            let alts_v = self.productions.value_at(k);
            let lo_k = prods.len();
            prod_lo.push(lo_k);
            let a_len = alts_v.len();
            let mut a: usize = 0;
            while a < a_len
                invariant
                    self.wf(),
                    n_t == self.t_names().len(),
                    p_len == self.nt_names().len(),
                    k < p_len,
                    a <= a_len,
                    total == n_t + p_len,
                    names@.len() == n_t + p_len,
                    name_views(names@) == self.all_names(),
                    forall|q1: int, q2: int|
                        0 <= q1 < q2 < names@.len() ==> names@[q1]@ != names@[q2]@,
                    !self.has_conflict(),
                    alts_v@ == self.alts(k as int),
                    a_len == self.alts(k as int).len(),
                    lo_k <= prods@.len(),
                    prods@.len() == lo_k + a,
                    forall|k2: int, a2: int|
                        #![trigger self.alts(k2)[a2]]
                        0 <= k2 < k && 0 <= a2 < self.alts(k2).len() ==> prod_entry_matches(
                            *self,
                            names@,
                            prods@,
                            prod_lo@[n_t + k2] + a2,
                            k2,
                            a2,
                            n_t as int,
                        ),
                    forall|k2: int, a2: int, j: int|
                        #![trigger self.alts(k2)[a2].0@[j]]
                        0 <= k2 < k && 0 <= a2 < self.alts(k2).len() && 0 <= j < self.alts(
                            k2,
                        )[a2].0@.len() ==> resolvable_in(
                            name_views(names@),
                            self.alts(k2)[a2].0@[j]@,
                        ),
                    forall|q: int, p: int|
                        #![trigger prod_lo@[q], prods@[p]]
                        n_t <= q < n_t + k && prod_lo@[q] <= p < prod_hi@[q] ==> prods@[p].lhs
                            == q,
                    forall|a2: int|
                        #![trigger self.alts(k as int)[a2]]
                        0 <= a2 < a ==> prod_entry_matches(
                            *self,
                            names@,
                            prods@,
                            lo_k + a2,
                            k as int,
                            a2,
                            n_t as int,
                        ),
                    forall|a2: int, j: int|
                        #![trigger self.alts(k as int)[a2].0@[j]]
                        0 <= a2 < a && 0 <= j < self.alts(k as int)[a2].0@.len() ==> resolvable_in(
                            name_views(names@),
                            self.alts(k as int)[a2].0@[j]@,
                        ),
                    forall|p: int| lo_k <= p < prods@.len() ==> prods@[p].lhs == n_t + k,
                    forall|p: int|
                        0 <= p < prods@.len() ==> prod_entry_wf(prods@[p], n_t as int, (n_t
                            + p_len) as int),
                    prod_lo@.len() == n_t + k + 1,
                    prod_hi@.len() == n_t + k,
                    prod_lo@[n_t + k] == lo_k,
                    forall|q: int| 0 <= q < n_t ==> prod_lo@[q] == 0 && prod_hi@[q] == 0,
                    k == 0 ==> lo_k == 0,
                    k > 0 ==> prod_lo@[n_t as int] == 0,
                    k > 0 ==> prod_hi@[n_t + k - 1] == lo_k,
                    forall|q: int| n_t <= q < n_t + k - 1 ==> prod_hi@[q] == prod_lo@[q + 1],
                    forall|q: int|
                        #![trigger prod_lo@[q]]
                        n_t <= q < n_t + k ==> prod_lo@[q] <= prod_hi@[q] <= lo_k,
                    forall|k2: int|
                        0 <= k2 < k ==> prod_hi@[n_t + k2] - prod_lo@[n_t + k2] == self.alts(
                            k2,
                        ).len(),
                decreases a_len - a,
            {
                match alts_v[a].symbols(&names, n_t) {
                    Ok(rhs) => {
                        proof {
                            let nv = name_views(names@);
                            assert forall|j: int| 0 <= j < rhs@.len() implies sym_fits(
                                rhs@[j],
                                n_t as int,
                                (n_t + p_len) as int,
                            ) by {
                                let nm = self.alts(k as int)[a as int].0@[j]@;
                                assert(rhs@[j] == resolve_in(nv, n_t as int, nm));
                                if nm != eps_glyph() {
                                    assert(resolvable_in(nv, nm));
                                    lemma_name_pos(nv, nm);
                                }
                            }
                        }
                        prods.push(Prod { lhs: n_t + k, rhs });
                    },
                    Err(e) => {
                        proof {
                            let j0 = choose|j: int|
                                0 <= j < self.alts(k as int)[a as int].0@.len() && !resolvable_in(
                                    name_views(names@),
                                    self.alts(k as int)[a as int].0@[j]@,
                                );
                            assert(!self.all_resolve());
                        }
                        return Err(e);
                    },
                }
                a = a + 1;
            }
            prod_hi.push(prods.len());
            k = k + 1;
        }
        proof {
            assert(self.all_resolve());
        }

        let s_len = self.start_symbols.len();
        let mut start_ids: Vec<usize> = Vec::new();
        let mut s: usize = 0;
        while s < s_len
            invariant
                self.wf(),
                n_t == self.t_names().len(),
                p_len == self.nt_names().len(),
                s_len == self.start_names().len(),
                s <= s_len,
                names@.len() == n_t + p_len,
                name_views(names@) == self.all_names(),
                !self.has_conflict(),
                self.all_resolve(),
                forall|q1: int, q2: int|
                    0 <= q1 < q2 < names@.len() ==> names@[q1]@ != names@[q2]@,
                forall|q: int| 0 <= q < n_t ==> names@[q]@ == self.t_names()[q],
                forall|q: int| n_t <= q < n_t + p_len ==> names@[q]@ == self.nt_names()[q - n_t],
                start_ids@.len() == s,
                forall|q: int|
                    #![trigger start_ids@[q]]
                    0 <= q < s ==> n_t <= start_ids@[q] < n_t + p_len,
                forall|q: int|
                    #![trigger start_ids@[q]]
                    0 <= q < s ==> names@[start_ids@[q] as int]@ == self.start_names()[q],
                forall|q: int| 0 <= q < s ==> self.nt_names().contains(self.start_names()[q]),
            decreases s_len - s,
        {
            let sname = &self.start_symbols[s];
            match name_index(&names, sname) {
                Some(idx) => {
                    if idx >= n_t {
                        proof {
                            assert(names@[idx as int]@ == self.nt_names()[idx - n_t]);
                            assert(self.nt_names()[idx - n_t] == self.start_names()[s as int]);
                            assert(self.nt_names().contains(self.start_names()[s as int]));
                        }
                        start_ids.push(idx);
                        proof {
                            assert(start_ids@[s as int] == idx);
                            assert(names@[idx as int]@ == self.start_names()[s as int]);
                        }
                    } else {
                        proof {
                            assert(!self.nt_names().contains(sname@)) by {
                                if self.nt_names().contains(sname@) {
                                    let k0 = choose|k0: int|
                                        0 <= k0 < self.nt_names().len() && self.nt_names()[k0]
                                            == sname@;
                                    assert(names@[n_t + k0]@ == self.nt_names()[k0]);
                                    assert(names@[idx as int]@ == sname@);
                                }
                            }
                            assert(self.start_names()[s as int] == sname@);
                        }
                        return Err(GrammarError::StartingTerminal(sname.clone()));
                    }
                },
                None => {
                    proof {
                        assert(!self.nt_names().contains(sname@)) by {
                            if self.nt_names().contains(sname@) {
                                let k0 = choose|k0: int|
                                    0 <= k0 < self.nt_names().len() && self.nt_names()[k0]
                                        == sname@;
                                assert(names@[n_t + k0]@ == self.nt_names()[k0]);
                            }
                        }
                        assert(self.start_names()[s as int] == sname@);
                    }
                    return Err(GrammarError::StartingTerminal(sname.clone()));
                },
            }
            s = s + 1;
        }

        let h = GrammarHelper {
            n_terminals: n_t,
            names,
            patterns,
            start_ids,
            prods,
            prod_lo,
            prod_hi,
            first_sets: Vec::new(),
            follow_sets: Vec::new(),
            canonical_collection: Vec::new(),
        };
        proof {
            assert forall|s1: int, s2: int|
                0 <= s1 < s2 < h.start_ids@.len() implies h.start_ids@[s1] != h.start_ids@[
                s2] by {
                assert(self.start_names()[s1] != self.start_names()[s2]);
                assert(h.names@[h.start_ids@[s1] as int]@ == self.start_names()[s1]);
                assert(h.names@[h.start_ids@[s2] as int]@ == self.start_names()[s2]);
            }
            assert(h.n_terminals <= h.n_names());
            assert(h.patterns@.len() == h.n_terminals);
            assert(forall|i2: int, j2: int|
                0 <= i2 < j2 < h.n_names() ==> h.names@[i2]@ != h.names@[j2]@);
            assert(h.prod_lo@.len() == h.n_names());
            assert(h.prod_hi@.len() == h.n_names());
            assert(forall|k2: int|
                h.is_nt_id(k2) ==> h.prod_lo@[k2] <= h.prod_hi@[k2] <= h.prods@.len());
            assert(h.n_nts() > 0 ==> h.prod_lo@[h.n_terminals as int] == 0 && h.prod_hi@[
                h.n_names() - 1] == h.prods@.len());
            assert(h.n_nts() == 0 ==> h.prods@.len() == 0);
            assert(forall|k2: int|
                h.n_terminals <= k2 < h.n_names() - 1 ==> h.prod_hi@[k2] == h.prod_lo@[k2 + 1]);
            assert(forall|k2: int, p: int|
                h.is_nt_id(k2) && h.prod_range_of(k2, p) ==> h.prods@[p].lhs == k2);
            assert(forall|p: int| 0 <= p < h.prods@.len() ==> h.wf_prod(h.prods@[p]));
            assert(h.start_ids@.len() >= 1);
            assert(forall|s2: int| 0 <= s2 < h.start_ids@.len() ==> h.is_nt_id(h.start_ids@[
                s2] as int));
            assert(h.base_wf());
            assert forall|k2: int, a2: int|
                0 <= k2 < self.nt_names().len() && 0 <= a2 < self.alts(k2).len() implies h
                    .prod_matches(*self, k2, a2) by {
                assert(prod_entry_matches(
                    *self,
                    h.names@,
                    h.prods@,
                    h.prod_lo@[h.n_terminals + k2] + a2,
                    k2,
                    a2,
                    h.n_terminals as int,
                ));
            }
            assert(h.models(*self));
            assert(self.spec_valid());
        }
        Ok(h)
    }
}

/// `base_wf` carries over to a context that shares every structural field.
pub proof fn lemma_base_wf_same(a: GrammarHelper, b: GrammarHelper)
    requires
        a.base_wf(),
        b.n_terminals == a.n_terminals,
        b.names == a.names,
        b.patterns == a.patterns,
        b.start_ids == a.start_ids,
        b.prods == a.prods,
        b.prod_lo == a.prod_lo,
        b.prod_hi == a.prod_hi,
    ensures
        b.base_wf(),
{
    assert forall|i: int, j: int| 0 <= i < j < b.n_names() implies b.names@[i]@ != b.names@[
    j]@ by {
        assert(a.names@[i]@ != a.names@[j]@);
    }
    assert forall|k: int| b.is_nt_id(k) implies b.prod_lo@[k] <= b.prod_hi@[k]
        <= b.prods@.len() by {
        assert(a.is_nt_id(k));
        assert(a.prod_lo@[k] <= a.prod_hi@[k] <= a.prods@.len());
    }
    assert forall|k: int| b.n_terminals <= k < b.n_names() - 1 implies b.prod_hi@[k]
        == b.prod_lo@[k + 1] by {
        assert(a.prod_hi@[k] == a.prod_lo@[k + 1]);
    }
    assert forall|k: int, p: int| b.is_nt_id(k) && b.prod_range_of(k, p) implies b.prods@[p].lhs
        == k by {
        assert(a.is_nt_id(k) && a.prod_range_of(k, p));
        assert(a.prods@[p].lhs == k);
    }
    assert forall|p: int| 0 <= p < b.prods@.len() implies b.wf_prod(b.prods@[p]) by {
        assert(a.wf_prod(a.prods@[p]));
        assert forall|j: int| 0 <= j < b.prods@[p].rhs@.len() implies b.wf_sym(
            b.prods@[p].rhs@[j],
        ) by {
            assert(a.wf_sym(a.prods@[p].rhs@[j]));
        }
    }
    assert forall|s: int| 0 <= s < b.start_ids@.len() implies b.is_nt_id(
        b.start_ids@[s] as int,
    ) by {
        assert(a.is_nt_id(a.start_ids@[s] as int));
    }
}

/// Every production id lies in the id range of some nonterminal.
pub proof fn lemma_prod_owner_rec(h: GrammarHelper, p: int, k: int)
    requires
        h.base_wf(),
        h.is_nt_id(k),
        0 <= p < h.prod_hi@[k],
    ensures
        exists|k2: int| h.is_nt_id(k2) && h.prod_range_of(k2, p),
    decreases k,
{
    if p >= h.prod_lo@[k] {
        assert(h.is_nt_id(k) && h.prod_range_of(k, p));
    } else {
        if k == h.n_terminals {
            assert(h.prod_lo@[k] == 0);
            assert(false);
        }
        assert(h.prod_hi@[k - 1] == h.prod_lo@[k]);
        lemma_prod_owner_rec(h, p, k - 1);
    }
}

/// Every production id lies in its own left-hand side's id range.
pub proof fn lemma_prod_in_own_range(h: GrammarHelper, p: int)
    requires
        h.base_wf(),
        0 <= p < h.prods@.len(),
    ensures
        h.prod_range_of(h.prods@[p].lhs as int, p),
{
    if h.n_nts() == 0 {
        assert(false);
    }
    assert(h.is_nt_id(h.n_names() - 1));
    assert(h.prod_hi@[h.n_names() - 1] == h.prods@.len());
    lemma_prod_owner_rec(h, p, h.n_names() - 1);
    let k2 = choose|k2: int| h.is_nt_id(k2) && h.prod_range_of(k2, p);
    assert(h.prods@[p].lhs == k2);
}

/// The chosen position of a present name is a genuine occurrence.
pub proof fn lemma_name_pos(nv: Seq<Seq<char>>, n: Seq<char>)
    requires
        nv.contains(n),
    ensures
        0 <= name_pos(nv, n) < nv.len(),
        nv[name_pos(nv, n)] == n,
{
    let i = choose|i: int| 0 <= i < nv.len() && nv[i] == n;
    assert(nv[i] == n);
}

/// A resolved symbol's id lies in the right band of the name table.
pub open spec fn sym_fits(s: Symbol, n_t: int, n_names: int) -> bool {
    match s {
        Symbol::T(i) => 0 <= i < n_t,
        Symbol::NT(i) => n_t <= i < n_names,
        Symbol::Epsilon => true,
        Symbol::EOF => false,
    }
}

/// A production entry is structurally sound against the name table bands.
pub open spec fn prod_entry_wf(p: Prod, n_t: int, n_names: int) -> bool {
    &&& n_t <= p.lhs < n_names
    &&& p.rhs@.len() >= 1
    &&& forall|j: int| 0 <= j < p.rhs@.len() ==> sym_fits(p.rhs@[j], n_t, n_names)
}

/// Entry `p` of the flat production table is the resolution of alternative
/// `a` of the `k`-th nonterminal.
pub open spec fn prod_entry_matches(
    g: Grammar,
    names: Seq<String>,
    prods: Seq<Prod>,
    p: int,
    k: int,
    a: int,
    n_t: int,
) -> bool {
    &&& 0 <= p < prods.len()
    &&& prods[p].rhs@.len() == g.alts(k)[a].0@.len()
    &&& forall|j: int|
        0 <= j < prods[p].rhs@.len() ==> prods[p].rhs@[j] == resolve_in(
            name_views(names),
            n_t,
            g.alts(k)[a].0@[j]@,
        )
}

/// Finds the first position of a name in a table, scanning front to back.
fn name_index(names: &Vec<String>, n: &String) -> (r: Option<usize>)
    ensures
        match r {
            Some(i) => i < names@.len() && names@[i as int]@ == n@ && forall|j: int|
                0 <= j < i ==> names@[j]@ != n@,
            None => forall|j: int| 0 <= j < names@.len() ==> names@[j]@ != n@,
        },
{
    let len = names.len();
    let mut i: usize = 0;
    while i < len
        invariant
            len == names@.len(),
            i <= len,
            forall|j: int| 0 <= j < i ==> names@[j]@ != n@,
        decreases len - i,
    {
        if names[i] == *n {
            return Some(i);
        }
        i = i + 1;
    }
    None
}

/// The epsilon glyph as an owned string.
fn eps_string() -> (s: String)
    ensures
        s@ == eps_glyph(),
{
    let s: String = "\u{025b}".to_owned();
    proof {
        reveal_strlit("\u{025b}");
        assert(s@ =~= eps_glyph());
    }
    s
}

impl Production {
    /// Resolves every name of this production against the declared name
    /// table, front to back; fails on the first name that neither is the
    /// epsilon glyph nor occurs in the table.
    pub fn symbols(&self, names: &Vec<String>, n_terminals: usize) -> (r: Result<
        Vec<Symbol>,
        GrammarError,
    >)
        requires
            n_terminals <= names@.len(),
            forall|i: int, j: int| 0 <= i < j < names@.len() ==> names@[i]@ != names@[j]@,
        ensures
            (r is Ok) <==> (forall|j: int|
                0 <= j < self.0@.len() ==> resolvable_in(name_views(names@), self.0@[j]@)),
            match r {
                Ok(v) => v@.len() == self.0@.len() && forall|j: int|
                    0 <= j < self.0@.len() ==> v@[j] == resolve_in(
                        name_views(names@),
                        n_terminals as int,
                        self.0@[j]@,
                    ),
                Err(e) => e matches GrammarError::InvalidSymbol(n) && exists|j: int|
                    0 <= j < self.0@.len() && self.0@[j]@ == n@ && !resolvable_in(
                        name_views(names@),
                        n@,
                    ),
            },
{
    let eps = eps_string();
    let len = self.0.len();
    let mut v: Vec<Symbol> = Vec::new();
    let mut j: usize = 0;
    while j < len
        invariant
            len == self.0@.len(),
            j <= len,
            eps@ == eps_glyph(),
            n_terminals <= names@.len(),
            v@.len() == j,
            forall|i: int, jj: int| 0 <= i < jj < names@.len() ==> names@[i]@ != names@[jj]@,
            forall|q: int| 0 <= q < j ==> resolvable_in(name_views(names@), self.0@[q]@),
            forall|q: int|
                0 <= q < j ==> v@[q] == resolve_in(
                    name_views(names@),
                    n_terminals as int,
                    self.0@[q]@,
                ),
        decreases len - j,
    {
        let cand = &self.0[j];
        if *cand == eps {
            v.push(Symbol::Epsilon);
        } else {
            match name_index(names, cand) {
                Some(i) => {
                    proof {
                        assert(name_views(names@)[i as int] == cand@);
                        assert(name_views(names@).contains(cand@));
                        assert(name_pos(name_views(names@), cand@) == i) by {
                            let w = name_pos(name_views(names@), cand@);
                            assert(0 <= w < names@.len() && names@[w]@ == cand@);
                            if w < i {
                                assert(names@[w]@ != names@[i as int]@);
                            } else if w > i {
                                assert(names@[i as int]@ != names@[w]@);
                            }
                        }
                    }
                    if i < n_terminals {
                        v.push(Symbol::T(i));
                    } else {
                        v.push(Symbol::NT(i));
                    }
                },
                None => {
                    proof {
                        assert forall|w: int|
                            0 <= w < name_views(names@).len() implies name_views(names@)[w]
                            != cand@ by {
                            assert(names@[w]@ != cand@);
                        }
                        assert(!name_views(names@).contains(cand@));
                        assert(!resolvable_in(name_views(names@), self.0@[j as int]@));
                    }
                    return Err(GrammarError::InvalidSymbol(cand.clone()));
                },
            }
        }
        j = j + 1;
    }
    Ok(v)
}
}

} // verus!
