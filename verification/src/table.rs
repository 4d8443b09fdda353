use vstd::prelude::*;

use crate::grammar::Grammar;
use crate::grammar::GrammarError;
use crate::grammar::GrammarHelper;
use crate::grammar::Symbol;
use crate::items::ItemV;

verus! {

/// One parse decision: shift to a state, reduce by a production, or accept.
#[derive(Clone, Copy, PartialEq, Eq, Structural, Debug)]
pub enum Action {
    Shift(usize),
    Reduce(usize),
    Accept,
}

/// One state's row of the parse table: `actions` is keyed by terminal id,
/// with the end-of-input column last; `gotos` is keyed by nonterminal
/// offset.
#[derive(Debug)]
pub struct TableRow {
    pub actions: Vec<Option<Action>>,
    pub gotos: Vec<Option<usize>>,
}

/// The finished parse table, together with the metadata a driver or emitter
/// needs: the terminal names and lexer patterns in declaration order, the
/// nonterminal names, the start names, and for every production id its
/// left-hand nonterminal id and right-hand length.
#[derive(Debug)]
pub struct ParseTable {
    pub n_terminals: usize,
    pub terminal_names: Vec<String>,
    pub patterns: Vec<String>,
    pub nonterminal_names: Vec<String>,
    pub start_names: Vec<String>,
    pub prod_info: Vec<(usize, usize)>,
    pub states: Vec<TableRow>,
}

/// The symbol code that action column `c` stands for: a terminal id, or
/// end-of-input for the last column.
pub open spec fn col_code(h: GrammarHelper, c: int) -> int {
    if c < h.n_terminals {
        c
    } else {
        h.eof_code()
    }
}

/// An action is demanded at cell `(i, c)` by the synthesis rules: a shift by
/// an item with that terminal right of the dot, a reduce by a completed item
/// whose left-hand side's FOLLOW holds the column's symbol, an accept by a
/// completed augmented-start item at the end-of-input column.
pub open spec fn demanded(h: GrammarHelper, i: int, c: int, a: Action) -> bool {
    match a {
        Action::Shift(j) => {
            &&& 0 <= c < h.n_terminals
            &&& exists|it: ItemV|
                #[trigger] h.canonical_collection@[i].sset().contains(it) && it.sym_after_dot()
                    == Some(Symbol::T(c as usize))
            &&& 0 <= j < h.canonical_collection@.len()
            &&& h.canonical_collection@[j as int].sset() == h.spec_goto(
                h.canonical_collection@[i].sset(),
                Symbol::T(c as usize),
            )
        },
        Action::Reduce(p) => {
            &&& 0 <= c <= h.n_terminals
            &&& exists|it: ItemV|
                #[trigger] h.canonical_collection@[i].sset().contains(it) && it.dot_at_end()
                    && !it.is_start && it.prod == Some(p as int) && h.follow_view()[it.lhs][
                    col_code(h, c)]
        },
        Action::Accept => {
            &&& c == h.n_terminals
            &&& exists|it: ItemV|
                #[trigger] h.canonical_collection@[i].sset().contains(it) && it.dot_at_end()
                    && it.is_start
        },
    }
}

/// No cell demands two different actions.
pub open spec fn demands_consistent(h: GrammarHelper) -> bool {
    forall|i: int, c: int, a1: Action, a2: Action|
        0 <= i < h.canonical_collection@.len() && #[trigger] demanded(h, i, c, a1)
            && #[trigger] demanded(h, i, c, a2) ==> a1 == a2
}

/// Every cell of the row holds only demanded actions.
pub open spec fn row_cells_demanded(h: GrammarHelper, i: int, row: TableRow) -> bool {
    &&& row.actions@.len() == h.n_terminals + 1
    &&& row.gotos@.len() == h.n_nts()
    &&& forall|c: int|
        0 <= c < row.actions@.len() && (#[trigger] row.actions@[c]) is Some ==> demanded(
            h,
            i,
            c,
            row.actions@[c]->0,
        )
}

/// The row satisfies every demand of its state, and its goto cells are
/// exactly the nonempty gotos on nonterminals.
pub open spec fn row_satisfies(h: GrammarHelper, i: int, row: TableRow) -> bool {
    &&& forall|c: int, a: Action|
        0 <= c <= h.n_terminals && #[trigger] demanded(h, i, c, a) ==> row.actions@[c] == Some(a)
    &&& forall|k: int|
        0 <= k < h.n_nts() ==> {
            let g = h.spec_goto(
                h.canonical_collection@[i].sset(),
                Symbol::NT((h.n_terminals + k) as usize),
            );
            if g == Set::<ItemV>::empty() {
                (#[trigger] row.gotos@[k]) is None
            } else {
                exists|j: int|
                    0 <= j < h.canonical_collection@.len() && h.canonical_collection@[j].sset()
                        == g && row.gotos@[k] == Some(j as usize)
            }
        }
}

/// A reported conflict is genuine: the cell it names demands two different
/// actions.
pub open spec fn conflict_real(h: GrammarHelper, e: GrammarError) -> bool {
    match e {
        GrammarError::ShiftReduceConflict { state, symbol, shift_state, reduce_production } => {
            &&& 0 <= state < h.canonical_collection@.len()
            &&& exists|c: int|
                (#[trigger] demanded(h, state as int, c, Action::Reduce(reduce_production))) && (
                demanded(h, state as int, c, Action::Shift(shift_state)) || demanded(
                    h,
                    state as int,
                    c,
                    Action::Accept,
                ))
        },
        GrammarError::ReduceReduceConflict { state, symbol, production_a, production_b } => {
            &&& 0 <= state < h.canonical_collection@.len()
            &&& production_a != production_b
            &&& exists|c: int|
                (#[trigger] demanded(h, state as int, c, Action::Reduce(production_a)))
                    && demanded(h, state as int, c, Action::Reduce(production_b))
        },
        _ => false,
    }
}

/// Writes a demanded action into a cell. An empty cell takes the action; a
/// cell already holding the same action is left alone; a cell holding a
/// different action is left alone and the collision is reported, classified
/// by the two actions' kinds. Pairs that synthesis cannot produce (two
/// different shift targets, a shift against an accept) are excluded by the
/// precondition.
fn set_action(
    actions: &mut Vec<Option<Action>>,
    col: usize,
    act: Action,
    state_i: usize,
    sym_name: String,
    conflicts: &mut Vec<GrammarError>,
)
    requires
        col < old(actions)@.len(),
        match (old(actions)@[col as int], act) {
            (Some(Action::Shift(a)), Action::Shift(b)) => a == b,
            (Some(Action::Shift(_)), Action::Accept) => false,
            (Some(Action::Accept), Action::Shift(_)) => false,
            _ => true,
        },
    ensures
        final(actions)@.len() == old(actions)@.len(),
        forall|c2: int|
            0 <= c2 < old(actions)@.len() && c2 != col ==> final(actions)@[c2] == old(
                actions,
            )@[c2],
        old(actions)@[col as int] is None ==> final(actions)@[col as int] == Some(act) && final(
            conflicts)@ == old(conflicts)@,
        old(actions)@[col as int] matches Some(a0) ==> final(actions)@[col as int] == Some(a0) && (
        if a0 == act {
            final(conflicts)@ == old(conflicts)@
        } else {
            final(conflicts)@ == old(conflicts)@.push(
                match (a0, act) {
                    (Action::Shift(j), Action::Reduce(p)) => GrammarError::ShiftReduceConflict {
                        state: state_i,
                        symbol: sym_name,
                        shift_state: j,
                        reduce_production: p,
                    },
                    (Action::Reduce(p), Action::Shift(j)) => GrammarError::ShiftReduceConflict {
                        state: state_i,
                        symbol: sym_name,
                        shift_state: j,
                        reduce_production: p,
                    },
                    (Action::Reduce(p1), Action::Reduce(p2)) => GrammarError::ReduceReduceConflict {
                        state: state_i,
                        symbol: sym_name,
                        production_a: p1,
                        production_b: p2,
                    },
                    (Action::Accept, Action::Reduce(p)) => GrammarError::ShiftReduceConflict {
                        state: state_i,
                        symbol: sym_name,
                        shift_state: state_i,
                        reduce_production: p,
                    },
                    (Action::Reduce(p), Action::Accept) => GrammarError::ShiftReduceConflict {
                        state: state_i,
                        symbol: sym_name,
                        shift_state: state_i,
                        reduce_production: p,
                    },
                    _ => GrammarError::ReduceReduceConflict {
                        state: state_i,
                        symbol: sym_name,
                        production_a: 0,
                        production_b: 0,
                    },
                },
            )
        }),
{
    let cur = actions[col];
    match cur {
        None => {
            actions.set(col, Some(act));
        },
        Some(a0) => {
            if a0 == act {
            } else {
                let e = match (a0, act) {
                    (Action::Shift(j), Action::Reduce(p)) => GrammarError::ShiftReduceConflict {
                        state: state_i,
                        symbol: sym_name,
                        shift_state: j,
                        reduce_production: p,
                    },
                    (Action::Reduce(p), Action::Shift(j)) => GrammarError::ShiftReduceConflict {
                        state: state_i,
                        symbol: sym_name,
                        shift_state: j,
                        reduce_production: p,
                    },
                    (Action::Reduce(p1), Action::Reduce(p2)) => GrammarError::ReduceReduceConflict {
                        state: state_i,
                        symbol: sym_name,
                        production_a: p1,
                        production_b: p2,
                    },
                    (Action::Accept, Action::Reduce(p)) => GrammarError::ShiftReduceConflict {
                        state: state_i,
                        symbol: sym_name,
                        shift_state: state_i,
                        reduce_production: p,
                    },
                    (Action::Reduce(p), Action::Accept) => GrammarError::ShiftReduceConflict {
                        state: state_i,
                        symbol: sym_name,
                        shift_state: state_i,
                        reduce_production: p,
                    },
                    _ => GrammarError::ReduceReduceConflict {
                        state: state_i,
                        symbol: sym_name,
                        production_a: 0,
                        production_b: 0,
                    },
                };
                conflicts.push(e);
            }
        },
    }
}

/// On a successfully built table every pair of demands on one cell agrees:
/// each cell of ACTION holds at most one action.
pub proof fn lemma_action_cells_unique(
    h: GrammarHelper,
    i: int,
    c: int,
    a1: Action,
    a2: Action,
)
    requires
        demands_consistent(h),
        0 <= i < h.canonical_collection@.len(),
        demanded(h, i, c, a1),
        demanded(h, i, c, a2),
    ensures
        a1 == a2,
{
}

/// On a successfully built table, every state holding a completed
/// augmented-start item has Accept in its end-of-input cell.
pub proof fn lemma_accept_cell(h: GrammarHelper, i: int, row: TableRow, it: ItemV)
    requires
        row_satisfies(h, i, row),
        0 <= i < h.canonical_collection@.len(),
        h.canonical_collection@[i].sset().contains(it),
        it.dot_at_end(),
        it.is_start,
    ensures
        row.actions@[h.n_terminals as int] == Some(Action::Accept),
{
    assert(demanded(h, i, h.n_terminals as int, Action::Accept));
}


/// The demands one item places on its state's action row are met by the row.
pub open spec fn item_demands_met(
    h: GrammarHelper,
    i: int,
    it: ItemV,
    actions: Seq<Option<Action>>,
) -> bool {
    &&& (forall|t: int|
        #![trigger actions[t]]
        0 <= t < h.n_terminals && it.sym_after_dot() == Some(Symbol::T(t as usize)) ==> exists|
            j: int,
        |
            0 <= j < h.canonical_collection@.len() && (#[trigger] h.canonical_collection@[
                j]).sset() == h.spec_goto(h.canonical_collection@[i].sset(), Symbol::T(t as usize))
                && actions[t] == Some(Action::Shift(j as usize)))
    &&& (it.dot_at_end() && !it.is_start ==> forall|c: int|
        #![trigger actions[c]]
        0 <= c <= h.n_terminals && h.follow_view()[it.lhs][col_code(h, c)] ==> actions[c] == Some(
            Action::Reduce((it.prod->0) as usize),
        ))
    &&& (it.dot_at_end() && it.is_start ==> actions[h.n_terminals as int] == Some(Action::Accept))
}

impl GrammarHelper {
    /// Synthesizes the ACTION and GOTO tables from the canonical collection
    /// and the FOLLOW sets, one state at a time: a terminal right of a dot
    /// shifts to the goto state, a completed item reduces on every symbol in
    /// FOLLOW of its left-hand side, a completed augmented-start item
    /// accepts on end-of-input. Cell collisions are collected, classified as
    /// shift/reduce or reduce/reduce, and reported all together; a conflicted
    /// grammar fails.
    /// Computes one state's GOTO row: for each nonterminal, the state its
    /// nonempty goto leads to.
    fn build_goto_row(&self, i: usize) -> (gotos: Vec<Option<usize>>)
        requires
            self.base_wf(),
            self.coll_wf(),
            self.coll_complete(),
            (i as int) < self.canonical_collection@.len(),
        ensures
            gotos@.len() == self.n_nts(),
            forall|k2: int|
                #![trigger gotos@[k2]]
                0 <= k2 < self.n_nts() ==> {
                    let g = self.spec_goto(
                        self.canonical_collection@[i as int].sset(),
                        Symbol::NT((self.n_terminals + k2) as usize),
                    );
                    if g == Set::<ItemV>::empty() {
                        gotos@[k2] is None
                    } else {
                        exists|j: int|
                            0 <= j < self.canonical_collection@.len()
                                && self.canonical_collection@[j].sset() == g && gotos@[k2] == Some(
                                j as usize,
                            )
                    }
                },
    {
        let n_names = self.names.len();
        let n_t = self.n_terminals;
        let n_nt = n_names - n_t;
        let mut gotos: Vec<Option<usize>> = vec![None;n_nt];
        let mut k: usize = 0;
        while k < n_nt
            invariant
                self.base_wf(),
                self.coll_wf(),
                self.coll_complete(),
                (i as int) < self.canonical_collection@.len(),
                n_names == self.names@.len(),
                n_t == self.n_terminals,
                n_nt == n_names - n_t,
                k <= n_nt,
                gotos@.len() == n_nt,
                forall|k2: int|
                    #![trigger gotos@[k2]]
                    0 <= k2 < k ==> {
                        let g = self.spec_goto(
                            self.canonical_collection@[i as int].sset(),
                            Symbol::NT((n_t + k2) as usize),
                        );
                        if g == Set::<ItemV>::empty() {
                            gotos@[k2] is None
                        } else {
                            exists|j: int|
                                0 <= j < self.canonical_collection@.len()
                                    && self.canonical_collection@[j].sset() == g && gotos@[k2]
                                    == Some(j as usize)
                        }
                    },
                forall|k2: int| k <= k2 < n_nt ==> (#[trigger] gotos@[k2]) is None,
            decreases n_nt - k,
        {
            let g = self.goto(&self.canonical_collection[i], Symbol::NT(n_t + k));
            proof {
                assert(self.id_sym(n_t + k as int) == Symbol::NT((n_t + k) as usize));
            }
            if g.len() > 0 {
                proof {
                    assert(g.sset().contains(g.iseq()[0]));
                    assert(g.sset() != Set::<ItemV>::empty());
                }
                let j = match self.find_state(&g) {
                    Some(j) => j,
                    None => {
                        proof {
                            assert(false);
                        }
                        0
                    },
                };
                gotos.set(k, Some(j));
            } else {
                proof {
                    assert(g.iseq() =~= Seq::<ItemV>::empty());
                    assert forall|itx: ItemV| !g.sset().contains(itx) by {}
                    assert(g.sset() =~= Set::<ItemV>::empty());
                }
            }
            k = k + 1;
        }
        gotos
    }

    #[verifier::rlimit(100)]
    pub fn parse_table(&self) -> (r: Result<ParseTable, Vec<GrammarError>>)
        requires
            self.base_wf(),
            self.first_ok(),
            self.follow_ok(),
            self.coll_wf(),
            self.coll_complete(),
        ensures
            (r is Ok) <==> demands_consistent(*self),
            match r {
                Ok(t) => table_from(*self, t),
                Err(es) => es@.len() > 0 && forall|e: int|
                    0 <= e < es@.len() ==> conflict_real(*self, #[trigger] es@[e]),
            },
    {
        let n_names = self.names.len();
        let n_t = self.n_terminals;
        let n_nt = n_names - n_t;
        let eof_i = n_names + 1;
        let n_states = self.canonical_collection.len();
        let mut states: Vec<TableRow> = Vec::new();
        let mut conflicts: Vec<GrammarError> = Vec::new();
        let mut i: usize = 0;
        while i < n_states
            invariant
                self.base_wf(),
                self.first_ok(),
                self.follow_ok(),
                self.coll_wf(),
                self.coll_complete(),
                n_names == self.names@.len(),
                n_t == self.n_terminals,
                n_nt == n_names - n_t,
                eof_i == n_names + 1,
                n_states == self.canonical_collection@.len(),
                i <= n_states,
                states@.len() == i,
                forall|i2: int|
                    0 <= i2 < i ==> row_cells_demanded(*self, i2, #[trigger] states@[i2]),
                forall|e: int|
                    0 <= e < conflicts@.len() ==> conflict_real(*self, #[trigger] conflicts@[e]),
                conflicts@.len() == 0 ==> forall|i2: int|
                    0 <= i2 < i ==> row_satisfies(*self, i2, #[trigger] states@[i2]),
            decreases n_states - i,
        {
            let ghost conf0 = conflicts@;
            let st_len = self.canonical_collection[i].len();
            let mut actions: Vec<Option<Action>> = vec![None;n_t + 1];
            let mut q: usize = 0;
            while q < st_len
                invariant
                    self.base_wf(),
                    self.first_ok(),
                    self.follow_ok(),
                    self.coll_wf(),
                    self.coll_complete(),
                    n_names == self.names@.len(),
                    n_t == self.n_terminals,
                    n_nt == n_names - n_t,
                    eof_i == n_names + 1,
                    n_states == self.canonical_collection@.len(),
                    i < n_states,
                    st_len == self.canonical_collection@[i as int].iseq().len(),
                    q <= st_len,
                    actions@.len() == n_t + 1,
                    forall|c: int|
                        0 <= c < actions@.len() && (#[trigger] actions@[c]) is Some ==> demanded(
                            *self,
                            i as int,
                            c,
                            actions@[c]->0,
                        ),
                    forall|e: int|
                        0 <= e < conflicts@.len() ==> conflict_real(
                            *self,
                            #[trigger] conflicts@[e],
                        ),
                    conflicts@.len() >= conf0.len(),
                    forall|e: int| 0 <= e < conf0.len() ==> conflicts@[e] == conf0[e],
                    conflicts@.len() == 0 ==> forall|q2: int|
                        0 <= q2 < q ==> item_demands_met(
                            *self,
                            i as int,
                            #[trigger] self.canonical_collection@[i as int].iseq()[q2],
                            actions@,
                        ),
                decreases st_len - q,
            {
                let it_lhs = self.canonical_collection[i].0[q].lhs;
                let it_is_start = self.canonical_collection[i].0[q].is_start;
                let it_pn = self.canonical_collection[i].0[q].production_number;
                let it_next = self.canonical_collection[i].0[q].symbol_after_dot();
                let ghost itv = self.canonical_collection@[i as int].iseq()[q as int];
                proof {
                    assert(self.canonical_collection@[i as int].sset().contains(itv));
                    assert(self.wf_item(itv));
                }
                let ghost acts0 = actions@;
                let ghost confq = conflicts@;
                match it_next {
                    Some(Symbol::T(t)) => {
                        proof {
                            if itv.is_start {
                                assert(itv.syms[itv.dot] == Symbol::NT(itv.lhs as usize));
                                assert(false);
                            }
                            assert(self.wf_prod(self.prods@[itv.prod->0]));
                            assert(self.wf_sym(itv.syms[itv.dot]));
                            assert((t as int) < n_t);
                        }
                        let g = self.goto(&self.canonical_collection[i], Symbol::T(t));
                        proof {
                            assert(self.advance_set(
                                self.canonical_collection@[i as int].sset(),
                                Symbol::T(t),
                            ).contains(itv.advanced())) by {
                                assert(self.canonical_collection@[i as int].sset().contains(itv)
                                    && itv.sym_after_dot() == Some(Symbol::T(t)) && itv.advanced()
                                    == itv.advanced());
                            }
                            assert(g.sset().contains(itv.advanced()));
                            assert(g.sset() != Set::<ItemV>::empty());
                            assert(self.id_sym(t as int) == Symbol::T(t));
                            assert(self.spec_goto(
                                self.canonical_collection@[i as int].sset(),
                                self.id_sym(t as int),
                            ) == g.sset());
                        }
                        let j = match self.find_state(&g) {
                            Some(j) => j,
                            None => {
                                proof {
                                    assert(false);
                                }
                                0
                            },
                        };
                        proof {
                            assert(demanded(*self, i as int, t as int, Action::Shift(j))) by {
                                assert(self.canonical_collection@[i as int].sset().contains(itv)
                                    && itv.sym_after_dot() == Some(Symbol::T(t)));
                            }
                            match actions@[t as int] {
                                Some(a0) => {
                                    assert(demanded(*self, i as int, t as int, a0));
                                    match a0 {
                                        Action::Shift(a) => {
                                            if a != j {
                                                assert(self.canonical_collection@[a as int].sset()
                                                    == self.canonical_collection@[
                                                    j as int].sset());
                                                assert(false);
                                            }
                                        },
                                        Action::Reduce(_) => {},
                                        Action::Accept => {
                                            assert(false);
                                        },
                                    }
                                },
                                None => {},
                            }
                        }
                        let nm = self.names[t].clone();
                        set_action(&mut actions, t, Action::Shift(j), i, nm, &mut conflicts);
                        proof {
                            if conflicts@ != confq {
                                assert(acts0[t as int] is Some);
                                let a0 = acts0[t as int]->0;
                                assert(demanded(*self, i as int, t as int, a0));
                                match a0 {
                                    Action::Reduce(p) => {
                                        assert(demanded(
                                            *self,
                                            i as int,
                                            t as int,
                                            Action::Reduce(p),
                                        ));
                                        assert(demanded(*self, i as int, t as int, Action::Shift(j)));
                                        let last = conflicts@[conflicts@.len() - 1];
                                        assert(last matches GrammarError::ShiftReduceConflict {
                                            state: st2,
                                            symbol: _s2,
                                            shift_state: ss2,
                                            reduce_production: rp2,
                                        } && st2 == i && ss2 == j && rp2 == p);
                                        assert(conflict_real(*self, last));
                                    },
                                    Action::Shift(a) => {
                                        assert(a == j);
                                        assert(false);
                                    },
                                    Action::Accept => {
                                        assert(false);
                                    },
                                }
                            }
                        }
                    },
                    None => {
                        proof {
                            assert(itv.dot_at_end());
                        }
                        if it_is_start {
                            proof {
                                assert(demanded(*self, i as int, n_t as int, Action::Accept)) by {
                                    assert(self.canonical_collection@[i as int].sset().contains(
                                        itv,
                                    ) && itv.dot_at_end() && itv.is_start);
                                }
                                match actions@[n_t as int] {
                                    Some(a0) => {
                                        assert(demanded(*self, i as int, n_t as int, a0));
                                        match a0 {
                                            Action::Shift(_) => {
                                                assert(false);
                                            },
                                            _ => {},
                                        }
                                    },
                                    None => {},
                                }
                            }
                            let nm = Symbol::EOF.name(&self.names);
                            set_action(&mut actions, n_t, Action::Accept, i, nm, &mut conflicts);
                            proof {
                                if conflicts@ != confq {
                                    assert(acts0[n_t as int] is Some);
                                    let a0 = acts0[n_t as int]->0;
                                    assert(demanded(*self, i as int, n_t as int, a0));
                                    match a0 {
                                        Action::Reduce(p) => {
                                            assert(demanded(
                                                *self,
                                                i as int,
                                                n_t as int,
                                                Action::Reduce(p),
                                            ));
                                            assert(demanded(
                                                *self,
                                                i as int,
                                                n_t as int,
                                                Action::Accept,
                                            ));
                                            let last = conflicts@[conflicts@.len() - 1];
                                            assert(last matches GrammarError::ShiftReduceConflict {
                                                state: st2,
                                                symbol: _s2,
                                                shift_state: ss2,
                                                reduce_production: rp2,
                                            } && st2 == i && ss2 == i && rp2 == p);
                                            assert(conflict_real(*self, last));
                                        },
                                        Action::Shift(_) => {
                                            assert(false);
                                        },
                                        Action::Accept => {
                                            assert(false);
                                        },
                                    }
                                }
                            }
                        } else {
                            let pid = match it_pn {
                                Some(p) => p,
                                None => {
                                    proof {
                                        assert(false);
                                    }
                                    0
                                },
                            };
                            proof {
                                assert(itv.prod == Some(pid as int));
                                assert(self.is_nt_id(itv.lhs));
                                assert(self.follow_view()[it_lhs as int].len()
                                    == self.n_codes());
                            }
                            let mut c: usize = 0;
                            while c < n_t + 1
                                invariant
                                    self.base_wf(),
                                    self.first_ok(),
                                    self.follow_ok(),
                                    self.coll_wf(),
                                    self.coll_complete(),
                                    n_names == self.names@.len(),
                                    n_t == self.n_terminals,
                                    eof_i == n_names + 1,
                                    n_states == self.canonical_collection@.len(),
                                    i < n_states,
                                    c <= n_t + 1,
                                    actions@.len() == n_t + 1,
                                    itv == self.canonical_collection@[i as int].iseq()[q as int],
                                    self.canonical_collection@[i as int].sset().contains(itv),
                                    itv.dot_at_end(),
                                    !itv.is_start,
                                    itv.prod == Some(pid as int),
                                    it_lhs as int == itv.lhs,
                                    self.is_nt_id(itv.lhs),
                                    q < st_len,
                                    st_len == self.canonical_collection@[i as int].iseq().len(),
                                    forall|c2: int|
                                        0 <= c2 < actions@.len() && (#[trigger] actions@[c2])
                                            is Some ==> demanded(
                                            *self,
                                            i as int,
                                            c2,
                                            actions@[c2]->0,
                                        ),
                                    forall|e: int|
                                        0 <= e < conflicts@.len() ==> conflict_real(
                                            *self,
                                            #[trigger] conflicts@[e],
                                        ),
                                    conflicts@.len() >= confq.len(),
                                    forall|e: int|
                                        0 <= e < confq.len() ==> conflicts@[e] == confq[e],
                                    forall|e: int| 0 <= e < conf0.len() ==> confq[e] == conf0[e],
                                    confq.len() >= conf0.len(),
                                    forall|c2: int|
                                        0 <= c2 < actions@.len() && (#[trigger] acts0[c2])
                                            is Some ==> actions@[c2] == acts0[c2],
                                    conflicts@.len() == 0 ==> forall|c2: int|
                                        #![trigger actions@[c2]]
                                        0 <= c2 < c && self.follow_view()[itv.lhs][col_code(
                                            *self,
                                            c2,
                                        )] ==> actions@[c2] == Some(Action::Reduce(pid)),
                                    forall|c2: int|
                                        #![trigger actions@[c2]]
                                        0 <= c2 < actions@.len() && acts0[c2] is None
                                            && actions@[c2] is Some ==> actions@[c2] == Some(
                                            Action::Reduce(pid),
                                        ),
                                decreases n_t + 1 - c,
                            {
                                let fbit = if c < n_t {
                                    self.follow_sets[it_lhs][c]
                                } else {
                                    self.follow_sets[it_lhs][eof_i]
                                };
                                proof {
                                    assert(fbit == self.follow_view()[itv.lhs][col_code(
                                        *self,
                                        c as int,
                                    )]);
                                }
                                if fbit {
                                    proof {
                                        assert(demanded(
                                            *self,
                                            i as int,
                                            c as int,
                                            Action::Reduce(pid),
                                        )) by {
                                            assert(self.canonical_collection@[
                                                i as int].sset().contains(itv) && itv.dot_at_end()
                                                && !itv.is_start && itv.prod == Some(pid as int)
                                                && self.follow_view()[itv.lhs][col_code(
                                                *self,
                                                c as int,
                                            )]);
                                        }
                                    }
                                    let nm = if c < n_t {
                                        self.names[c].clone()
                                    } else {
                                        Symbol::EOF.name(&self.names)
                                    };
                                    let ghost confc = conflicts@;
                                    let ghost actsc = actions@;
                                    set_action(
                                        &mut actions,
                                        c,
                                        Action::Reduce(pid),
                                        i,
                                        nm,
                                        &mut conflicts,
                                    );
                                    proof {
                                        if conflicts@ != confc {
                                            assert(actsc[c as int] is Some);
                                            let a0 = actsc[c as int]->0;
                                            assert(demanded(*self, i as int, c as int, a0));
                                            match a0 {
                                                Action::Shift(jj) => {
                                                    assert(demanded(
                                                        *self,
                                                        i as int,
                                                        c as int,
                                                        Action::Shift(jj),
                                                    ));
                                                    assert(demanded(
                                                        *self,
                                                        i as int,
                                                        c as int,
                                                        Action::Reduce(pid),
                                                    ));
                                                    let last = conflicts@[conflicts@.len() - 1];
                                                    assert(last
                                                        matches GrammarError::ShiftReduceConflict {
                                                        state: st2,
                                                        symbol: _s2,
                                                        shift_state: ss2,
                                                        reduce_production: rp2,
                                                    } && st2 == i && ss2 == jj && rp2 == pid);
                                                    assert(conflict_real(*self, last));
                                                },
                                                Action::Reduce(p2) => {
                                                    assert(p2 != pid);
                                                    assert(demanded(
                                                        *self,
                                                        i as int,
                                                        c as int,
                                                        Action::Reduce(p2),
                                                    ));
                                                    assert(demanded(
                                                        *self,
                                                        i as int,
                                                        c as int,
                                                        Action::Reduce(pid),
                                                    ));
                                                    let last = conflicts@[conflicts@.len() - 1];
                                                    assert(last
                                                        matches GrammarError::ReduceReduceConflict {
                                                        state: st2,
                                                        symbol: _s2,
                                                        production_a: pa2,
                                                        production_b: pb2,
                                                    } && st2 == i && pa2 == p2 && pb2 == pid);
                                                    assert(conflict_real(*self, last));
                                                },
                                                Action::Accept => {
                                                    assert(demanded(
                                                        *self,
                                                        i as int,
                                                        c as int,
                                                        Action::Accept,
                                                    ));
                                                    assert(demanded(
                                                        *self,
                                                        i as int,
                                                        c as int,
                                                        Action::Reduce(pid),
                                                    ));
                                                    let last = conflicts@[conflicts@.len() - 1];
                                                    assert(last
                                                        matches GrammarError::ShiftReduceConflict {
                                                        state: st2,
                                                        symbol: _s2,
                                                        shift_state: ss2,
                                                        reduce_production: rp2,
                                                    } && st2 == i && ss2 == i && rp2 == pid);
                                                    assert(conflict_real(*self, last));
                                                },
                                            }
                                        }
                                    }
                                }
                                c = c + 1;
                            }
                        }
                    },
                    _ => {},
                }
                proof {
                    if conflicts@.len() == 0 {
                        assert(confq.len() == 0);
                        assert forall|q2: int| 0 <= q2 < q + 1 implies item_demands_met(
                            *self,
                            i as int,
                            #[trigger] self.canonical_collection@[i as int].iseq()[q2],
                            actions@,
                        ) by {
                            if q2 < q {
                                assert(item_demands_met(
                                    *self,
                                    i as int,
                                    self.canonical_collection@[i as int].iseq()[q2],
                                    acts0,
                                ));
                                assert forall|c2: int|
                                    0 <= c2 < acts0.len() && (#[trigger] acts0[c2])
                                        is Some implies actions@[c2] == acts0[c2] by {}
                            } else {
                                match itv.sym_after_dot() {
                                    Some(Symbol::T(t2)) => {
                                        assert(actions@[t2 as int] is Some);
                                    },
                                    _ => {},
                                }
                            }
                        }
                    }
                }
                q = q + 1;
            }
            let gotos2 = self.build_goto_row(i);
            let row = TableRow { actions, gotos: gotos2 };
            states.push(row);
            proof {
                assert(states@.len() == i + 1);
                assert(row_cells_demanded(*self, i as int, states@[i as int]));
                if conflicts@.len() == 0 {
                    assert(row_satisfies(*self, i as int, states@[i as int])) by {
                        let rw = states@[i as int];
                        assert forall|c: int, a: Action|
                            0 <= c <= n_t && #[trigger] demanded(*self, i as int, c, a) implies
                            rw.actions@[c] == Some(a) by {
                            match a {
                                Action::Shift(j) => {
                                    let it = choose|it: ItemV|
                                        #[trigger] self.canonical_collection@[
                                            i as int].sset().contains(it) && it.sym_after_dot()
                                            == Some(Symbol::T(c as usize));
                                    let q2 = choose|q2: int|
                                        0 <= q2 < self.canonical_collection@[
                                            i as int].iseq().len() && self.canonical_collection@[
                                            i as int].iseq()[q2] == it;
                                    assert(item_demands_met(*self, i as int, it, rw.actions@));
                                    let j2 = choose|j2: int|
                                        0 <= j2 < self.canonical_collection@.len() && (
                                        #[trigger] self.canonical_collection@[j2]).sset()
                                            == self.spec_goto(
                                            self.canonical_collection@[i as int].sset(),
                                            Symbol::T(c as usize),
                                        ) && rw.actions@[c] == Some(Action::Shift(j2 as usize));
                                    if j2 != j as int {
                                        assert(self.canonical_collection@[j2].sset()
                                            == self.canonical_collection@[j as int].sset());
                                        assert(false);
                                    }
                                },
                                Action::Reduce(p) => {
                                    let it = choose|it: ItemV|
                                        #[trigger] self.canonical_collection@[
                                            i as int].sset().contains(it) && it.dot_at_end()
                                            && !it.is_start && it.prod == Some(p as int)
                                            && self.follow_view()[it.lhs][col_code(*self, c)];
                                    let q2 = choose|q2: int|
                                        0 <= q2 < self.canonical_collection@[
                                            i as int].iseq().len() && self.canonical_collection@[
                                            i as int].iseq()[q2] == it;
                                    assert(item_demands_met(*self, i as int, it, rw.actions@));
                                },
                                Action::Accept => {
                                    let it = choose|it: ItemV|
                                        #[trigger] self.canonical_collection@[
                                            i as int].sset().contains(it) && it.dot_at_end()
                                            && it.is_start;
                                    let q2 = choose|q2: int|
                                        0 <= q2 < self.canonical_collection@[
                                            i as int].iseq().len() && self.canonical_collection@[
                                            i as int].iseq()[q2] == it;
                                    assert(item_demands_met(*self, i as int, it, rw.actions@));
                                },
                            }
                        }
                    }
                }
            }
            i = i + 1;
        }
        if conflicts.len() == 0 {
            let mut terminal_names: Vec<String> = Vec::new();
            let mut patterns2: Vec<String> = Vec::new();
            let mut c2: usize = 0;
            while c2 < n_t
                invariant
                    n_t == self.n_terminals,
                    n_t <= self.names@.len(),
                    self.patterns@.len() == n_t,
                    c2 <= n_t,
                    terminal_names@.len() == c2,
                    patterns2@.len() == c2,
                    forall|q2: int|
                        0 <= q2 < c2 ==> (#[trigger] terminal_names@[q2])@ == self.names@[q2]@,
                    forall|q2: int|
                        0 <= q2 < c2 ==> (#[trigger] patterns2@[q2])@ == self.patterns@[q2]@,
                decreases n_t - c2,
            {
                terminal_names.push(self.names[c2].clone());
                patterns2.push(self.patterns[c2].clone());
                c2 = c2 + 1;
            }
            let mut nonterminal_names: Vec<String> = Vec::new();
            let mut k2: usize = 0;
            while k2 < n_nt
                invariant
                    n_t == self.n_terminals,
                    n_names == self.names@.len(),
                    n_t + n_nt == n_names,
                    n_nt == self.names@.len() - n_t,
                    k2 <= n_nt,
                    nonterminal_names@.len() == k2,
                    forall|q2: int|
                        0 <= q2 < k2 ==> (#[trigger] nonterminal_names@[q2])@ == self.names@[n_t
                            + q2]@,
                decreases n_nt - k2,
            {
                nonterminal_names.push(self.names[n_t + k2].clone());
                k2 = k2 + 1;
            }
            let mut start_names: Vec<String> = Vec::new();
            let n_starts = self.start_ids.len();
            let mut s2: usize = 0;
            while s2 < n_starts
                invariant
                    self.base_wf(),
                    n_starts == self.start_ids@.len(),
                    s2 <= n_starts,
                    start_names@.len() == s2,
                    forall|q2: int|
                        0 <= q2 < s2 ==> (#[trigger] start_names@[q2])@ == self.names@[
                            self.start_ids@[q2] as int]@,
                decreases n_starts - s2,
            {
                let sid = self.start_ids[s2];
                start_names.push(self.names[sid].clone());
                s2 = s2 + 1;
            }
            let mut prod_info: Vec<(usize, usize)> = Vec::new();
            let n_prods = self.prods.len();
            let mut p2: usize = 0;
            while p2 < n_prods
                invariant
                    self.base_wf(),
                    n_prods == self.prods@.len(),
                    p2 <= n_prods,
                    prod_info@.len() == p2,
                    forall|q2: int|
                        0 <= q2 < p2 ==> (#[trigger] prod_info@[q2]).0 == self.prods@[q2].lhs
                            && prod_info@[q2].1 == self.prods@[q2].rhs@.len(),
                decreases n_prods - p2,
            {
                prod_info.push((self.prods[p2].lhs, self.prods[p2].rhs.len()));
                p2 = p2 + 1;
            }
            let t = ParseTable {
                n_terminals: n_t,
                terminal_names,
                patterns: patterns2,
                nonterminal_names,
                start_names,
                prod_info,
                states,
            };
            proof {
                assert(demands_consistent(*self)) by {
                    assert forall|i2: int, c: int, a1: Action, a2: Action|
                        0 <= i2 < self.canonical_collection@.len() && #[trigger] demanded(
                            *self,
                            i2,
                            c,
                            a1,
                        ) && #[trigger] demanded(*self, i2, c, a2) implies a1 == a2 by {
                        assert(0 <= c <= n_t) by {
                            match a1 {
                                Action::Shift(_) => {},
                                Action::Reduce(_) => {},
                                Action::Accept => {},
                            }
                        }
                        assert(row_satisfies(*self, i2, t.states@[i2]));
                        assert(t.states@[i2].actions@[c] == Some(a1));
                        assert(t.states@[i2].actions@[c] == Some(a2));
                    }
                }
            }
            Ok(t)
        } else {
            proof {
                assert(conflicts@.len() > 0);
                assert(!demands_consistent(*self)) by {
                    let e = conflicts@[0];
                    assert(conflict_real(*self, e));
                    match e {
                        GrammarError::ShiftReduceConflict {
                            state,
                            symbol,
                            shift_state,
                            reduce_production,
                        } => {
                            let c = choose|c: int|
                                (#[trigger] demanded(
                                    *self,
                                    state as int,
                                    c,
                                    Action::Reduce(reduce_production),
                                )) && (demanded(*self, state as int, c, Action::Shift(shift_state))
                                    || demanded(*self, state as int, c, Action::Accept));
                            if demanded(*self, state as int, c, Action::Shift(shift_state)) {
                                assert(Action::Reduce(reduce_production) != Action::Shift(
                                    shift_state,
                                ));
                            } else {
                                assert(Action::Reduce(reduce_production) != Action::Accept);
                            }
                        },
                        GrammarError::ReduceReduceConflict {
                            state,
                            symbol,
                            production_a,
                            production_b,
                        } => {
                            let c = choose|c: int|
                                (#[trigger] demanded(
                                    *self,
                                    state as int,
                                    c,
                                    Action::Reduce(production_a),
                                )) && demanded(*self, state as int, c, Action::Reduce(
                                    production_b,
                                ));
                            assert(Action::Reduce(production_a) != Action::Reduce(production_b));
                        },
                        _ => {
                            assert(false);
                        },
                    }
                }
            }
            Err(conflicts)
        }
    }
}


/// The table `t` is the synthesis of the context `h`: every state's row
/// satisfies and only holds that state's demands, and the metadata mirrors
/// the context.
pub open spec fn table_from(h: GrammarHelper, t: ParseTable) -> bool {
    &&& t.states@.len() == h.canonical_collection@.len()
    &&& forall|i: int|
        0 <= i < t.states@.len() ==> row_satisfies(h, i, #[trigger] t.states@[i])
            && row_cells_demanded(h, i, t.states@[i])
    &&& t.n_terminals == h.n_terminals
    &&& t.terminal_names@.len() == h.n_terminals
    &&& forall|q: int|
        0 <= q < t.terminal_names@.len() ==> (#[trigger] t.terminal_names@[q])@ == h.names@[q]@
    &&& t.patterns@.len() == h.n_terminals
    &&& forall|q: int|
        0 <= q < t.patterns@.len() ==> (#[trigger] t.patterns@[q])@ == h.patterns@[q]@
    &&& t.nonterminal_names@.len() == h.n_nts()
    &&& forall|q: int|
        0 <= q < t.nonterminal_names@.len() ==> (#[trigger] t.nonterminal_names@[q])@ == h.names@[
            h.n_terminals + q]@
    &&& t.start_names@.len() == h.start_ids@.len()
    &&& forall|q: int|
        0 <= q < t.start_names@.len() ==> (#[trigger] t.start_names@[q])@ == h.names@[
            h.start_ids@[q] as int]@
    &&& t.prod_info@.len() == h.prods@.len()
    &&& forall|q: int|
        0 <= q < t.prod_info@.len() ==> (#[trigger] t.prod_info@[q]).0 == h.prods@[q].lhs
            && t.prod_info@[q].1 == h.prods@[q].rhs@.len()
}

impl ParseTable {
    /// What the ACTION half answers for a state and a terminal or
    /// end-of-input symbol.
    pub open spec fn spec_action(&self, state: int, sym: Symbol) -> Option<Action> {
        if 0 <= state < self.states@.len() {
            let row = self.states@[state];
            match sym {
                Symbol::T(c) => if (c as int) < self.n_terminals && (c as int)
                    < row.actions@.len() {
                    row.actions@[c as int]
                } else {
                    None
                },
                Symbol::EOF => if (self.n_terminals as int) < row.actions@.len() {
                    row.actions@[self.n_terminals as int]
                } else {
                    None
                },
                _ => None,
            }
        } else {
            None
        }
    }

    /// What the GOTO half answers for a state and a nonterminal.
    pub open spec fn spec_goto_cell(&self, state: int, sym: Symbol) -> Option<usize> {
        if 0 <= state < self.states@.len() {
            let row = self.states@[state];
            match sym {
                Symbol::NT(id) => if self.n_terminals <= id && ((id - self.n_terminals) as int)
                    < row.gotos@.len() {
                    row.gotos@[id - self.n_terminals]
                } else {
                    None
                },
                _ => None,
            }
        } else {
            None
        }
    }

    pub fn num_states(&self) -> (n: usize)
        ensures
            n == self.states@.len(),
    {
        self.states.len()
    }

    /// The ACTION entry for a state and a terminal or end-of-input symbol;
    /// `None` for absent entries, other symbols, or out-of-range states.
    pub fn action(&self, state: usize, sym: Symbol) -> (r: Option<Action>)
        ensures
            r == self.spec_action(state as int, sym),
    {
        if state >= self.states.len() {
            return None;
        }
        let row = &self.states[state];
        match sym {
            Symbol::T(c) => {
                if c < self.n_terminals && c < row.actions.len() {
                    row.actions[c]
                } else {
                    None
                }
            },
            Symbol::EOF => {
                if self.n_terminals < row.actions.len() {
                    row.actions[self.n_terminals]
                } else {
                    None
                }
            },
            _ => None,
        }
    }

    /// The GOTO entry for a state and a nonterminal; `None` for absent
    /// entries, other symbols, or out-of-range states.
    pub fn goto(&self, state: usize, sym: Symbol) -> (r: Option<usize>)
        ensures
            r == self.spec_goto_cell(state as int, sym),
    {
        if state >= self.states.len() {
            return None;
        }
        let row = &self.states[state];
        match sym {
            Symbol::NT(id) => {
                if self.n_terminals <= id && id - self.n_terminals < row.gotos.len() {
                    row.gotos[id - self.n_terminals]
                } else {
                    None
                }
            },
            _ => None,
        }
    }

    /// The state parsing starts in for a declared start name. Every start
    /// shares the single initial state, state 0.
    pub fn start_state(&self, name: &String) -> (r: Option<usize>)
        ensures
            (r is Some) <==> exists|s: int|
                0 <= s < self.start_names@.len() && (#[trigger] self.start_names@[s])@ == name@,
            r is Some ==> r == Some(0usize),
    {
        let n = self.start_names.len();
        let mut s: usize = 0;
        while s < n
            invariant
                n == self.start_names@.len(),
                s <= n,
                forall|q: int| 0 <= q < s ==> (#[trigger] self.start_names@[q])@ != name@,
            decreases n - s,
        {
            if self.start_names[s] == *name {
                return Some(0);
            }
            s = s + 1;
        }
        None
    }

    /// The left-hand nonterminal id and right-hand length of a production.
    pub fn production(&self, id: usize) -> (r: Option<(usize, usize)>)
        ensures
            (id as int) < self.prod_info@.len() ==> r == Some(self.prod_info@[id as int]),
            (id as int) >= self.prod_info@.len() ==> r is None,
    {
        if id < self.prod_info.len() {
            Some(self.prod_info[id])
        } else {
            None
        }
    }
}

/// The validated, fully computed context a finished build went through.
pub open spec fn built_context(g: Grammar, h: GrammarHelper) -> bool {
    &&& h.base_wf()
    &&& h.models(g)
    &&& h.first_ok()
    &&& h.follow_ok()
    &&& h.coll_wf()
    &&& h.coll_complete()
    &&& h.canonical_collection@.len() >= 1
    &&& h.canonical_collection@[0].sset() == h.set_closure(h.seed_set())
    &&& h.seed_set().subset_of(h.canonical_collection@[0].sset())
}

/// `models` carries over to a context that shares every structural field.
pub proof fn lemma_models_same(a: GrammarHelper, b: GrammarHelper, g: Grammar)
    requires
        a.models(g),
        b.n_terminals == a.n_terminals,
        b.names == a.names,
        b.patterns == a.patterns,
        b.start_ids == a.start_ids,
        b.prods == a.prods,
        b.prod_lo == a.prod_lo,
        b.prod_hi == a.prod_hi,
    ensures
        b.models(g),
{
    assert forall|i: int| 0 <= i < b.n_names() implies b.names@[i]@ == g.all_names()[i] by {
        assert(a.names@[i]@ == g.all_names()[i]);
    }
    assert forall|i: int| 0 <= i < b.n_terminals implies b.patterns@[i]@ == g.t_patterns()[i] by {
        assert(a.patterns@[i]@ == g.t_patterns()[i]);
    }
    assert forall|q: int| 0 <= q < b.start_ids@.len() implies b.names@[b.start_ids@[
        q] as int]@ == g.start_names()[q] by {
        assert(a.names@[a.start_ids@[q] as int]@ == g.start_names()[q]);
    }
    assert forall|k: int| 0 <= k < g.nt_names().len() implies b.prod_hi@[b.n_terminals + k]
        - b.prod_lo@[b.n_terminals + k] == g.alts(k).len() by {
        assert(a.prod_hi@[a.n_terminals + k] - a.prod_lo@[a.n_terminals + k] == g.alts(k).len());
    }
    assert forall|k: int, a2: int|
        0 <= k < g.nt_names().len() && 0 <= a2 < g.alts(k).len() implies b.prod_matches(
        g,
        k,
        a2,
    ) by {
        assert(a.prod_matches(g, k, a2));
    }
}

impl Grammar {
    /// Runs the whole build: validation, FIRST and FOLLOW, the canonical
    /// collection, and table synthesis. A validation failure is returned
    /// alone; conflicts found during synthesis are all returned together.
    pub fn build(&self) -> (r: Result<ParseTable, Vec<GrammarError>>)
        requires
            self.wf(),
        ensures
            (r is Ok) ==> self.spec_valid(),
            !self.spec_valid() ==> (r matches Err(es) && es@.len() == 1 && (match es@[0] {
                GrammarError::NameConflict(n) => self.t_names().contains(n@) && exists|k: int|
                    0 <= k < self.nt_names().len() && self.nt_names()[k] == n@,
                GrammarError::InvalidSymbol(n) => !self.has_conflict() && !crate::grammar::resolvable_in(
                    self.all_names(),
                    n@,
                ) && exists|k: int, a: int, j: int|
                    0 <= k < self.nt_names().len() && 0 <= a < self.alts(k).len() && 0 <= j
                        < self.alts(k)[a].0@.len() && self.alts(k)[a].0@[j]@ == n@,
                GrammarError::StartingTerminal(n) => !self.has_conflict() && self.all_resolve()
                    && !self.nt_names().contains(n@) && exists|s: int|
                    0 <= s < self.start_names().len() && self.start_names()[s] == n@,
                _ => false,
            })),
            self.spec_valid() ==> exists|h: GrammarHelper|
                #[trigger] built_context(*self, h) && (match r {
                    Ok(t) => demands_consistent(h) && table_from(h, t),
                    Err(es) => es@.len() > 0 && !demands_consistent(h) && forall|e: int|
                        0 <= e < es@.len() ==> conflict_real(h, #[trigger] es@[e]),
                }),
    {
        let mut helper = match self.create_grammar_helper() {
            Ok(h) => h,
            Err(e) => {
                let mut es: Vec<GrammarError> = Vec::new();
                es.push(e);
                return Err(es);
            },
        };
        let ghost h0 = helper;
        helper.init();
        let ghost h1 = helper;
        helper.build();
        proof {
            lemma_models_same(h0, helper, *self);
            crate::first_follow::lemma_tables_same(h1, helper);
            crate::collection::lemma_coll_frame(h1, helper);
            assert(helper.canonical_collection@[0] == h1.canonical_collection@[0]);
            assert(h1.canonical_collection@[0].sset() == h1.set_closure(h1.seed_set()));
            assert(helper.set_closure(helper.seed_set()) == h1.set_closure(h1.seed_set()));
        }
        let r = helper.parse_table();
        proof {
            let hw = helper;
            assert(built_context(*self, hw));
            match r {
                Ok(ref t) => {
                    assert(built_context(*self, hw) && demands_consistent(hw) && table_from(
                        hw,
                        *t,
                    ));
                },
                Err(ref es) => {
                    assert(built_context(*self, hw) && es@.len() > 0 && !demands_consistent(hw));
                },
            }
        }
        r
    }
}

} // verus!
