use vstd::prelude::*;

use crate::bitset::clone_bools;
use crate::bitset::count_rows;
use crate::bitset::count_true;
use crate::bitset::lemma_count_pointwise_lt;
use crate::bitset::lemma_count_rows_bound;
use crate::bitset::lemma_count_rows_update;
use crate::bitset::or_into;
use crate::bitset::set_bit;
use crate::grammar::GrammarHelper;
use crate::grammar::Prod;
use crate::grammar::Symbol;

verus! {

/// The row/column code of a symbol: its id, or one of the two sentinel codes
/// past the name table.
pub open spec fn sym_code(s: Symbol, n_names: int) -> int {
    match s {
        Symbol::T(i) => i as int,
        Symbol::NT(i) => i as int,
        Symbol::Epsilon => n_names,
        Symbol::EOF => n_names + 1,
    }
}

/// Every symbol of `rhs[0..j]` has epsilon in its FIRST row.
pub open spec fn nullable_prefix(
    fv: Seq<Seq<bool>>,
    rhs: Seq<Symbol>,
    j: int,
    n_names: int,
) -> bool {
    forall|j2: int| #![trigger rhs[j2]] 0 <= j2 < j ==> fv[sym_code(rhs[j2], n_names)][n_names]
}

/// The row `row` absorbs everything one FIRST update step would push from
/// this production's right-hand side: the non-epsilon part of each prefix
/// symbol's FIRST while the prefix before it is nullable, and epsilon when
/// the whole right-hand side is nullable.
pub open spec fn prod_first_covered(
    fv: Seq<Seq<bool>>,
    rhs: Seq<Symbol>,
    row: Seq<bool>,
    n_names: int,
) -> bool {
    &&& (nullable_prefix(fv, rhs, rhs.len() as int, n_names) ==> row[n_names])
    &&& (forall|j: int, x: int|
        #![trigger fv[sym_code(rhs[j], n_names)][x]]
        0 <= j < rhs.len() && 0 <= x < n_names + 2 && x != n_names && fv[sym_code(
            rhs[j],
            n_names,
        )][x] && nullable_prefix(fv, rhs, j, n_names) ==> row[x])
}

/// One production's FIRST fixed-point condition: its left-hand side's row
/// absorbs the production's step.
pub open spec fn prod_first_stable(
    fv: Seq<Seq<bool>>,
    rhs: Seq<Symbol>,
    lhs: int,
    n_names: int,
) -> bool {
    prod_first_covered(fv, rhs, fv[lhs], n_names)
}

/// A candidate FIRST table absorbs the seeds and every production's update
/// step: the diagonal bits of the terminals and sentinels are present, and
/// each production's step adds nothing.
pub open spec fn first_table_closed(
    fv: Seq<Seq<bool>>,
    prods: Seq<Prod>,
    n_t: int,
    n_names: int,
) -> bool {
    &&& forall|c: int| #![trigger fv[c]] (0 <= c < n_t || n_names <= c < n_names + 2) ==> fv[c][c]
    &&& forall|p: int|
        0 <= p < prods.len() ==> prod_first_stable(
            fv,
            (#[trigger] prods[p]).rhs@,
            prods[p].lhs as int,
            n_names,
        )
}

/// Table `a` lies pointwise below table `b`.
pub open spec fn table_below(a: Seq<Seq<bool>>, b: Seq<Seq<bool>>, n: int, w: int) -> bool {
    forall|c: int, x: int| #![trigger a[c][x]] 0 <= c < n && 0 <= x < w && a[c][x] ==> b[c][x]
}

/// A candidate table has the working tables' shape.
pub open spec fn table_shape(m: Seq<Seq<bool>>, n: int, w: int) -> bool {
    m.len() == n && forall|c: int| 0 <= c < n ==> (#[trigger] m[c]).len() == w
}

/// The table `fv` lies below every closed candidate.
pub open spec fn below_all_closed(
    fv: Seq<Seq<bool>>,
    prods: Seq<Prod>,
    n_t: int,
    n_names: int,
) -> bool {
    forall|m: Seq<Seq<bool>>|
        table_shape(m, n_names + 2, n_names + 2) && #[trigger] first_table_closed(
            m,
            prods,
            n_t,
            n_names,
        ) ==> table_below(fv, m, n_names + 2, n_names + 2)
}

/// The row for nonterminal `k` lies below its row in every closed candidate.
pub open spec fn row_below_all(
    row: Seq<bool>,
    k: int,
    prods: Seq<Prod>,
    n_t: int,
    n_names: int,
) -> bool {
    forall|m: Seq<Seq<bool>>|
        table_shape(m, n_names + 2, n_names + 2) && #[trigger] first_table_closed(
            m,
            prods,
            n_t,
            n_names,
        ) ==> (forall|x: int| 0 <= x < n_names + 2 && #[trigger] row[x] ==> m[k][x])
}

impl GrammarHelper {
    /// The computed FIRST table is the least solution: it lies below every
    /// closed candidate of the right shape.
    pub open spec fn first_least(&self) -> bool {
        below_all_closed(
            self.first_view(),
            self.prods@,
            self.n_terminals as int,
            self.n_names(),
        )
    }

    /// The FIRST table as a mathematical value: row `c` holds the symbol
    /// codes in FIRST of the symbol with code `c`.
    pub open spec fn first_view(&self) -> Seq<Seq<bool>> {
        self.first_sets@.map(|i: int, r: Vec<bool>| r@)
    }

    /// The FOLLOW table as a mathematical value: row `n` (a nonterminal id)
    /// holds the symbol codes in FOLLOW of that nonterminal.
    pub open spec fn follow_view(&self) -> Seq<Seq<bool>> {
        self.follow_sets@.map(|i: int, r: Vec<bool>| r@)
    }

    pub open spec fn first_wf(&self) -> bool {
        &&& self.first_view().len() == self.n_codes()
        &&& forall|c: int|
            0 <= c < self.n_codes() ==> #[trigger] self.first_view()[c].len() == self.n_codes()
    }

    /// FIRST of a terminal is exactly itself, FIRST of epsilon is epsilon,
    /// FIRST of end-of-input is end-of-input.
    pub open spec fn first_seeded(&self) -> bool {
        forall|c: int, x: int|
            #![trigger self.first_view()[c][x]]
            0 <= c < self.n_codes() && 0 <= x < self.n_codes() && (c < self.n_terminals || c
                >= self.n_names()) ==> (self.first_view()[c][x] <==> x == c)
    }

    /// A nonterminal's FIRST row holds only terminals and epsilon.
    pub open spec fn first_nt_terminals(&self) -> bool {
        forall|c: int, x: int|
            #![trigger self.first_view()[c][x]]
            self.is_nt_id(c) && 0 <= x < self.n_codes() && self.first_view()[c][x] ==> (0 <= x
                < self.n_terminals || x == self.eps_code())
    }

    /// The FIRST fixed point: no production's update step adds anything.
    pub open spec fn first_stable(&self) -> bool {
        forall|p: int|
            0 <= p < self.prods@.len() ==> prod_first_stable(
                self.first_view(),
                (#[trigger] self.prods@[p]).rhs@,
                self.prods@[p].lhs as int,
                self.n_names(),
            )
    }

    /// Everything `compute_first_sets` establishes: the table is a closed
    /// solution of the FIRST equations, and the least one.
    pub open spec fn first_ok(&self) -> bool {
        &&& self.first_wf()
        &&& self.first_seeded()
        &&& self.first_nt_terminals()
        &&& self.first_stable()
        &&& self.first_least()
    }

    /// The table index of a symbol's code.
    fn sym_code_idx(&self, s: Symbol) -> (c: usize)
        requires
            self.base_wf(),
            match s {
                Symbol::T(i) => (i as int) < self.n_names(),
                Symbol::NT(i) => (i as int) < self.n_names(),
                _ => true,
            },
        ensures
            c as int == sym_code(s, self.n_names()),
            (c as int) < self.n_codes(),
    {
        match s {
            Symbol::T(i) => i,
            Symbol::NT(i) => i,
            Symbol::Epsilon => self.names.len(),
            Symbol::EOF => self.names.len() + 1,
        }
    }

    /// Computes the FIRST sets by naive fixed-point iteration: terminals and
    /// the two sentinels are seeded with themselves, and update passes over
    /// every production run until one pass changes nothing.
    pub fn compute_first_sets(&mut self)
        requires
            old(self).base_wf(),
        ensures
            final(self).base_wf(),
            final(self).n_terminals == old(self).n_terminals,
            final(self).names == old(self).names,
            final(self).patterns == old(self).patterns,
            final(self).start_ids == old(self).start_ids,
            final(self).prods == old(self).prods,
            final(self).prod_lo == old(self).prod_lo,
            final(self).prod_hi == old(self).prod_hi,
            final(self).follow_sets == old(self).follow_sets,
            final(self).canonical_collection == old(self).canonical_collection,
            final(self).first_ok(),
    {
        let n_names = self.names.len();
        let u = n_names + 2;
        let mut fs: Vec<Vec<bool>> = Vec::new();
        let mut c: usize = 0;
        while c < u
            invariant
                self.base_wf(),
                n_names == self.names@.len(),
                u == n_names + 2,
                c <= u,
                fs@.len() == c,
                forall|q: int| 0 <= q < c ==> (#[trigger] fs@[q])@.len() == u,
                forall|q: int, x: int|
                    #![trigger fs@[q]@[x]]
                    0 <= q < c && 0 <= x < u ==> (fs@[q]@[x] <==> (x == q && (q
                        < self.n_terminals || q >= n_names))),
            decreases u - c,
        {
            let mut row: Vec<bool> = vec![false; u];
            if c < self.n_terminals || c >= n_names {
                let _seeded = set_bit(&mut row, c);
            }
            fs.push(row);
            c = c + 1;
        }
        self.first_sets = fs;
        proof {
            assert(self.first_wf());
            assert(self.first_seeded());
            assert(self.first_nt_terminals());
            assert(below_all_closed(
                self.first_view(),
                self.prods@,
                self.n_terminals as int,
                n_names as int,
            )) by {
                assert forall|m: Seq<Seq<bool>>|
                    table_shape(m, n_names + 2, n_names + 2) && #[trigger] first_table_closed(
                        m,
                        self.prods@,
                        self.n_terminals as int,
                        n_names as int,
                    ) implies table_below(self.first_view(), m, n_names + 2, n_names + 2) by {
                    assert forall|c2: int, x: int|
                        #![trigger self.first_view()[c2][x]]
                        0 <= c2 < n_names + 2 && 0 <= x < n_names + 2 && self.first_view()[c2][
                        x] implies m[c2][x] by {
                        assert(x == c2 && (c2 < self.n_terminals || c2 >= n_names));
                        assert(m[c2][c2]);
                    }
                }
            }
        }

        proof {
            assert forall|cc: int|
                0 <= cc < self.first_view().len() implies self.first_view()[cc].len() <= (
            u as int) by {}
            lemma_count_rows_bound(self.first_view(), u as int);
        }
        proof {
            crate::grammar::lemma_base_wf_same(*old(self), *self);
        }
        let ghost s0 = *self;
        let mut changed = true;
        while changed
            invariant
                self.base_wf(),
                self.n_terminals == s0.n_terminals,
                self.names == s0.names,
                self.patterns == s0.patterns,
                self.start_ids == s0.start_ids,
                self.prods == s0.prods,
                self.prod_lo == s0.prod_lo,
                self.prod_hi == s0.prod_hi,
                self.follow_sets == s0.follow_sets,
                self.canonical_collection == s0.canonical_collection,
                n_names == self.names@.len(),
                u == n_names + 2,
                self.first_wf(),
                self.first_seeded(),
                self.first_nt_terminals(),
                below_all_closed(
                    self.first_view(),
                    self.prods@,
                    self.n_terminals as int,
                    n_names as int,
                ),
                !changed ==> self.first_stable(),
                count_rows(self.first_view()) <= (u * u) as nat,
            decreases
                    (u * u) as int - count_rows(self.first_view()) + (if changed {
                        1int
                    } else {
                        0int
                    }),
        {
            changed = self.first_pass();
            proof {
                assert forall|cc: int|
                    0 <= cc < self.first_view().len() implies self.first_view()[cc].len() <= (
                u as int) by {}
                lemma_count_rows_bound(self.first_view(), u as int);
            }
        }
    }

    /// One FIRST update pass over every production of every nonterminal.
    /// Reports whether anything was added; when nothing was, the table is
    /// unchanged and stable.
    fn first_pass(&mut self) -> (changed: bool)
        requires
            old(self).base_wf(),
            old(self).first_wf(),
            old(self).first_seeded(),
            old(self).first_nt_terminals(),
            below_all_closed(
                old(self).first_view(),
                old(self).prods@,
                old(self).n_terminals as int,
                old(self).n_names(),
            ),
        ensures
            final(self).base_wf(),
            final(self).n_terminals == old(self).n_terminals,
            final(self).names == old(self).names,
            final(self).patterns == old(self).patterns,
            final(self).start_ids == old(self).start_ids,
            final(self).prods == old(self).prods,
            final(self).prod_lo == old(self).prod_lo,
            final(self).prod_hi == old(self).prod_hi,
            final(self).follow_sets == old(self).follow_sets,
            final(self).canonical_collection == old(self).canonical_collection,
            final(self).first_wf(),
            final(self).first_seeded(),
            final(self).first_nt_terminals(),
            below_all_closed(
                final(self).first_view(),
                final(self).prods@,
                final(self).n_terminals as int,
                final(self).n_names(),
            ),
            count_rows(final(self).first_view()) >= count_rows(old(self).first_view()),
            changed ==> count_rows(final(self).first_view()) > count_rows(
                old(self).first_view(),
            ),
            !changed ==> final(self).first_view() == old(self).first_view(),
            !changed ==> final(self).first_stable(),
    {
        let n_names = self.names.len();
        let u = n_names + 2;
        let eps_i = n_names;
        let ghost fv0 = self.first_view();
        let ghost s0 = *self;
        let mut changed = false;
        let mut k = self.n_terminals;
        while k < n_names
            invariant
                self.base_wf(),
                self.n_terminals == s0.n_terminals,
                self.names == s0.names,
                self.patterns == s0.patterns,
                self.start_ids == s0.start_ids,
                self.prods == s0.prods,
                self.prod_lo == s0.prod_lo,
                self.prod_hi == s0.prod_hi,
                self.follow_sets == s0.follow_sets,
                self.canonical_collection == s0.canonical_collection,
                fv0 == s0.first_view(),
                s0.base_wf(),
                s0.first_wf(),
                n_names == self.names@.len(),
                u == n_names + 2,
                eps_i == n_names,
                self.n_terminals <= k <= n_names,
                self.first_wf(),
                self.first_seeded(),
                self.first_nt_terminals(),
                below_all_closed(
                    self.first_view(),
                    self.prods@,
                    self.n_terminals as int,
                    n_names as int,
                ),
                forall|cc: int, x: int|
                    #![trigger fv0[cc][x]]
                    0 <= cc < u && 0 <= x < u && fv0[cc][x] ==> self.first_view()[cc][x],
                count_rows(self.first_view()) >= count_rows(fv0),
                changed ==> count_rows(self.first_view()) > count_rows(fv0),
                !changed ==> self.first_view() == fv0,
                !changed ==> forall|p: int|
                    0 <= p < self.prods@.len() && (#[trigger] self.prods@[p]).lhs < k
                        ==> prod_first_stable(
                        self.first_view(),
                        self.prods@[p].rhs@,
                        self.prods@[p].lhs as int,
                        n_names as int,
                    ),
            decreases n_names - k,
        {
            proof {
                assert(self.is_nt_id(k as int));
                assert(self.prod_lo@[k as int] <= self.prod_hi@[k as int] <= self.prods@.len());
                assert(self.first_view()[k as int] == self.first_sets@[k as int]@);
                assert(self.first_view()[k as int].len() == self.n_codes());
            }
            let mut row = clone_bools(&self.first_sets[k]);
            let ghost row0 = row@;
            proof {
                assert(row_below_all(
                    row@,
                    k as int,
                    self.prods@,
                    self.n_terminals as int,
                    n_names as int,
                )) by {
                    assert forall|m: Seq<Seq<bool>>|
                        table_shape(m, n_names + 2, n_names + 2) && #[trigger] first_table_closed(
                            m,
                            self.prods@,
                            self.n_terminals as int,
                            n_names as int,
                        ) implies (forall|x: int|
                        0 <= x < n_names + 2 && #[trigger] row@[x] ==> m[k as int][x]) by {
                        assert(table_below(self.first_view(), m, n_names + 2, n_names + 2));
                        assert forall|x: int|
                            0 <= x < n_names + 2 && #[trigger] row@[x] implies m[k as int][x] by {
                            assert(self.first_view()[k as int][x]);
                        }
                    }
                }
            }
            let mut row_changed = false;
            let lo = self.prod_lo[k];
            let hi = self.prod_hi[k];
            let mut p = lo;
            while p < hi
                invariant
                    self.base_wf(),
                    self.first_wf(),
                    self.first_seeded(),
                    self.first_nt_terminals(),
                    n_names == self.names@.len(),
                    u == n_names + 2,
                    eps_i == n_names,
                    self.n_terminals <= k < n_names,
                    lo == self.prod_lo@[k as int],
                    hi == self.prod_hi@[k as int],
                    lo <= p <= hi,
                    hi <= self.prods@.len(),
                    row0 == self.first_view()[k as int],
                    row@.len() == u,
                    below_all_closed(
                        self.first_view(),
                        self.prods@,
                        self.n_terminals as int,
                        n_names as int,
                    ),
                    row_below_all(
                        row@,
                        k as int,
                        self.prods@,
                        self.n_terminals as int,
                        n_names as int,
                    ),
                    forall|x: int| #![trigger row0[x]] 0 <= x < u && row0[x] ==> row@[x],
                    forall|x: int|
                        #![trigger row@[x]]
                        0 <= x < u && row@[x] ==> (0 <= x < self.n_terminals || x == eps_i),
                    row_changed ==> exists|x: int|
                        #![trigger row@[x]]
                        0 <= x < u && row@[x] && !row0[x],
                    !row_changed ==> row@ == row0,
                    forall|p2: int|
                        lo <= p2 < p ==> prod_first_covered(
                            self.first_view(),
                            (#[trigger] self.prods@[p2]).rhs@,
                            row@,
                            n_names as int,
                        ),
                decreases hi - p,
            {
                let rhs_len = self.prods[p].rhs.len();
                let mut j: usize = 0;
                let mut all_nullable = true;
                while j < rhs_len && all_nullable
                    invariant
                        self.base_wf(),
                        self.first_wf(),
                        self.first_seeded(),
                        self.first_nt_terminals(),
                        n_names == self.names@.len(),
                        u == n_names + 2,
                        eps_i == n_names,
                        self.n_terminals <= k < n_names,
                        lo == self.prod_lo@[k as int],
                        hi == self.prod_hi@[k as int],
                        lo <= p < hi,
                        hi <= self.prods@.len(),
                        rhs_len == self.prods@[p as int].rhs@.len(),
                        j <= rhs_len,
                        row0 == self.first_view()[k as int],
                        row@.len() == u,
                        below_all_closed(
                            self.first_view(),
                            self.prods@,
                            self.n_terminals as int,
                            n_names as int,
                        ),
                        row_below_all(
                            row@,
                            k as int,
                            self.prods@,
                            self.n_terminals as int,
                            n_names as int,
                        ),
                        forall|x: int| #![trigger row0[x]] 0 <= x < u && row0[x] ==> row@[x],
                        forall|x: int|
                            #![trigger row@[x]]
                            0 <= x < u && row@[x] ==> (0 <= x < self.n_terminals || x == eps_i),
                        row_changed ==> exists|x: int|
                            #![trigger row@[x]]
                            0 <= x < u && row@[x] && !row0[x],
                        !row_changed ==> row@ == row0,
                        all_nullable ==> nullable_prefix(
                            self.first_view(),
                            self.prods@[p as int].rhs@,
                            j as int,
                            n_names as int,
                        ),
                        !all_nullable ==> j >= 1 && nullable_prefix(
                            self.first_view(),
                            self.prods@[p as int].rhs@,
                            j - 1,
                            n_names as int,
                        ) && !self.first_view()[sym_code(
                            self.prods@[p as int].rhs@[j - 1],
                            n_names as int,
                        )][eps_i as int],
                        forall|j2: int, x: int|
                            #![trigger self.first_view()[sym_code(self.prods@[p as int].rhs@[j2], n_names as int)][x]]
                            0 <= j2 < j && 0 <= x < u && x != eps_i && self.first_view()[sym_code(
                                self.prods@[p as int].rhs@[j2],
                                n_names as int,
                            )][x] ==> row@[x],
                        forall|p2: int|
                            lo <= p2 < p ==> prod_first_covered(
                                self.first_view(),
                                (#[trigger] self.prods@[p2]).rhs@,
                                row@,
                                n_names as int,
                            ),
                    decreases rhs_len - j,
                {
                    let sym = self.prods[p].rhs[j];
                    let cidx = self.sym_code_idx(sym);
                    proof {
                        assert(self.first_view()[cidx as int] == self.first_sets@[cidx as int]@);
                        assert(self.first_view()[cidx as int].len() == self.n_codes());
                    }
                    let ghost row_before = row@;
                    let g = or_into(&mut row, &self.first_sets[cidx], eps_i);
                    if g {
                        row_changed = true;
                    }
                    proof {
                        let src = self.first_sets@[cidx as int]@;
                        assert forall|x: int| 0 <= x < u && row_before[x] implies row@[x] by {}
                        assert forall|x: int| 0 <= x < u && row0[x] implies row@[x] by {
                            assert(row_before[x]);
                        }
                        assert forall|x: int| 0 <= x < u && row@[x] implies (0 <= x
                            < self.n_terminals || x == eps_i) by {
                            if !row_before[x] {
                                assert(src[x] && x != eps_i);
                                assert(self.first_view()[cidx as int][x]);
                                assert(self.wf_prod(self.prods@[p as int]));
                                assert(self.wf_sym(self.prods@[p as int].rhs@[j as int]));
                                match sym {
                                    Symbol::T(i) => {
                                        assert(self.first_view()[cidx as int][x] <==> x
                                            == cidx as int);
                                    },
                                    Symbol::NT(i) => {
                                        assert(self.is_nt_id(cidx as int));
                                    },
                                    Symbol::Epsilon => {
                                        assert(self.first_view()[cidx as int][x] <==> x
                                            == cidx as int);
                                        assert(false);
                                    },
                                    Symbol::EOF => {
                                        assert(false);
                                    },
                                }
                            }
                        }
                        if g {
                            let w = choose|x: int|
                                0 <= x < src.len() && !row_before[x] && src[x] && x != eps_i;
                            assert(row@[w] && !row0[w]);
                        }
                        if !g && row_changed {
                            let w = choose|x: int| 0 <= x < u && row_before[x] && !row0[x];
                            assert(row@[w]);
                        }
                        if !row_changed {
                            assert(row@ =~= row0);
                        }
                        assert(self.prod_range_of(k as int, p as int));
                        assert(self.prods@[p as int].lhs == k);
                        assert(row_below_all(
                            row@,
                            k as int,
                            self.prods@,
                            self.n_terminals as int,
                            n_names as int,
                        )) by {
                            let rhs = self.prods@[p as int].rhs@;
                            assert forall|m: Seq<Seq<bool>>|
                                table_shape(m, n_names + 2, n_names + 2)
                                    && #[trigger] first_table_closed(
                                    m,
                                    self.prods@,
                                    self.n_terminals as int,
                                    n_names as int,
                                ) implies (forall|x: int|
                                0 <= x < n_names + 2 && #[trigger] row@[x] ==> m[k as int][x]) by {
                                assert(table_below(
                                    self.first_view(),
                                    m,
                                    n_names + 2,
                                    n_names + 2,
                                ));
                                assert(prod_first_stable(m, rhs, k as int, n_names as int));
                                assert forall|x: int|
                                    0 <= x < n_names + 2 && #[trigger] row@[x] implies m[k as int][x] by {
                                    if row_before[x] {
                                    } else {
                                        assert(src[x] && x != eps_i);
                                        assert(self.first_view()[cidx as int][x]);
                                        assert(m[cidx as int][x]);
                                        assert(nullable_prefix(m, rhs, j as int, n_names as int))
                                            by {
                                            assert forall|j2: int|
                                                #![trigger rhs[j2]]
                                                0 <= j2 < j implies m[sym_code(
                                                rhs[j2],
                                                n_names as int,
                                            )][n_names as int] by {
                                                assert(self.first_view()[sym_code(
                                                    rhs[j2],
                                                    n_names as int,
                                                )][eps_i as int]);
                                                assert(self.wf_sym(rhs[j2]));
                                            }
                                        }
                                        assert(m[sym_code(rhs[j as int], n_names as int)][x]);
                                        assert(m[k as int][x]);
                                    }
                                }
                            }
                        }
                    }
                    if !self.first_sets[cidx][eps_i] {
                        all_nullable = false;
                    }
                    j = j + 1;
                }
                if all_nullable {
                    let ghost row_before = row@;
                    let g = set_bit(&mut row, eps_i);
                    if g {
                        row_changed = true;
                    }
                    proof {
                        assert forall|x: int| 0 <= x < u && row_before[x] implies row@[x] by {}
                        if g {
                            assert(row@[eps_i as int] && !row0[eps_i as int]);
                        }
                        if !g && row_changed {
                            let w = choose|x: int| 0 <= x < u && row_before[x] && !row0[x];
                            assert(row@[w]);
                        }
                        if !row_changed {
                            assert(row@ =~= row0);
                        }
                        assert(self.prod_range_of(k as int, p as int));
                        assert(self.prods@[p as int].lhs == k);
                        assert(row_below_all(
                            row@,
                            k as int,
                            self.prods@,
                            self.n_terminals as int,
                            n_names as int,
                        )) by {
                            let rhs = self.prods@[p as int].rhs@;
                            assert forall|m: Seq<Seq<bool>>|
                                table_shape(m, n_names + 2, n_names + 2)
                                    && #[trigger] first_table_closed(
                                    m,
                                    self.prods@,
                                    self.n_terminals as int,
                                    n_names as int,
                                ) implies (forall|x: int|
                                0 <= x < n_names + 2 && #[trigger] row@[x] ==> m[k as int][x]) by {
                                assert(table_below(
                                    self.first_view(),
                                    m,
                                    n_names + 2,
                                    n_names + 2,
                                ));
                                assert(prod_first_stable(m, rhs, k as int, n_names as int));
                                assert forall|x: int|
                                    0 <= x < n_names + 2 && #[trigger] row@[x] implies m[k as int][x] by {
                                    if row_before[x] {
                                    } else {
                                        assert(x == eps_i);
                                        assert(nullable_prefix(
                                            m,
                                            rhs,
                                            rhs.len() as int,
                                            n_names as int,
                                        )) by {
                                            assert forall|j2: int|
                                                #![trigger rhs[j2]]
                                                0 <= j2 < rhs.len() implies m[sym_code(
                                                rhs[j2],
                                                n_names as int,
                                            )][n_names as int] by {
                                                assert(self.first_view()[sym_code(
                                                    rhs[j2],
                                                    n_names as int,
                                                )][eps_i as int]);
                                                assert(self.wf_sym(rhs[j2]));
                                            }
                                        }
                                        assert(m[k as int][eps_i as int]);
                                    }
                                }
                            }
                        }
                    }
                }
                proof {
                    assert(prod_first_covered(
                        self.first_view(),
                        self.prods@[p as int].rhs@,
                        row@,
                        n_names as int,
                    )) by {
                        let fv = self.first_view();
                        let rhs = self.prods@[p as int].rhs@;
                        if nullable_prefix(fv, rhs, rhs.len() as int, n_names as int) {
                            assert(all_nullable) by {
                                if !all_nullable {
                                    assert(rhs[j - 1] == rhs[j - 1]);
                                }
                            }
                        }
                        assert forall|j2: int, x: int|
                            0 <= j2 < rhs.len() && 0 <= x < u && x != eps_i && fv[sym_code(
                                rhs[j2],
                                n_names as int,
                            )][x] && nullable_prefix(fv, rhs, j2, n_names as int) implies row@[x] by {
                            if j2 >= j {
                                assert(!all_nullable);
                                assert(rhs[j - 1] == rhs[j - 1]);
                                assert(!fv[sym_code(rhs[j - 1], n_names as int)][eps_i as int]);
                                assert(false);
                            }
                        }
                    }
                }
                p = p + 1;
            }
            let ghost pre = self.first_view();
            let ghost sk = *self;
            if row_changed {
                proof {
                    let w = choose|x: int| 0 <= x < u && row@[x] && !row0[x];
                    lemma_count_pointwise_lt(row0, row@, w);
                    lemma_count_rows_update(pre, k as int, row@);
                }
                self.first_sets.set(k, row);
                changed = true;
                proof {
                    assert(self.first_view() =~= pre.update(k as int, row@));
                    crate::grammar::lemma_base_wf_same(sk, *self);
                    assert(count_rows(self.first_view()) + count_true(row0) == count_rows(pre)
                        + count_true(row@));
                    assert(count_rows(self.first_view()) > count_rows(pre));
                    assert forall|c2: int|
                        0 <= c2 < self.n_codes() implies self.first_view()[c2].len()
                        == self.n_codes() by {
                        if c2 != k {
                            assert(self.first_view()[c2] == pre[c2]);
                            assert(sk.first_view()[c2].len() == sk.n_codes());
                        }
                    }
                    assert forall|c2: int, x: int|
                        0 <= c2 < self.n_codes() && 0 <= x < self.n_codes() && (c2
                            < self.n_terminals || c2 >= self.n_names()) implies (self.first_view()[
                        c2][x] <==> x == c2) by {
                        assert(c2 != k);
                        assert(self.first_view()[c2] == pre[c2]);
                        assert(sk.first_view()[c2][x] <==> x == c2);
                    }
                    assert forall|c2: int, x: int|
                        self.is_nt_id(c2) && 0 <= x < self.n_codes() && self.first_view()[c2][
                        x] implies (0 <= x < self.n_terminals || x == self.eps_code()) by {
                        if c2 == k {
                            assert(row@[x]);
                        } else {
                            assert(self.first_view()[c2] == pre[c2]);
                            assert(sk.first_view()[c2][x]);
                        }
                    }
                    assert forall|c2: int, x: int|
                        0 <= c2 < u && 0 <= x < u && fv0[c2][x] implies self.first_view()[c2][
                    x] by {
                        if c2 == k {
                            assert(pre[k as int][x]);
                            assert(row0[x]);
                        } else {
                            assert(self.first_view()[c2] == pre[c2]);
                        }
                    }
                    assert(below_all_closed(
                        self.first_view(),
                        self.prods@,
                        self.n_terminals as int,
                        n_names as int,
                    )) by {
                        assert forall|m: Seq<Seq<bool>>|
                            table_shape(m, n_names + 2, n_names + 2)
                                && #[trigger] first_table_closed(
                                m,
                                self.prods@,
                                self.n_terminals as int,
                                n_names as int,
                            ) implies table_below(
                            self.first_view(),
                            m,
                            n_names + 2,
                            n_names + 2,
                        ) by {
                            assert(table_below(pre, m, n_names + 2, n_names + 2));
                            assert forall|c2: int, x: int|
                                #![trigger self.first_view()[c2][x]]
                                0 <= c2 < n_names + 2 && 0 <= x < n_names + 2
                                    && self.first_view()[c2][x] implies m[c2][x] by {
                                if c2 == k {
                                    assert(row@[x]);
                                } else {
                                    assert(pre[c2][x]);
                                }
                            }
                        }
                    }
                }
            } else {
                proof {
                    assert(row@ == row0);
                    if !changed {
                        assert forall|p2: int|
                            0 <= p2 < self.prods@.len() && (#[trigger] self.prods@[p2]).lhs < k
                                + 1 implies prod_first_stable(
                            self.first_view(),
                            self.prods@[p2].rhs@,
                            self.prods@[p2].lhs as int,
                            n_names as int,
                        ) by {
                            if self.prods@[p2].lhs == k {
                                crate::grammar::lemma_prod_in_own_range(*self, p2);
                                assert(lo <= p2 < hi);
                                assert(prod_first_covered(
                                    self.first_view(),
                                    self.prods@[p2].rhs@,
                                    row@,
                                    n_names as int,
                                ));
                                assert(row@ == self.first_view()[k as int]);
                            }
                        }
                    }
                }
            }
            k = k + 1;
        }
        proof {
            if !changed {
                assert forall|p: int| 0 <= p < self.prods@.len() implies prod_first_stable(
                    self.first_view(),
                    (#[trigger] self.prods@[p]).rhs@,
                    self.prods@[p].lhs as int,
                    n_names as int,
                ) by {
                    assert(self.prods@[p].lhs < n_names);
                }
                assert(self.first_view() =~~= fv0);
            }
        }
        changed
    }
}


/// Code `x` lies in FIRST of the suffix `rhs[from..]`: some position carries
/// it and every position before it (within the suffix) is nullable.
pub open spec fn sfx_first_has(
    fv: Seq<Seq<bool>>,
    rhs: Seq<Symbol>,
    from: int,
    x: int,
    n_names: int,
) -> bool {
    exists|j: int|
        #![trigger rhs[j]]
        from <= j < rhs.len() && fv[sym_code(rhs[j], n_names)][x] && (forall|j2: int|
            #![trigger rhs[j2]]
            from <= j2 < j ==> fv[sym_code(rhs[j2], n_names)][n_names])
}

/// The suffix `rhs[from..]` is nullable: every position has epsilon in its
/// FIRST row. An empty suffix is nullable.
pub open spec fn sfx_nullable(fv: Seq<Seq<bool>>, rhs: Seq<Symbol>, from: int, n_names: int) -> bool {
    forall|j: int| #![trigger rhs[j]] from <= j < rhs.len() ==> fv[sym_code(rhs[j], n_names)][n_names]
}

/// The row `row` (FOLLOW of the nonterminal at `rhs[i]`) absorbs one FOLLOW
/// update step: the non-epsilon FIRST of the suffix after position `i`, and,
/// when that suffix is nullable, the whole of `lhs_row` (FOLLOW of the
/// producing nonterminal).
pub open spec fn prod_follow_covered(
    fv: Seq<Seq<bool>>,
    rhs: Seq<Symbol>,
    i: int,
    lhs_row: Seq<bool>,
    row: Seq<bool>,
    n_names: int,
) -> bool {
    &&& (forall|x: int|
        #![trigger row[x]]
        0 <= x < n_names + 2 && x != n_names && sfx_first_has(fv, rhs, i + 1, x, n_names)
            ==> row[x])
    &&& (sfx_nullable(fv, rhs, i + 1, n_names) ==> forall|x: int|
        #![trigger lhs_row[x]]
        0 <= x < n_names + 2 && lhs_row[x] ==> row[x])
}

/// A candidate FOLLOW table absorbs the seeds and every update step: end-of-
/// input sits in every start's row, and each nonterminal occurrence's step
/// adds nothing, judged against the fixed FIRST table `fv`.
pub open spec fn follow_table_closed(
    fw: Seq<Seq<bool>>,
    fv: Seq<Seq<bool>>,
    prods: Seq<Prod>,
    start_ids: Seq<usize>,
    n_t: int,
    n_names: int,
) -> bool {
    &&& forall|s: int| 0 <= s < start_ids.len() ==> fw[#[trigger] start_ids[s] as int][n_names + 1]
    &&& forall|p: int, i: int|
        #![trigger prods[p].rhs@[i]]
        0 <= p < prods.len() && 0 <= i < prods[p].rhs@.len() && prods[p].rhs@[i] is NT
            ==> prod_follow_covered(
            fv,
            prods[p].rhs@,
            i,
            fw[prods[p].lhs as int],
            fw[sym_code(prods[p].rhs@[i], n_names)],
            n_names,
        )
}

/// The FOLLOW table `fw` lies below every closed candidate.
pub open spec fn fbelow_all_closed(
    fw: Seq<Seq<bool>>,
    fv: Seq<Seq<bool>>,
    prods: Seq<Prod>,
    start_ids: Seq<usize>,
    n_t: int,
    n_names: int,
) -> bool {
    forall|m: Seq<Seq<bool>>|
        table_shape(m, n_names, n_names + 2) && #[trigger] follow_table_closed(
            m,
            fv,
            prods,
            start_ids,
            n_t,
            n_names,
        ) ==> table_below(fw, m, n_names, n_names + 2)
}

/// The FOLLOW row for nonterminal `b` lies below its row in every closed
/// candidate.
pub open spec fn frow_below_all(
    row: Seq<bool>,
    b: int,
    fv: Seq<Seq<bool>>,
    prods: Seq<Prod>,
    start_ids: Seq<usize>,
    n_t: int,
    n_names: int,
) -> bool {
    forall|m: Seq<Seq<bool>>|
        table_shape(m, n_names, n_names + 2) && #[trigger] follow_table_closed(
            m,
            fv,
            prods,
            start_ids,
            n_t,
            n_names,
        ) ==> (forall|x: int| 0 <= x < n_names + 2 && #[trigger] row[x] ==> m[b][x])
}

impl GrammarHelper {
    /// The computed FOLLOW table is the least solution: it lies below every
    /// closed candidate of the right shape.
    pub open spec fn follow_least(&self) -> bool {
        fbelow_all_closed(
            self.follow_view(),
            self.first_view(),
            self.prods@,
            self.start_ids@,
            self.n_terminals as int,
            self.n_names(),
        )
    }

    pub open spec fn follow_wf(&self) -> bool {
        &&& self.follow_view().len() == self.n_names()
        &&& forall|c: int|
            0 <= c < self.n_names() ==> #[trigger] self.follow_view()[c].len() == self.n_codes()
    }

    /// End-of-input sits in FOLLOW of every declared start nonterminal.
    pub open spec fn follow_starts_eof(&self) -> bool {
        forall|s: int|
            0 <= s < self.start_ids@.len() ==> self.follow_view()[#[trigger] self.start_ids@[
                s] as int][self.eof_code()]
    }

    /// A FOLLOW row holds only terminals and end-of-input.
    pub open spec fn follow_terminals_eof(&self) -> bool {
        forall|c: int, x: int|
            #![trigger self.follow_view()[c][x]]
            0 <= c < self.n_names() && 0 <= x < self.n_codes() && self.follow_view()[c][x] ==> (0
                <= x < self.n_terminals || x == self.eof_code())
    }

    /// The FOLLOW fixed point: no production position's update step adds
    /// anything.
    pub open spec fn follow_stable(&self) -> bool {
        forall|p: int, i: int|
            #![trigger self.prods@[p].rhs@[i]]
            0 <= p < self.prods@.len() && 0 <= i < self.prods@[p].rhs@.len() && self.prods@[
                p].rhs@[i] is NT ==> prod_follow_covered(
                self.first_view(),
                self.prods@[p].rhs@,
                i,
                self.follow_view()[self.prods@[p].lhs as int],
                self.follow_view()[sym_code(self.prods@[p].rhs@[i], self.n_names())],
                self.n_names(),
            )
    }

    /// Everything `compute_follow_sets` establishes: the table is a closed
    /// solution of the FOLLOW equations, and the least one.
    pub open spec fn follow_ok(&self) -> bool {
        &&& self.follow_wf()
        &&& self.follow_starts_eof()
        &&& self.follow_terminals_eof()
        &&& self.follow_stable()
        &&& self.follow_least()
    }

    /// Computes the FOLLOW sets by naive fixed-point iteration: end-of-input
    /// is seeded into FOLLOW of every start nonterminal, and update passes
    /// over every production position run until one pass changes nothing.
    pub fn compute_follow_sets(&mut self)
        requires
            old(self).base_wf(),
            old(self).first_ok(),
        ensures
            final(self).base_wf(),
            final(self).n_terminals == old(self).n_terminals,
            final(self).names == old(self).names,
            final(self).patterns == old(self).patterns,
            final(self).start_ids == old(self).start_ids,
            final(self).prods == old(self).prods,
            final(self).prod_lo == old(self).prod_lo,
            final(self).prod_hi == old(self).prod_hi,
            final(self).first_sets == old(self).first_sets,
            final(self).canonical_collection == old(self).canonical_collection,
            final(self).first_ok(),
            final(self).follow_ok(),
    {
        let n_names = self.names.len();
        let u = n_names + 2;
        let eof_i = n_names + 1;
        let mut fw: Vec<Vec<bool>> = Vec::new();
        let mut c: usize = 0;
        while c < n_names
            invariant
                n_names == self.names@.len(),
                u == n_names + 2,
                c <= n_names,
                fw@.len() == c,
                forall|q: int| 0 <= q < c ==> (#[trigger] fw@[q])@.len() == u,
                forall|q: int, x: int|
                    #![trigger fw@[q]@[x]]
                    0 <= q < c && 0 <= x < u ==> !fw@[q]@[x],
            decreases n_names - c,
        {
            let row: Vec<bool> = vec![false; u];
            fw.push(row);
            c = c + 1;
        }
        self.follow_sets = fw;
        proof {
            crate::grammar::lemma_base_wf_same(*old(self), *self);
            assert(self.follow_wf());
            assert(self.follow_terminals_eof());
            assert(fbelow_all_closed(
                self.follow_view(),
                self.first_view(),
                self.prods@,
                self.start_ids@,
                self.n_terminals as int,
                n_names as int,
            )) by {
                assert forall|m: Seq<Seq<bool>>|
                    table_shape(m, n_names as int, n_names + 2) && #[trigger] follow_table_closed(
                        m,
                        self.first_view(),
                        self.prods@,
                        self.start_ids@,
                        self.n_terminals as int,
                        n_names as int,
                    ) implies table_below(self.follow_view(), m, n_names as int, n_names + 2) by {
                    assert forall|c2: int, x: int|
                        #![trigger self.follow_view()[c2][x]]
                        0 <= c2 < n_names && 0 <= x < n_names + 2 && self.follow_view()[c2][
                        x] implies m[c2][x] by {
                        assert(!self.follow_view()[c2][x]);
                    }
                }
            }
        }

        let n_starts = self.start_ids.len();
        let mut s: usize = 0;
        while s < n_starts
            invariant
                self.base_wf(),
                self.first_ok(),
                self.n_terminals == old(self).n_terminals,
                self.names == old(self).names,
                self.patterns == old(self).patterns,
                self.start_ids == old(self).start_ids,
                self.prods == old(self).prods,
                self.prod_lo == old(self).prod_lo,
                self.prod_hi == old(self).prod_hi,
                self.first_sets == old(self).first_sets,
                self.canonical_collection == old(self).canonical_collection,
                n_names == self.names@.len(),
                u == n_names + 2,
                eof_i == n_names + 1,
                n_starts == self.start_ids@.len(),
                s <= n_starts,
                self.follow_wf(),
                self.follow_terminals_eof(),
                fbelow_all_closed(
                    self.follow_view(),
                    self.first_view(),
                    self.prods@,
                    self.start_ids@,
                    self.n_terminals as int,
                    n_names as int,
                ),
                forall|q: int|
                    0 <= q < s ==> self.follow_view()[#[trigger] self.start_ids@[q] as int][
                        eof_i as int],
            decreases n_starts - s,
        {
            let sid = self.start_ids[s];
            proof {
                assert(self.is_nt_id(sid as int));
                assert(self.follow_view()[sid as int] == self.follow_sets@[sid as int]@);
                assert(self.follow_view()[sid as int].len() == self.n_codes());
            }
            let mut row = clone_bools(&self.follow_sets[sid]);
            let g = set_bit(&mut row, eof_i);
            let ghost pre = self.follow_view();
            let ghost sk = *self;
            self.follow_sets.set(sid, row);
            proof {
                assert(self.follow_view() =~= pre.update(sid as int, row@));
                crate::grammar::lemma_base_wf_same(sk, *self);
                assert forall|c2: int|
                    0 <= c2 < self.n_names() implies self.follow_view()[c2].len()
                    == self.n_codes() by {
                    if c2 != sid {
                        assert(self.follow_view()[c2] == pre[c2]);
                        assert(sk.follow_view()[c2].len() == sk.n_codes());
                    }
                }
                assert forall|c2: int, x: int|
                    0 <= c2 < self.n_names() && 0 <= x < self.n_codes() && self.follow_view()[c2][
                    x] implies (0 <= x < self.n_terminals || x == eof_i) by {
                    if c2 == sid {
                        if x != eof_i {
                            assert(pre[c2][x]);
                            assert(sk.follow_view()[c2][x]);
                        }
                    } else {
                        assert(self.follow_view()[c2] == pre[c2]);
                        assert(sk.follow_view()[c2][x]);
                    }
                }
                assert forall|q: int| 0 <= q < s + 1 implies self.follow_view()[
                    #[trigger] self.start_ids@[q] as int][eof_i as int] by {
                    if self.start_ids@[q] == sid {
                        assert(row@[eof_i as int]);
                    } else {
                        assert(self.follow_view()[self.start_ids@[q] as int] == pre[
                            self.start_ids@[q] as int]);
                        assert(q < s);
                    }
                }
                assert(fbelow_all_closed(
                    self.follow_view(),
                    self.first_view(),
                    self.prods@,
                    self.start_ids@,
                    self.n_terminals as int,
                    n_names as int,
                )) by {
                    assert forall|m: Seq<Seq<bool>>|
                        table_shape(m, n_names as int, n_names + 2)
                            && #[trigger] follow_table_closed(
                            m,
                            self.first_view(),
                            self.prods@,
                            self.start_ids@,
                            self.n_terminals as int,
                            n_names as int,
                        ) implies table_below(
                        self.follow_view(),
                        m,
                        n_names as int,
                        n_names + 2,
                    ) by {
                        assert(table_below(pre, m, n_names as int, n_names + 2));
                        assert forall|c2: int, x: int|
                            #![trigger self.follow_view()[c2][x]]
                            0 <= c2 < n_names && 0 <= x < n_names + 2 && self.follow_view()[c2][
                            x] implies m[c2][x] by {
                            if c2 == sid {
                                if x == eof_i {
                                    assert(m[self.start_ids@[s as int] as int][n_names + 1]);
                                } else {
                                    assert(pre[c2][x]);
                                }
                            } else {
                                assert(self.follow_view()[c2] == pre[c2]);
                            }
                        }
                    }
                }
            }
            s = s + 1;
        }

        proof {
            assert forall|cc: int|
                0 <= cc < self.follow_view().len() implies self.follow_view()[cc].len() <= (
            u as int) by {}
            lemma_count_rows_bound(self.follow_view(), u as int);
        }
        let ghost s0 = *self;
        let mut changed = true;
        while changed
            invariant
                self.base_wf(),
                self.first_ok(),
                self.n_terminals == s0.n_terminals,
                self.names == s0.names,
                self.patterns == s0.patterns,
                self.start_ids == s0.start_ids,
                self.prods == s0.prods,
                self.prod_lo == s0.prod_lo,
                self.prod_hi == s0.prod_hi,
                self.first_sets == s0.first_sets,
                self.canonical_collection == s0.canonical_collection,
                n_names == self.names@.len(),
                u == n_names + 2,
                self.follow_wf(),
                self.follow_terminals_eof(),
                self.follow_starts_eof(),
                fbelow_all_closed(
                    self.follow_view(),
                    self.first_view(),
                    self.prods@,
                    self.start_ids@,
                    self.n_terminals as int,
                    n_names as int,
                ),
                !changed ==> self.follow_stable(),
                count_rows(self.follow_view()) <= (n_names * u) as nat,
            decreases
                    (n_names * u) as int - count_rows(self.follow_view()) + (if changed {
                        1int
                    } else {
                        0int
                    }),
        {
            changed = self.follow_pass();
            proof {
                assert forall|cc: int|
                    0 <= cc < self.follow_view().len() implies self.follow_view()[cc].len() <= (
                u as int) by {}
                lemma_count_rows_bound(self.follow_view(), u as int);
            }
        }
    }

    /// One FOLLOW update pass over every nonterminal occurrence in every
    /// production. Reports whether anything was added; when nothing was, the
    /// table is unchanged and stable.
    fn follow_pass(&mut self) -> (changed: bool)
        requires
            old(self).base_wf(),
            old(self).first_ok(),
            old(self).follow_wf(),
            old(self).follow_terminals_eof(),
            old(self).follow_starts_eof(),
            fbelow_all_closed(
                old(self).follow_view(),
                old(self).first_view(),
                old(self).prods@,
                old(self).start_ids@,
                old(self).n_terminals as int,
                old(self).n_names(),
            ),
        ensures
            final(self).base_wf(),
            final(self).n_terminals == old(self).n_terminals,
            final(self).names == old(self).names,
            final(self).patterns == old(self).patterns,
            final(self).start_ids == old(self).start_ids,
            final(self).prods == old(self).prods,
            final(self).prod_lo == old(self).prod_lo,
            final(self).prod_hi == old(self).prod_hi,
            final(self).first_sets == old(self).first_sets,
            final(self).canonical_collection == old(self).canonical_collection,
            final(self).first_ok(),
            final(self).follow_wf(),
            final(self).follow_terminals_eof(),
            final(self).follow_starts_eof(),
            fbelow_all_closed(
                final(self).follow_view(),
                final(self).first_view(),
                final(self).prods@,
                final(self).start_ids@,
                final(self).n_terminals as int,
                final(self).n_names(),
            ),
            count_rows(final(self).follow_view()) >= count_rows(old(self).follow_view()),
            changed ==> count_rows(final(self).follow_view()) > count_rows(
                old(self).follow_view(),
            ),
            !changed ==> final(self).follow_view() == old(self).follow_view(),
            !changed ==> final(self).follow_stable(),
    {
        let n_names = self.names.len();
        let u = n_names + 2;
        let eps_i = n_names;
        let n_prods = self.prods.len();
        let ghost fw0 = self.follow_view();
        let ghost s0 = *self;
        let mut changed = false;
        let mut p: usize = 0;
        while p < n_prods
            invariant
                self.base_wf(),
                self.first_ok(),
                self.n_terminals == s0.n_terminals,
                self.names == s0.names,
                self.patterns == s0.patterns,
                self.start_ids == s0.start_ids,
                self.prods == s0.prods,
                self.prod_lo == s0.prod_lo,
                self.prod_hi == s0.prod_hi,
                self.first_sets == s0.first_sets,
                self.canonical_collection == s0.canonical_collection,
                fw0 == s0.follow_view(),
                s0.follow_wf(),
                n_names == self.names@.len(),
                u == n_names + 2,
                eps_i == n_names,
                n_prods == self.prods@.len(),
                p <= n_prods,
                self.follow_wf(),
                self.follow_terminals_eof(),
                self.follow_starts_eof(),
                fbelow_all_closed(
                    self.follow_view(),
                    self.first_view(),
                    self.prods@,
                    self.start_ids@,
                    self.n_terminals as int,
                    n_names as int,
                ),
                forall|cc: int, x: int|
                    #![trigger fw0[cc][x]]
                    0 <= cc < n_names && 0 <= x < u && fw0[cc][x] ==> self.follow_view()[cc][x],
                count_rows(self.follow_view()) >= count_rows(fw0),
                changed ==> count_rows(self.follow_view()) > count_rows(fw0),
                !changed ==> self.follow_view() == fw0,
                !changed ==> forall|p2: int, i2: int|
                    #![trigger self.prods@[p2].rhs@[i2]]
                    0 <= p2 < p && 0 <= i2 < self.prods@[p2].rhs@.len() && self.prods@[p2].rhs@[i2]
                        is NT ==> prod_follow_covered(
                        self.first_view(),
                        self.prods@[p2].rhs@,
                        i2,
                        self.follow_view()[self.prods@[p2].lhs as int],
                        self.follow_view()[sym_code(self.prods@[p2].rhs@[i2], n_names as int)],
                        n_names as int,
                    ),
            decreases n_prods - p,
        {
            let rhs_len = self.prods[p].rhs.len();
            let lhs = self.prods[p].lhs;
            let mut i: usize = 0;
            while i < rhs_len
                invariant
                    self.base_wf(),
                    self.first_ok(),
                    self.n_terminals == s0.n_terminals,
                    self.names == s0.names,
                    self.patterns == s0.patterns,
                    self.start_ids == s0.start_ids,
                    self.prods == s0.prods,
                    self.prod_lo == s0.prod_lo,
                    self.prod_hi == s0.prod_hi,
                    self.first_sets == s0.first_sets,
                    self.canonical_collection == s0.canonical_collection,
                    fw0 == s0.follow_view(),
                    s0.follow_wf(),
                    n_names == self.names@.len(),
                    u == n_names + 2,
                    eps_i == n_names,
                    n_prods == self.prods@.len(),
                    p < n_prods,
                    rhs_len == self.prods@[p as int].rhs@.len(),
                    lhs == self.prods@[p as int].lhs,
                    i <= rhs_len,
                    self.follow_wf(),
                    self.follow_terminals_eof(),
                    self.follow_starts_eof(),
                    fbelow_all_closed(
                        self.follow_view(),
                        self.first_view(),
                        self.prods@,
                        self.start_ids@,
                        self.n_terminals as int,
                        n_names as int,
                    ),
                    forall|cc: int, x: int|
                        #![trigger fw0[cc][x]]
                        0 <= cc < n_names && 0 <= x < u && fw0[cc][x] ==> self.follow_view()[cc][
                            x],
                    count_rows(self.follow_view()) >= count_rows(fw0),
                    changed ==> count_rows(self.follow_view()) > count_rows(fw0),
                    !changed ==> self.follow_view() == fw0,
                    !changed ==> forall|p2: int, i2: int|
                        #![trigger self.prods@[p2].rhs@[i2]]
                        0 <= p2 < p && 0 <= i2 < self.prods@[p2].rhs@.len() && self.prods@[
                            p2].rhs@[i2] is NT ==> prod_follow_covered(
                            self.first_view(),
                            self.prods@[p2].rhs@,
                            i2,
                            self.follow_view()[self.prods@[p2].lhs as int],
                            self.follow_view()[sym_code(
                                self.prods@[p2].rhs@[i2],
                                n_names as int,
                            )],
                            n_names as int,
                        ),
                    !changed ==> forall|i2: int|
                        #![trigger self.prods@[p as int].rhs@[i2]]
                        0 <= i2 < i && self.prods@[p as int].rhs@[i2] is NT
                            ==> prod_follow_covered(
                            self.first_view(),
                            self.prods@[p as int].rhs@,
                            i2,
                            self.follow_view()[lhs as int],
                            self.follow_view()[sym_code(
                                self.prods@[p as int].rhs@[i2],
                                n_names as int,
                            )],
                            n_names as int,
                        ),
                decreases rhs_len - i,
            {
                let sym = self.prods[p].rhs[i];
                let is_nt = match sym {
                    Symbol::NT(_) => true,
                    _ => false,
                };
                if is_nt {
                    let b = match sym {
                        Symbol::NT(bb) => bb,
                        _ => 0,
                    };
                    proof {
                        assert(self.wf_prod(self.prods@[p as int]));
                        assert(self.wf_sym(self.prods@[p as int].rhs@[i as int]));
                        assert(self.is_nt_id(b as int));
                        assert(self.follow_view()[b as int] == self.follow_sets@[b as int]@);
                        assert(self.follow_view()[b as int].len() == self.n_codes());
                        assert((b as int) == sym_code(sym, n_names as int));
                        assert(self.prods@[p as int].rhs@[i as int] is NT);
                    }
                    let mut row = clone_bools(&self.follow_sets[b]);
                    let ghost row0 = row@;
                    proof {
                        assert(frow_below_all(
                            row@,
                            b as int,
                            self.first_view(),
                            self.prods@,
                            self.start_ids@,
                            self.n_terminals as int,
                            n_names as int,
                        )) by {
                            assert forall|m: Seq<Seq<bool>>|
                                table_shape(m, n_names as int, n_names + 2)
                                    && #[trigger] follow_table_closed(
                                    m,
                                    self.first_view(),
                                    self.prods@,
                                    self.start_ids@,
                                    self.n_terminals as int,
                                    n_names as int,
                                ) implies (forall|x: int|
                                0 <= x < n_names + 2 && #[trigger] row@[x] ==> m[b as int][x]) by {
                                assert(table_below(
                                    self.follow_view(),
                                    m,
                                    n_names as int,
                                    n_names + 2,
                                ));
                                assert forall|x: int|
                                    0 <= x < n_names + 2 && #[trigger] row@[x] implies m[
                                b as int][x] by {
                                    assert(self.follow_view()[b as int][x]);
                                }
                            }
                        }
                    }
                    let mut row_changed = false;
                    let mut j = i + 1;
                    let mut nullable = true;
                    while j < rhs_len && nullable
                        invariant
                            self.base_wf(),
                            self.first_ok(),
                            self.follow_wf(),
                            self.follow_terminals_eof(),
                            n_names == self.names@.len(),
                            u == n_names + 2,
                            eps_i == n_names,
                            p < n_prods,
                            n_prods == self.prods@.len(),
                            rhs_len == self.prods@[p as int].rhs@.len(),
                            lhs == self.prods@[p as int].lhs,
                            i < rhs_len,
                            i + 1 <= j <= rhs_len,
                            row0 == self.follow_view()[b as int],
                            row@.len() == u,
                            fbelow_all_closed(
                                self.follow_view(),
                                self.first_view(),
                                self.prods@,
                                self.start_ids@,
                                self.n_terminals as int,
                                n_names as int,
                            ),
                            frow_below_all(
                                row@,
                                b as int,
                                self.first_view(),
                                self.prods@,
                                self.start_ids@,
                                self.n_terminals as int,
                                n_names as int,
                            ),
                            (b as int) == sym_code(
                                self.prods@[p as int].rhs@[i as int],
                                n_names as int,
                            ),
                            self.prods@[p as int].rhs@[i as int] is NT,
                            forall|x: int| #![trigger row0[x]] 0 <= x < u && row0[x] ==> row@[x],
                            forall|x: int|
                                #![trigger row@[x]]
                                0 <= x < u && row@[x] ==> (0 <= x < self.n_terminals || x == (
                                n_names + 1)),
                            row_changed ==> exists|x: int|
                                #![trigger row@[x]]
                                0 <= x < u && row@[x] && !row0[x],
                            !row_changed ==> row@ == row0,
                            nullable ==> forall|j2: int|
                                #![trigger self.prods@[p as int].rhs@[j2]]
                                i + 1 <= j2 < j ==> self.first_view()[sym_code(
                                    self.prods@[p as int].rhs@[j2],
                                    n_names as int,
                                )][eps_i as int],
                            !nullable ==> j >= i + 2 && !self.first_view()[sym_code(
                                self.prods@[p as int].rhs@[j - 1],
                                n_names as int,
                            )][eps_i as int] && (forall|j2: int|
                                #![trigger self.prods@[p as int].rhs@[j2]]
                                i + 1 <= j2 < j - 1 ==> self.first_view()[sym_code(
                                    self.prods@[p as int].rhs@[j2],
                                    n_names as int,
                                )][eps_i as int]),
                            forall|j2: int, x: int|
                                #![trigger self.first_view()[sym_code(self.prods@[p as int].rhs@[j2], n_names as int)][x]]
                                i + 1 <= j2 < j && 0 <= x < u && x != eps_i
                                    && self.first_view()[sym_code(
                                    self.prods@[p as int].rhs@[j2],
                                    n_names as int,
                                )][x] ==> row@[x],
                        decreases rhs_len - j,
                    {
                        let sym2 = self.prods[p].rhs[j];
                        let cidx = self.sym_code_idx(sym2);
                        proof {
                            assert(self.wf_prod(self.prods@[p as int]));
                            assert(self.wf_sym(self.prods@[p as int].rhs@[j as int]));
                            assert(self.first_view()[cidx as int] == self.first_sets@[
                                cidx as int]@);
                            assert(self.first_view()[cidx as int].len() == self.n_codes());
                        }
                        let ghost row_before = row@;
                        let g = or_into(&mut row, &self.first_sets[cidx], eps_i);
                        if g {
                            row_changed = true;
                        }
                        proof {
                            let src = self.first_sets@[cidx as int]@;
                            assert forall|x: int| 0 <= x < u && row_before[x] implies row@[
                            x] by {}
                            assert forall|x: int| 0 <= x < u && row0[x] implies row@[x] by {
                                assert(row_before[x]);
                            }
                            assert forall|x: int| 0 <= x < u && row@[x] implies (0 <= x
                                < self.n_terminals || x == (n_names + 1)) by {
                                if !row_before[x] {
                                    assert(src[x] && x != eps_i);
                                    assert(self.first_view()[cidx as int][x]);
                                    match sym2 {
                                        Symbol::T(t2) => {
                                            assert(self.first_view()[cidx as int][x] <==> x
                                                == cidx as int);
                                        },
                                        Symbol::NT(n2) => {
                                            assert(self.is_nt_id(cidx as int));
                                        },
                                        Symbol::Epsilon => {
                                            assert(self.first_view()[cidx as int][x] <==> x
                                                == cidx as int);
                                            assert(false);
                                        },
                                        Symbol::EOF => {
                                            assert(false);
                                        },
                                    }
                                }
                            }
                            if g {
                                let w = choose|x: int|
                                    0 <= x < src.len() && !row_before[x] && src[x] && x != eps_i;
                                assert(row@[w] && !row0[w]);
                            }
                            if !g && row_changed {
                                let w = choose|x: int| 0 <= x < u && row_before[x] && !row0[x];
                                assert(row@[w]);
                            }
                            if !row_changed {
                                assert(row@ =~= row0);
                            }
                            assert forall|x: int|
                                0 <= x < u && x != eps_i && self.first_view()[sym_code(
                                    self.prods@[p as int].rhs@[j as int],
                                    n_names as int,
                                )][x] implies row@[x] by {
                                assert(src[x]);
                            }
                            assert(frow_below_all(
                                row@,
                                b as int,
                                self.first_view(),
                                self.prods@,
                                self.start_ids@,
                                self.n_terminals as int,
                                n_names as int,
                            )) by {
                                let rhs = self.prods@[p as int].rhs@;
                                let fv = self.first_view();
                                assert forall|m: Seq<Seq<bool>>|
                                    table_shape(m, n_names as int, n_names + 2)
                                        && #[trigger] follow_table_closed(
                                        m,
                                        fv,
                                        self.prods@,
                                        self.start_ids@,
                                        self.n_terminals as int,
                                        n_names as int,
                                    ) implies (forall|x: int|
                                    0 <= x < n_names + 2 && #[trigger] row@[x] ==> m[b as int][x]) by {
                                    assert(rhs[i as int] is NT);
                                    assert(prod_follow_covered(
                                        fv,
                                        rhs,
                                        i as int,
                                        m[lhs as int],
                                        m[sym_code(rhs[i as int], n_names as int)],
                                        n_names as int,
                                    ));
                                    assert forall|x: int|
                                        0 <= x < n_names + 2 && #[trigger] row@[x] implies m[
                                    b as int][x] by {
                                        if row_before[x] {
                                        } else {
                                            assert(src[x] && x != eps_i);
                                            assert(fv[cidx as int][x]);
                                            assert(sfx_first_has(
                                                fv,
                                                rhs,
                                                i + 1,
                                                x,
                                                n_names as int,
                                            )) by {
                                                assert(i + 1 <= j < rhs.len() && fv[sym_code(
                                                    rhs[j as int],
                                                    n_names as int,
                                                )][x] && (forall|j2: int|
                                                    #![trigger rhs[j2]]
                                                    i + 1 <= j2 < j ==> fv[sym_code(
                                                        rhs[j2],
                                                        n_names as int,
                                                    )][n_names as int]));
                                            }
                                            assert(m[sym_code(rhs[i as int], n_names as int)][x]);
                                        }
                                    }
                                }
                            }
                        }
                        if !self.first_sets[cidx][eps_i] {
                            nullable = false;
                        }
                        j = j + 1;
                    }
                    if nullable {
                        proof {
                            assert(self.is_nt_id(lhs as int));
                            assert(self.follow_view()[lhs as int] == self.follow_sets@[
                                lhs as int]@);
                            assert(self.follow_view()[lhs as int].len() == self.n_codes());
                        }
                        let ghost row_before = row@;
                        let g = or_into(&mut row, &self.follow_sets[lhs], eps_i);
                        if g {
                            row_changed = true;
                        }
                        proof {
                            let src = self.follow_sets@[lhs as int]@;
                            assert forall|x: int| 0 <= x < u && row_before[x] implies row@[
                            x] by {}
                            assert forall|x: int| 0 <= x < u && row0[x] implies row@[x] by {
                                assert(row_before[x]);
                            }
                            assert forall|x: int| 0 <= x < u && row@[x] implies (0 <= x
                                < self.n_terminals || x == (n_names + 1)) by {
                                if !row_before[x] {
                                    assert(src[x] && x != eps_i);
                                    assert(self.follow_view()[lhs as int][x]);
                                }
                            }
                            if g {
                                let w = choose|x: int|
                                    0 <= x < src.len() && !row_before[x] && src[x] && x != eps_i;
                                assert(row@[w] && !row0[w]);
                            }
                            if !g && row_changed {
                                let w = choose|x: int| 0 <= x < u && row_before[x] && !row0[x];
                                assert(row@[w]);
                            }
                            if !row_changed {
                                assert(row@ =~= row0);
                            }
                            assert forall|x: int|
                                0 <= x < u && x != eps_i && self.follow_view()[lhs as int][
                            x] implies row@[x] by {}
                            assert(frow_below_all(
                                row@,
                                b as int,
                                self.first_view(),
                                self.prods@,
                                self.start_ids@,
                                self.n_terminals as int,
                                n_names as int,
                            )) by {
                                let rhs = self.prods@[p as int].rhs@;
                                let fv = self.first_view();
                                assert forall|m: Seq<Seq<bool>>|
                                    table_shape(m, n_names as int, n_names + 2)
                                        && #[trigger] follow_table_closed(
                                        m,
                                        fv,
                                        self.prods@,
                                        self.start_ids@,
                                        self.n_terminals as int,
                                        n_names as int,
                                    ) implies (forall|x: int|
                                    0 <= x < n_names + 2 && #[trigger] row@[x] ==> m[b as int][x]) by {
                                    assert(rhs[i as int] is NT);
                                    assert(prod_follow_covered(
                                        fv,
                                        rhs,
                                        i as int,
                                        m[lhs as int],
                                        m[sym_code(rhs[i as int], n_names as int)],
                                        n_names as int,
                                    ));
                                    assert(table_below(
                                        self.follow_view(),
                                        m,
                                        n_names as int,
                                        n_names + 2,
                                    ));
                                    assert(sfx_nullable(fv, rhs, i + 1, n_names as int)) by {
                                        assert forall|j2: int|
                                            #![trigger rhs[j2]]
                                            i + 1 <= j2 < rhs.len() implies fv[sym_code(
                                            rhs[j2],
                                            n_names as int,
                                        )][n_names as int] by {}
                                    }
                                    assert forall|x: int|
                                        0 <= x < n_names + 2 && #[trigger] row@[x] implies m[
                                    b as int][x] by {
                                        if row_before[x] {
                                        } else {
                                            assert(src[x] && x != eps_i);
                                            assert(self.follow_view()[lhs as int][x]);
                                            assert(m[lhs as int][x]);
                                        }
                                    }
                                }
                            }
                        }
                    }
                    let ghost pre = self.follow_view();
                    let ghost sk = *self;
                    if row_changed {
                        proof {
                            let w = choose|x: int| 0 <= x < u && row@[x] && !row0[x];
                            lemma_count_pointwise_lt(row0, row@, w);
                            lemma_count_rows_update(pre, b as int, row@);
                        }
                        self.follow_sets.set(b, row);
                        changed = true;
                        proof {
                            assert(self.follow_view() =~= pre.update(b as int, row@));
                            crate::grammar::lemma_base_wf_same(sk, *self);
                            assert(count_rows(self.follow_view()) + count_true(row0)
                                == count_rows(pre) + count_true(row@));
                            assert(count_rows(self.follow_view()) > count_rows(pre));
                            assert forall|c2: int|
                                0 <= c2 < self.n_names() implies self.follow_view()[c2].len()
                                == self.n_codes() by {
                                if c2 != b {
                                    assert(self.follow_view()[c2] == pre[c2]);
                                    assert(sk.follow_view()[c2].len() == sk.n_codes());
                                }
                            }
                            assert forall|c2: int, x: int|
                                0 <= c2 < self.n_names() && 0 <= x < self.n_codes()
                                    && self.follow_view()[c2][x] implies (0 <= x
                                < self.n_terminals || x == (n_names + 1)) by {
                                if c2 == b {
                                    assert(row@[x]);
                                } else {
                                    assert(self.follow_view()[c2] == pre[c2]);
                                    assert(sk.follow_view()[c2][x]);
                                }
                            }
                            assert forall|q: int|
                                0 <= q < self.start_ids@.len() implies self.follow_view()[
                                #[trigger] self.start_ids@[q] as int][(n_names + 1) as int] by {
                                if self.start_ids@[q] == b {
                                    assert(row0[(n_names + 1) as int]);
                                } else {
                                    assert(self.follow_view()[self.start_ids@[q] as int] == pre[
                                        self.start_ids@[q] as int]);
                                }
                            }
                            assert forall|cc: int, x: int|
                                0 <= cc < n_names && 0 <= x < u && fw0[cc][x] implies
                                self.follow_view()[cc][x] by {
                                if cc == b {
                                    assert(pre[b as int][x]);
                                    assert(row0[x]);
                                } else {
                                    assert(self.follow_view()[cc] == pre[cc]);
                                }
                            }
                            assert(fbelow_all_closed(
                                self.follow_view(),
                                self.first_view(),
                                self.prods@,
                                self.start_ids@,
                                self.n_terminals as int,
                                n_names as int,
                            )) by {
                                assert forall|m: Seq<Seq<bool>>|
                                    table_shape(m, n_names as int, n_names + 2)
                                        && #[trigger] follow_table_closed(
                                        m,
                                        self.first_view(),
                                        self.prods@,
                                        self.start_ids@,
                                        self.n_terminals as int,
                                        n_names as int,
                                    ) implies table_below(
                                    self.follow_view(),
                                    m,
                                    n_names as int,
                                    n_names + 2,
                                ) by {
                                    assert(table_below(pre, m, n_names as int, n_names + 2));
                                    assert forall|c2: int, x: int|
                                        #![trigger self.follow_view()[c2][x]]
                                        0 <= c2 < n_names && 0 <= x < n_names + 2
                                            && self.follow_view()[c2][x] implies m[c2][x] by {
                                        if c2 == b {
                                            assert(row@[x]);
                                        } else {
                                            assert(pre[c2][x]);
                                        }
                                    }
                                }
                            }
                        }
                    } else {
                        proof {
                            assert(row@ == row0);
                            if !changed {
                                assert(prod_follow_covered(
                                    self.first_view(),
                                    self.prods@[p as int].rhs@,
                                    i as int,
                                    self.follow_view()[lhs as int],
                                    row@,
                                    n_names as int,
                                )) by {
                                    let fv = self.first_view();
                                    let rhs = self.prods@[p as int].rhs@;
                                    assert forall|x: int|
                                        0 <= x < u && x != eps_i && sfx_first_has(
                                            fv,
                                            rhs,
                                            i + 1,
                                            x,
                                            n_names as int,
                                        ) implies row@[x] by {
                                        let jw = choose|jj: int|
                                            i + 1 <= jj < rhs.len() && fv[sym_code(
                                                rhs[jj],
                                                n_names as int,
                                            )][x] && (forall|j2: int|
                                                #![trigger rhs[j2]]
                                                i + 1 <= j2 < jj ==> fv[sym_code(
                                                    rhs[j2],
                                                    n_names as int,
                                                )][eps_i as int]);
                                        if jw >= j {
                                            assert(!nullable);
                                            assert(rhs[j - 1] == rhs[j - 1]);
                                            assert(false);
                                        }
                                    }
                                    if sfx_nullable(fv, rhs, i + 1, n_names as int) {
                                        assert(nullable) by {
                                            if !nullable {
                                                assert(rhs[j - 1] == rhs[j - 1]);
                                            }
                                        }
                                    }
                                }
                            }
                        }
                    }
                }
                i = i + 1;
            }
            p = p + 1;
        }
        proof {
            if !changed {
                assert(self.follow_view() =~~= fw0);
            }
        }
        changed
    }
}


/// The computed-table facts carry over to a context that shares the
/// structural fields and both working tables.
pub proof fn lemma_tables_same(a: GrammarHelper, b: GrammarHelper)
    requires
        b.n_terminals == a.n_terminals,
        b.names == a.names,
        b.start_ids == a.start_ids,
        b.prods == a.prods,
        b.prod_lo == a.prod_lo,
        b.prod_hi == a.prod_hi,
        b.first_sets == a.first_sets,
        b.follow_sets == a.follow_sets,
    ensures
        a.first_ok() ==> b.first_ok(),
        a.follow_ok() ==> b.follow_ok(),
{
    assert(a.first_view() == b.first_view());
    assert(a.follow_view() == b.follow_view());
    if a.first_ok() {
        assert forall|c: int|
            0 <= c < b.n_codes() implies #[trigger] b.first_view()[c].len() == b.n_codes() by {
            assert(a.first_view()[c].len() == a.n_codes());
        }
        assert forall|c: int, x: int|
            #![trigger b.first_view()[c][x]]
            0 <= c < b.n_codes() && 0 <= x < b.n_codes() && (c < b.n_terminals || c
                >= b.n_names()) implies (b.first_view()[c][x] <==> x == c) by {
            assert(a.first_view()[c][x] <==> x == c);
        }
        assert forall|c: int, x: int|
            #![trigger b.first_view()[c][x]]
            b.is_nt_id(c) && 0 <= x < b.n_codes() && b.first_view()[c][x] implies (0 <= x
                < b.n_terminals || x == b.eps_code()) by {
            assert(a.first_view()[c][x]);
        }
        assert forall|p: int| 0 <= p < b.prods@.len() implies prod_first_stable(
            b.first_view(),
            (#[trigger] b.prods@[p]).rhs@,
            b.prods@[p].lhs as int,
            b.n_names(),
        ) by {
            assert(prod_first_stable(
                a.first_view(),
                a.prods@[p].rhs@,
                a.prods@[p].lhs as int,
                a.n_names(),
            ));
        }
    }
    if a.follow_ok() {
        assert forall|c: int|
            0 <= c < b.n_names() implies #[trigger] b.follow_view()[c].len() == b.n_codes() by {
            assert(a.follow_view()[c].len() == a.n_codes());
        }
        assert forall|s: int|
            0 <= s < b.start_ids@.len() implies b.follow_view()[#[trigger] b.start_ids@[
                s] as int][b.eof_code()] by {
            assert(a.follow_view()[a.start_ids@[s] as int][a.eof_code()]);
        }
        assert forall|c: int, x: int|
            #![trigger b.follow_view()[c][x]]
            0 <= c < b.n_names() && 0 <= x < b.n_codes() && b.follow_view()[c][x] implies (0 <= x
                < b.n_terminals || x == b.eof_code()) by {
            assert(a.follow_view()[c][x]);
        }
        assert forall|p: int, i: int|
            #![trigger b.prods@[p].rhs@[i]]
            0 <= p < b.prods@.len() && 0 <= i < b.prods@[p].rhs@.len() && b.prods@[p].rhs@[i]
                is NT implies prod_follow_covered(
            b.first_view(),
            b.prods@[p].rhs@,
            i,
            b.follow_view()[b.prods@[p].lhs as int],
            b.follow_view()[sym_code(b.prods@[p].rhs@[i], b.n_names())],
            b.n_names(),
        ) by {
            assert(prod_follow_covered(
                a.first_view(),
                a.prods@[p].rhs@,
                i,
                a.follow_view()[a.prods@[p].lhs as int],
                a.follow_view()[sym_code(a.prods@[p].rhs@[i], a.n_names())],
                a.n_names(),
            ));
        }
    }
}


/// FIRST of a terminal is exactly the terminal itself.
pub proof fn lemma_first_of_terminal(h: GrammarHelper, t: int, x: int)
    requires
        h.base_wf(),
        h.first_ok(),
        h.is_t_id(t),
        0 <= x < h.n_codes(),
    ensures
        h.first_view()[t][x] <==> x == t,
{
    assert(0 <= t < h.n_codes());
}

/// A production whose whole right-hand side is nullable puts epsilon into
/// FIRST of its left-hand side.
pub proof fn lemma_nullable_production_epsilon(h: GrammarHelper, p: int)
    requires
        h.base_wf(),
        h.first_ok(),
        0 <= p < h.prods@.len(),
        forall|j: int|
            0 <= j < h.prods@[p].rhs@.len() ==> h.first_view()[sym_code(
                #[trigger] h.prods@[p].rhs@[j],
                h.n_names(),
            )][h.eps_code()],
    ensures
        h.first_view()[h.prods@[p].lhs as int][h.eps_code()],
{
    let fv = h.first_view();
    let rhs = h.prods@[p].rhs@;
    assert(prod_first_stable(fv, rhs, h.prods@[p].lhs as int, h.n_names()));
    assert(nullable_prefix(fv, rhs, rhs.len() as int, h.n_names())) by {
        assert forall|j2: int| 0 <= j2 < rhs.len() implies fv[sym_code(
            #[trigger] rhs[j2],
            h.n_names(),
        )][h.n_names()] by {
            assert(h.prods@[p].rhs@[j2] == rhs[j2]);
        }
    }
}

/// End-of-input sits in FOLLOW of every declared start nonterminal.
pub proof fn lemma_follow_of_start_has_eof(h: GrammarHelper, s: int)
    requires
        h.follow_ok(),
        0 <= s < h.start_ids@.len(),
    ensures
        h.follow_view()[h.start_ids@[s] as int][h.eof_code()],
{
}

} // verus!
