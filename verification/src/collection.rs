use vstd::prelude::*;

use crate::bitset::count_true;
use crate::bitset::lemma_count_pointwise_le;
use crate::bitset::lemma_count_pointwise_lt;
use crate::bitset::lemma_count_true_le;
use crate::grammar::GrammarHelper;
use crate::grammar::Prod;
use crate::grammar::Symbol;
use crate::items::ItemSet;
use crate::items::ItemV;
use crate::items::LR0Item;

verus! {

/// The nonterminal id right of the dot, if any.
pub open spec fn next_nt(it: ItemV) -> Option<int> {
    match it.sym_after_dot() {
        Some(Symbol::NT(k)) => Some(k as int),
        _ => None,
    }
}

impl GrammarHelper {
    /// The item of production `pid` with the dot at the far left.
    pub open spec fn item_of_prod(&self, pid: int) -> ItemV {
        ItemV {
            lhs: self.prods@[pid].lhs as int,
            syms: self.prods@[pid].rhs@,
            dot: 0,
            is_start: false,
            prod: Some(pid),
        }
    }

    /// The synthetic augmented-start item for the `s`-th start nonterminal.
    pub open spec fn start_item(&self, s: int) -> ItemV {
        ItemV {
            lhs: self.start_ids@[s] as int,
            syms: seq![Symbol::NT(self.start_ids@[s])],
            dot: 0,
            is_start: true,
            prod: None,
        }
    }

    /// An item the context can contain at all: an augmented-start item for a
    /// nonterminal (dot 0 or 1), or an item of one of the productions with
    /// the dot inside its right-hand side.
    pub open spec fn wf_item(&self, it: ItemV) -> bool {
        if it.is_start {
            &&& it.prod is None
            &&& self.is_nt_id(it.lhs)
            &&& it.syms == seq![Symbol::NT(it.lhs as usize)]
            &&& 0 <= it.dot <= 1
        } else {
            &&& it.prod matches Some(pid)
            &&& {
                let pid = it.prod->0;
                &&& 0 <= pid < self.prods@.len()
                &&& it.lhs == self.prods@[pid].lhs as int
                &&& it.syms == self.prods@[pid].rhs@
                &&& 0 <= it.dot <= it.syms.len()
            }
        }
    }

    pub open spec fn wf_items(&self, s: Set<ItemV>) -> bool {
        forall|it: ItemV| #[trigger] s.contains(it) ==> self.wf_item(it)
    }

    /// Closed under the closure rule: a nonterminal right of a dot brings
    /// all of its productions' dot-0 items.
    pub open spec fn item_closed(&self, s: Set<ItemV>) -> bool {
        forall|it: ItemV, pid: int|
            #![trigger s.contains(it), self.item_of_prod(pid)]
            s.contains(it) && next_nt(it) is Some && self.prod_range_of(next_nt(it)->0, pid)
                ==> s.contains(self.item_of_prod(pid))
    }

    /// `r` is the closure of `i`: the least closed superset.
    pub open spec fn is_closure_of(&self, i: Set<ItemV>, r: Set<ItemV>) -> bool {
        &&& i.subset_of(r)
        &&& self.item_closed(r)
        &&& forall|t: Set<ItemV>|
            i.subset_of(t) && #[trigger] self.item_closed(t) ==> r.subset_of(t)
    }

    /// The closure as a function: the intersection of every closed superset.
    pub open spec fn set_closure(&self, i: Set<ItemV>) -> Set<ItemV> {
        Set::new(
            |it: ItemV|
                forall|t: Set<ItemV>|
                    i.subset_of(t) && #[trigger] self.item_closed(t) ==> t.contains(it),
        )
    }

    /// The items of `i` with `x` right of the dot, dots advanced by one.
    pub open spec fn advance_set(&self, i: Set<ItemV>, x: Symbol) -> Set<ItemV> {
        Set::new(
            |it2: ItemV|
                exists|it: ItemV|
                    #[trigger] i.contains(it) && it.sym_after_dot() == Some(x) && it2
                        == it.advanced(),
        )
    }

    /// The goto operation: advance past `x`, then close.
    pub open spec fn spec_goto(&self, i: Set<ItemV>, x: Symbol) -> Set<ItemV> {
        self.set_closure(self.advance_set(i, x))
    }
}

/// In every closed superset of `i`, every production of nonterminal `k` has
/// its dot-0 item present.
pub open spec fn nt_forced(h: GrammarHelper, i: Set<ItemV>, k: int) -> bool {
    forall|t: Set<ItemV>, pid: int|
        #![trigger h.item_closed(t), h.prod_range_of(k, pid)]
        i.subset_of(t) && h.item_closed(t) && h.prod_range_of(k, pid) ==> t.contains(
            h.item_of_prod(pid),
        )
}

/// Every production of nonterminal `k` that starts with a nonterminal has
/// that nonterminal marked.
pub open spec fn nt_expanded(h: GrammarHelper, marked: Seq<bool>, k: int) -> bool {
    forall|pid: int|
        h.prod_range_of(k, pid) && next_nt(#[trigger] h.item_of_prod(pid)) is Some ==> marked[
            next_nt(h.item_of_prod(pid))->0]
}

/// A well-formed item's next nonterminal, when there is one, is a declared
/// nonterminal id.
pub proof fn lemma_next_nt_bound(h: GrammarHelper, it: ItemV)
    requires
        h.base_wf(),
        h.wf_item(it),
        next_nt(it) is Some,
    ensures
        h.is_nt_id(next_nt(it)->0),
{
    if it.is_start {
        assert(it.syms[it.dot] == Symbol::NT(it.lhs as usize));
    } else {
        assert(h.wf_prod(h.prods@[it.prod->0]));
        assert(h.wf_sym(it.syms[it.dot]));
    }
}

/// The intersection of every closed superset is itself a closed superset,
/// and lies inside every closed superset: it is the closure, of any item set.
pub proof fn lemma_set_closure_is_closure(h: GrammarHelper, i: Set<ItemV>)
    ensures
        h.is_closure_of(i, h.set_closure(i)),
{
    let sc = h.set_closure(i);
    assert forall|it: ItemV| i.contains(it) implies sc.contains(it) by {
        assert forall|t: Set<ItemV>| i.subset_of(t) && #[trigger] h.item_closed(t)
            implies t.contains(it) by {}
    }
    assert forall|it: ItemV, pid: int|
        #![trigger sc.contains(it), h.item_of_prod(pid)]
        sc.contains(it) && next_nt(it) is Some && h.prod_range_of(
            next_nt(it)->0,
            pid,
        ) implies sc.contains(h.item_of_prod(pid)) by {
        assert forall|t: Set<ItemV>| i.subset_of(t) && #[trigger] h.item_closed(t)
            implies t.contains(h.item_of_prod(pid)) by {
            assert(t.contains(it));
        }
    }
}

/// There is only one closure: anything satisfying `is_closure_of` equals
/// `set_closure`.
pub proof fn lemma_closure_unique(h: GrammarHelper, i: Set<ItemV>, r: Set<ItemV>)
    requires
        h.is_closure_of(i, r),
    ensures
        r == h.set_closure(i),
{
    let sc = h.set_closure(i);
    lemma_set_closure_is_closure(h, i);
    assert forall|it: ItemV| r.contains(it) implies sc.contains(it) by {
        assert forall|t: Set<ItemV>| i.subset_of(t) && #[trigger] h.item_closed(t)
            implies t.contains(it) by {
            assert(r.subset_of(t));
        }
    }
    assert(sc.subset_of(r));
    assert(r =~= sc);
}

/// Closing a closed set gives it back.
pub proof fn lemma_closure_of_closed(h: GrammarHelper, i: Set<ItemV>)
    requires
        h.item_closed(i),
    ensures
        h.set_closure(i) == i,
{
    assert(h.is_closure_of(i, i));
    lemma_closure_unique(h, i, i);
}

/// CLOSURE is idempotent: closing twice is closing once.
pub proof fn lemma_closure_idempotent(h: GrammarHelper, i: Set<ItemV>)
    ensures
        h.set_closure(h.set_closure(i)) == h.set_closure(i),
{
    lemma_set_closure_is_closure(h, i);
    lemma_closure_of_closed(h, h.set_closure(i));
}

/// GOTO after closing a closed set is GOTO of the set itself. (On a set that
/// is not closed the two sides can differ: the closure can contribute items
/// of its own with `x` right of the dot.)
pub proof fn lemma_goto_of_closure(h: GrammarHelper, i: Set<ItemV>, x: Symbol)
    requires
        h.item_closed(i),
    ensures
        h.spec_goto(h.set_closure(i), x) == h.spec_goto(i, x),
{
    lemma_closure_of_closed(h, i);
}

/// An explicit elementwise copy of a symbol sequence.
pub fn clone_syms(v: &Vec<Symbol>) -> (r: Vec<Symbol>)
    ensures
        r@ == v@,
{
    let n = v.len();
    let mut r: Vec<Symbol> = Vec::new();
    let mut i: usize = 0;
    while i < n
        invariant
            n == v@.len(),
            i <= n,
            r@.len() == i,
            forall|q: int| 0 <= q < i ==> r@[q] == v@[q],
        decreases n - i,
    {
        r.push(v[i]);
        i = i + 1;
    }
    proof {
        assert(r@ =~= v@);
    }
    r
}

impl GrammarHelper {
    /// Computes the closure of an item set: saturate under "a nonterminal
    /// right of the dot admits all its productions at dot 0". Reached
    /// nonterminals are found by a marking pass; their productions' items
    /// are then appended in declaration order.
    pub fn closure(&self, input: ItemSet) -> (r: ItemSet)
        requires
            self.base_wf(),
            input.dup_free(),
            self.wf_items(input.sset()),
        ensures
            r.dup_free(),
            self.wf_items(r.sset()),
            self.is_closure_of(input.sset(), r.sset()),
            r.sset() == self.set_closure(input.sset()),
    {
        let n_names = self.names.len();
        let ghost iset = input.sset();
        let mut marked: Vec<bool> = vec![false; n_names];
        let mut stack: Vec<usize> = Vec::new();

        let in_len = input.len();
        let mut q: usize = 0;
        while q < in_len
            invariant
                self.base_wf(),
                self.wf_items(iset),
                iset == input.sset(),
                n_names == self.names@.len(),
                in_len == input.iseq().len(),
                q <= in_len,
                marked@.len() == n_names,
                forall|e: int|
                    0 <= e < stack@.len() ==> marked@[#[trigger] stack@[e] as int] && (
                    stack@[e] as int) < n_names,
                forall|k: int|
                    #![trigger marked@[k]]
                    0 <= k < n_names && marked@[k] ==> self.is_nt_id(k) && nt_forced(
                        *self,
                        iset,
                        k,
                    ),
                forall|k: int|
                    #![trigger marked@[k]]
                    0 <= k < n_names && marked@[k] && !stack@.contains(k as usize)
                        ==> nt_expanded(*self, marked@, k),
                forall|q2: int|
                    0 <= q2 < q && next_nt(#[trigger] input.iseq()[q2]) is Some ==> marked@[
                        next_nt(input.iseq()[q2])->0],
            decreases in_len - q,
        {
            match input.0[q].symbol_after_dot() {
                Some(Symbol::NT(k)) => {
                    proof {
                        assert(iset.contains(input.iseq()[q as int]));
                        assert(self.wf_item(input.iseq()[q as int]));
                        let it0 = input.iseq()[q as int];
                        assert(next_nt(it0) == Some(k as int));
                        if it0.is_start {
                            assert(it0.syms[it0.dot] == Symbol::NT(it0.lhs as usize));
                            assert(self.is_nt_id(k as int));
                        } else {
                            assert(self.wf_prod(self.prods@[it0.prod->0]));
                            assert(self.wf_sym(it0.syms[it0.dot]));
                            assert(self.is_nt_id(k as int));
                        }
                        assert(nt_forced(*self, iset, k as int)) by {
                            assert forall|t: Set<ItemV>, pid: int|
                                iset.subset_of(t) && #[trigger] self.item_closed(t)
                                    && #[trigger] self.prod_range_of(k as int, pid) implies
                                t.contains(self.item_of_prod(pid)) by {
                                assert(t.contains(it0));
                            }
                        }
                    }
                    if !marked[k] {
                        let ghost m_pre = marked@;
                        let ghost st_pre = stack@;
                        marked.set(k, true);
                        stack.push(k);
                        proof {
                            assert(stack@.last() == k);
                            assert(stack@.contains(k));
                            assert forall|k2: int|
                                0 <= k2 < n_names && marked@[k2] && !stack@.contains(k2 as usize)
                                implies nt_expanded(*self, marked@, k2) by {
                                assert(k2 != k as int);
                                assert(m_pre[k2]);
                                assert(!st_pre.contains(k2 as usize)) by {
                                    if st_pre.contains(k2 as usize) {
                                        let e = choose|e: int|
                                            0 <= e < st_pre.len() && st_pre[e] == (k2 as usize);
                                        assert(stack@[e] == (k2 as usize));
                                        assert(stack@.contains(k2 as usize));
                                    }
                                }
                                assert(nt_expanded(*self, m_pre, k2));
                                assert forall|pid: int|
                                    self.prod_range_of(k2, pid) && next_nt(
                                        #[trigger] self.item_of_prod(pid),
                                    ) is Some implies marked@[next_nt(self.item_of_prod(pid))->0] by {
                                    lemma_next_nt_bound(*self, self.item_of_prod(pid));
                                    assert(m_pre[next_nt(self.item_of_prod(pid))->0]);
                                }
                            }
                            assert forall|q2: int|
                                0 <= q2 < q && next_nt(#[trigger] input.iseq()[q2]) is Some
                                implies marked@[next_nt(input.iseq()[q2])->0] by {
                                assert(input.iseq().contains(input.iseq()[q2])) by {
                                    assert(0 <= q2 < input.iseq().len());
                                }
                                assert(input.sset().contains(input.iseq()[q2]));
                                assert(iset.contains(input.iseq()[q2]));
                                lemma_next_nt_bound(*self, input.iseq()[q2]);
                                assert(m_pre[next_nt(input.iseq()[q2])->0]);
                            }
                        }
                    }
                },
                _ => {},
            }
            q = q + 1;
        }
        proof {
            lemma_count_true_le(marked@);
        }

        while stack.len() > 0
            invariant
                self.base_wf(),
                self.wf_items(iset),
                iset == input.sset(),
                n_names == self.names@.len(),
                marked@.len() == n_names,
                forall|e: int|
                    0 <= e < stack@.len() ==> marked@[#[trigger] stack@[e] as int] && (
                    stack@[e] as int) < n_names,
                forall|k: int|
                    #![trigger marked@[k]]
                    0 <= k < n_names && marked@[k] ==> self.is_nt_id(k) && nt_forced(
                        *self,
                        iset,
                        k,
                    ),
                forall|k: int|
                    #![trigger marked@[k]]
                    0 <= k < n_names && marked@[k] && !stack@.contains(k as usize)
                        ==> nt_expanded(*self, marked@, k),
                forall|q2: int|
                    0 <= q2 < input.iseq().len() && next_nt(#[trigger] input.iseq()[q2]) is Some
                        ==> marked@[next_nt(input.iseq()[q2])->0],
                count_true(marked@) <= n_names,
            decreases n_names - count_true(marked@), stack@.len(),
        {
            let ghost marked_entry = marked@;
            let ghost stack_entry = stack@;
            let kopt = stack.pop();
            let k = match kopt {
                Some(v) => v,
                None => 0,
            };
            proof {
                assert(kopt == Some(stack_entry[stack_entry.len() - 1]));
                assert(marked@[k as int]);
                assert(self.is_nt_id(k as int));
            }
            let ghost stack_popped = stack@;
            proof {
                assert forall|k2: int|
                    0 <= k2 < n_names && marked@[k2] && !stack@.contains(k2 as usize) && k2 != (
                k as int) implies nt_expanded(*self, marked@, k2) by {
                    assert(!stack_entry.contains(k2 as usize)) by {
                        if stack_entry.contains(k2 as usize) {
                            let e = choose|e: int|
                                0 <= e < stack_entry.len() && stack_entry[e] == (k2 as usize);
                            if e < stack_entry.len() - 1 {
                                assert(stack@[e] == stack_entry[e]);
                                assert(stack@.contains(k2 as usize));
                            } else {
                                assert(stack_entry[e] == k);
                            }
                        }
                    }
                }
            }
            let lo = self.prod_lo[k];
            let hi = self.prod_hi[k];
            let mut pid = lo;
            while pid < hi
                invariant
                    self.base_wf(),
                    self.wf_items(iset),
                    iset == input.sset(),
                    n_names == self.names@.len(),
                    marked@.len() == n_names,
                    self.is_nt_id(k as int),
                    lo == self.prod_lo@[k as int],
                    hi == self.prod_hi@[k as int],
                    lo <= pid <= hi,
                    hi <= self.prods@.len(),
                    marked@[k as int],
                    forall|e: int|
                        0 <= e < stack@.len() ==> marked@[#[trigger] stack@[e] as int] && (
                        stack@[e] as int) < n_names,
                    forall|k2: int|
                        #![trigger marked@[k2]]
                        0 <= k2 < n_names && marked@[k2] ==> self.is_nt_id(k2) && nt_forced(
                            *self,
                            iset,
                            k2,
                        ),
                    forall|k2: int|
                        #![trigger marked@[k2]]
                        0 <= k2 < n_names && marked@[k2] && !stack@.contains(k2 as usize) && k2 != (
                        k as int) ==> nt_expanded(*self, marked@, k2),
                    forall|q2: int|
                        0 <= q2 < input.iseq().len() && next_nt(#[trigger] input.iseq()[q2])
                            is Some ==> marked@[next_nt(input.iseq()[q2])->0],
                    forall|p2: int|
                        lo <= p2 < pid && next_nt(#[trigger] self.item_of_prod(p2)) is Some
                            ==> marked@[next_nt(self.item_of_prod(p2))->0],
                    count_true(marked@) <= n_names,
                    forall|x: int|
                        #![trigger marked_entry[x]]
                        0 <= x < n_names && marked_entry[x] ==> marked@[x],
                    (marked@ == marked_entry && stack@ == stack_popped) || count_true(marked@)
                        > count_true(marked_entry),
                decreases hi - pid,
            {
                proof {
                    assert(self.wf_prod(self.prods@[pid as int]));
                }
                let sym0 = self.prods[pid].rhs[0];
                match sym0 {
                    Symbol::NT(m) => {
                        proof {
                            assert(self.wf_sym(self.prods@[pid as int].rhs@[0]));
                            assert(self.is_nt_id(m as int));
                            assert(next_nt(self.item_of_prod(pid as int)) == Some(m as int));
                            assert(nt_forced(*self, iset, m as int)) by {
                                assert forall|t: Set<ItemV>, pid2: int|
                                    iset.subset_of(t) && #[trigger] self.item_closed(t)
                                        && #[trigger] self.prod_range_of(m as int, pid2) implies
                                    t.contains(self.item_of_prod(pid2)) by {
                                    assert(self.prod_range_of(k as int, pid as int));
                                    assert(t.contains(self.item_of_prod(pid as int)));
                                }
                            }
                        }
                        if !marked[m] {
                            proof {
                                lemma_count_pointwise_le(marked@, marked@.update(m as int, true));
                                lemma_count_pointwise_lt(
                                    marked@,
                                    marked@.update(m as int, true),
                                    m as int,
                                );
                                lemma_count_true_le(marked@.update(m as int, true));
                            }
                            let ghost m_pre = marked@;
                            let ghost st_pre = stack@;
                            marked.set(m, true);
                            stack.push(m);
                            proof {
                                assert(stack@.last() == m);
                                assert(stack@.contains(m));
                                assert forall|k2: int|
                                    0 <= k2 < n_names && marked@[k2] && !stack@.contains(
                                        k2 as usize,
                                    ) && k2 != (k as int) implies nt_expanded(
                                    *self,
                                    marked@,
                                    k2,
                                ) by {
                                    assert(k2 != m as int);
                                    assert(m_pre[k2]);
                                    assert(!st_pre.contains(k2 as usize)) by {
                                        if st_pre.contains(k2 as usize) {
                                            let e = choose|e: int|
                                                0 <= e < st_pre.len() && st_pre[e] == (
                                                k2 as usize);
                                            assert(stack@[e] == (k2 as usize));
                                            assert(stack@.contains(k2 as usize));
                                        }
                                    }
                                    assert(nt_expanded(*self, m_pre, k2));
                                    assert forall|pid2: int|
                                        self.prod_range_of(k2, pid2) && next_nt(
                                            #[trigger] self.item_of_prod(pid2),
                                        ) is Some implies marked@[next_nt(
                                        self.item_of_prod(pid2),
                                    )->0] by {
                                        lemma_next_nt_bound(*self, self.item_of_prod(pid2));
                                        assert(m_pre[next_nt(self.item_of_prod(pid2))->0]);
                                    }
                                }
                                assert forall|q2: int|
                                    0 <= q2 < input.iseq().len() && next_nt(
                                        #[trigger] input.iseq()[q2],
                                    ) is Some implies marked@[next_nt(input.iseq()[q2])->0] by {
                                    assert(input.iseq().contains(input.iseq()[q2])) by {
                                        assert(0 <= q2 < input.iseq().len());
                                    }
                                    assert(input.sset().contains(input.iseq()[q2]));
                                    assert(iset.contains(input.iseq()[q2]));
                                    lemma_next_nt_bound(*self, input.iseq()[q2]);
                                    assert(m_pre[next_nt(input.iseq()[q2])->0]);
                                }
                                assert forall|p2: int|
                                    lo <= p2 < pid && next_nt(
                                        #[trigger] self.item_of_prod(p2),
                                    ) is Some implies marked@[next_nt(self.item_of_prod(p2))->0] by {
                                    lemma_next_nt_bound(*self, self.item_of_prod(p2));
                                    assert(m_pre[next_nt(self.item_of_prod(p2))->0]);
                                }
                            }
                        }
                    },
                    _ => {},
                }
                pid = pid + 1;
            }
            proof {
                assert(nt_expanded(*self, marked@, k as int));
                assert forall|k2: int|
                    0 <= k2 < n_names && marked@[k2] && !stack@.contains(k2 as usize) implies
                    nt_expanded(*self, marked@, k2) by {
                    if k2 == k as int {
                        assert(nt_expanded(*self, marked@, k as int));
                    }
                }
            }
        }

        let mut out = input;
        let mut k: usize = self.n_terminals;
        while k < n_names
            invariant
                self.base_wf(),
                self.wf_items(iset),
                n_names == self.names@.len(),
                marked@.len() == n_names,
                self.n_terminals <= k <= n_names,
                forall|k2: int|
                    #![trigger marked@[k2]]
                    0 <= k2 < n_names && marked@[k2] ==> self.is_nt_id(k2) && nt_forced(
                        *self,
                        iset,
                        k2,
                    ) && nt_expanded(*self, marked@, k2),
                forall|q2: int|
                    0 <= q2 < input.iseq().len() && next_nt(#[trigger] input.iseq()[q2]) is Some
                        ==> marked@[next_nt(input.iseq()[q2])->0],
                out.dup_free(),
                self.wf_items(out.sset()),
                iset.subset_of(out.sset()),
                forall|it: ItemV| #[trigger]
                    out.sset().contains(it) ==> iset.contains(it) || (exists|pid: int|
                        0 <= pid < self.prods@.len() && marked@[self.prods@[pid].lhs as int] && it
                            == self.item_of_prod(pid)),
                forall|k2: int, pid: int|
                    #![trigger marked@[k2], self.item_of_prod(pid)]
                    self.n_terminals <= k2 < k && marked@[k2] && self.prod_range_of(k2, pid)
                        ==> out.sset().contains(self.item_of_prod(pid)),
            decreases n_names - k,
        {
            if marked[k] {
                let lo = self.prod_lo[k];
                let hi = self.prod_hi[k];
                let mut pid = lo;
                while pid < hi
                    invariant
                        self.base_wf(),
                        self.wf_items(iset),
                        n_names == self.names@.len(),
                        marked@.len() == n_names,
                        self.n_terminals <= k < n_names,
                        marked@[k as int],
                        self.is_nt_id(k as int),
                        lo == self.prod_lo@[k as int],
                        hi == self.prod_hi@[k as int],
                        lo <= pid <= hi,
                        hi <= self.prods@.len(),
                        forall|k2: int|
                            #![trigger marked@[k2]]
                            0 <= k2 < n_names && marked@[k2] ==> self.is_nt_id(k2) && nt_forced(
                                *self,
                                iset,
                                k2,
                            ) && nt_expanded(*self, marked@, k2),
                        forall|q2: int|
                            0 <= q2 < input.iseq().len() && next_nt(#[trigger] input.iseq()[q2])
                                is Some ==> marked@[next_nt(input.iseq()[q2])->0],
                        out.dup_free(),
                        self.wf_items(out.sset()),
                        iset.subset_of(out.sset()),
                        forall|it: ItemV| #[trigger]
                            out.sset().contains(it) ==> iset.contains(it) || (exists|pid2: int|
                                0 <= pid2 < self.prods@.len() && marked@[self.prods@[
                                    pid2].lhs as int] && it == self.item_of_prod(pid2)),
                        forall|k2: int, pid2: int|
                            #![trigger marked@[k2], self.item_of_prod(pid2)]
                            self.n_terminals <= k2 < k && marked@[k2] && self.prod_range_of(
                                k2,
                                pid2,
                            ) ==> out.sset().contains(self.item_of_prod(pid2)),
                        forall|pid2: int|
                            lo <= pid2 < pid ==> out.sset().contains(
                                #[trigger] self.item_of_prod(pid2),
                            ),
                    decreases hi - pid,
                {
                    proof {
                        assert(self.wf_prod(self.prods@[pid as int]));
                    }
                    let it = LR0Item {
                        lhs: self.prods[pid].lhs,
                        symbols: clone_syms(&self.prods[pid].rhs),
                        dot: 0,
                        is_start: false,
                        production_number: Some(pid),
                    };
                    proof {
                        assert(it@ =~= self.item_of_prod(pid as int));
                        assert(self.wf_item(it@));
                    }
                    if !out.contains(&it) {
                        out.push(it);
                        proof {
                            assert forall|it2: ItemV| out.sset().contains(it2) implies
                                iset.contains(it2) || (exists|pid2: int|
                                0 <= pid2 < self.prods@.len() && marked@[self.prods@[
                                    pid2].lhs as int] && it2 == self.item_of_prod(pid2)) by {
                                if it2 == it@ {
                                    assert(self.prod_range_of(k as int, pid as int));
                                    assert(self.prods@[pid as int].lhs == k);
                                    assert((pid as int) < self.prods@.len());
                                    assert(marked@[self.prods@[pid as int].lhs as int]);
                                    assert(it2 == self.item_of_prod(pid as int));
                                }
                            }
                        }
                    }
                    pid = pid + 1;
                }
            }
            k = k + 1;
        }
        proof {
            assert(self.item_closed(out.sset())) by {
                assert forall|it: ItemV, pid: int|
                    out.sset().contains(it) && next_nt(it) is Some && #[trigger] self.prod_range_of(
                        next_nt(it)->0,
                        pid,
                    ) implies out.sset().contains(#[trigger] self.item_of_prod(pid)) by {
                    let kk = next_nt(it)->0;
                    if iset.contains(it) {
                        let q2 = choose|q2: int|
                            0 <= q2 < input.iseq().len() && input.iseq()[q2] == it;
                        assert(marked@[kk]);
                    } else {
                        let pid2 = choose|pid2: int|
                            0 <= pid2 < self.prods@.len() && marked@[self.prods@[
                                pid2].lhs as int] && it == self.item_of_prod(pid2);
                        let owner = self.prods@[pid2].lhs as int;
                        assert(nt_expanded(*self, marked@, owner));
                        crate::grammar::lemma_prod_in_own_range(*self, pid2);
                        assert(self.prod_range_of(owner, pid2));
                        assert(marked@[kk]);
                    }
                    assert(self.is_nt_id(kk));
                    assert(marked@[kk] && self.prod_range_of(kk, pid));
                }
            }
            assert forall|t: Set<ItemV>|
                iset.subset_of(t) && #[trigger] self.item_closed(t) implies out.sset().subset_of(
                t,
            ) by {
                assert forall|it: ItemV| out.sset().contains(it) implies t.contains(it) by {
                    if !iset.contains(it) {
                        let pid2 = choose|pid2: int|
                            0 <= pid2 < self.prods@.len() && marked@[self.prods@[
                                pid2].lhs as int] && it == self.item_of_prod(pid2);
                        let owner = self.prods@[pid2].lhs as int;
                        assert(nt_forced(*self, iset, owner));
                        crate::grammar::lemma_prod_in_own_range(*self, pid2);
                        assert(self.prod_range_of(owner, pid2));
                        assert(t.contains(self.item_of_prod(pid2)));
                    }
                }
            }
            assert(self.is_closure_of(iset, out.sset()));
            lemma_closure_unique(*self, iset, out.sset());
        }
        out
    }

    /// The goto operation: the closure of the items of `iset` with `x` right
    /// of the dot, advanced past it.
    pub fn goto(&self, iset: &ItemSet, x: Symbol) -> (r: ItemSet)
        requires
            self.base_wf(),
            iset.dup_free(),
            self.wf_items(iset.sset()),
        ensures
            r.dup_free(),
            self.wf_items(r.sset()),
            self.is_closure_of(self.advance_set(iset.sset(), x), r.sset()),
            r.sset() == self.spec_goto(iset.sset(), x),
    {
        let mut adv = ItemSet::new();
        let n = iset.len();
        let mut q: usize = 0;
        while q < n
            invariant
                self.base_wf(),
                iset.dup_free(),
                self.wf_items(iset.sset()),
                n == iset.iseq().len(),
                q <= n,
                adv.dup_free(),
                self.wf_items(adv.sset()),
                forall|it2: ItemV| #[trigger]
                    adv.sset().contains(it2) ==> exists|it: ItemV|
                        iset.sset().contains(it) && it.sym_after_dot() == Some(x) && it2
                            == it.advanced(),
                forall|q2: int|
                    0 <= q2 < q && (#[trigger] iset.iseq()[q2]).sym_after_dot() == Some(x)
                        ==> adv.sset().contains(iset.iseq()[q2].advanced()),
            decreases n - q,
        {
            let has = match iset.0[q].symbol_after_dot() {
                Some(s) => s == x,
                None => false,
            };
            if has {
                proof {
                    assert(iset.sset().contains(iset.iseq()[q as int]));
                    assert(self.wf_item(iset.iseq()[q as int]));
                }
                let src = &iset.0[q];
                let sl = src.symbols.len();
                proof {
                    assert(src.dot < sl);
                }
                let it = LR0Item {
                    lhs: src.lhs,
                    symbols: clone_syms(&src.symbols),
                    dot: src.dot + 1,
                    is_start: src.is_start,
                    production_number: src.production_number,
                };
                proof {
                    assert(it@ =~= iset.iseq()[q as int].advanced());
                    assert(self.wf_item(it@));
                    assert(iset.sset().contains(iset.iseq()[q as int]) && iset.iseq()[
                        q as int].sym_after_dot() == Some(x) && it@ == iset.iseq()[
                        q as int].advanced());
                }
                if !adv.contains(&it) {
                    adv.push(it);
                }
            }
            q = q + 1;
        }
        proof {
            assert(adv.sset() =~= self.advance_set(iset.sset(), x)) by {
                assert forall|it2: ItemV|
                    self.advance_set(iset.sset(), x).contains(it2) implies adv.sset().contains(
                    it2,
                ) by {
                    let it = choose|it: ItemV|
                        #[trigger] iset.sset().contains(it) && it.sym_after_dot() == Some(x) && it2
                            == it.advanced();
                    let q2 = choose|q2: int|
                        0 <= q2 < iset.iseq().len() && iset.iseq()[q2] == it;
                    assert(adv.sset().contains(iset.iseq()[q2].advanced()));
                }
            }
        }
        self.closure(adv)
    }
}


/// The largest right-hand-side length over all productions.
pub open spec fn max_rhs(prods: Seq<Prod>) -> int
    decreases prods.len(),
{
    if prods.len() == 0 {
        0
    } else {
        let m = max_rhs(prods.drop_last());
        if prods.last().rhs@.len() > m {
            prods.last().rhs@.len() as int
        } else {
            m
        }
    }
}

pub proof fn lemma_max_rhs(prods: Seq<Prod>, p: int)
    requires
        0 <= p < prods.len(),
    ensures
        prods[p].rhs@.len() <= max_rhs(prods),
        max_rhs(prods) >= 0,
    decreases prods.len(),
{
    if p == prods.len() - 1 {
        lemma_max_rhs_nonneg(prods.drop_last());
    } else {
        lemma_max_rhs(prods.drop_last(), p);
    }
}

pub proof fn lemma_max_rhs_nonneg(prods: Seq<Prod>)
    ensures
        max_rhs(prods) >= 0,
    decreases prods.len(),
{
    if prods.len() > 0 {
        lemma_max_rhs_nonneg(prods.drop_last());
    }
}

impl GrammarHelper {
    /// A numeric code for a well-formed item, injective over them: the
    /// augmented-start items come first, then the production items laid out
    /// by production id and dot.
    pub open spec fn enc_item(&self, it: ItemV) -> int {
        if it.is_start {
            it.lhs * 2 + it.dot
        } else {
            2 * (self.n_names() + 1) + (it.prod->0) * (max_rhs(self.prods@) + 1) + it.dot
        }
    }

    /// A strict upper bound on every well-formed item's code.
    pub open spec fn enc_bound(&self) -> int {
        2 * (self.n_names() + 1) + self.prods@.len() * (max_rhs(self.prods@) + 1) + max_rhs(
            self.prods@,
        ) + 1
    }

    /// The symbol with table id `id`: a terminal in the terminal band, a
    /// nonterminal above it.
    pub open spec fn id_sym(&self, id: int) -> Symbol {
        if id < self.n_terminals {
            Symbol::T(id as usize)
        } else {
            Symbol::NT(id as usize)
        }
    }

    /// Every state of the canonical collection is a duplicate-free,
    /// well-formed, closed item set, and no two states are equal.
    pub open spec fn coll_wf(&self) -> bool {
        &&& forall|i: int|
            0 <= i < self.canonical_collection@.len() ==> (#[trigger] self.canonical_collection@[
                i]).dup_free() && self.wf_items(self.canonical_collection@[i].sset())
                && self.item_closed(self.canonical_collection@[i].sset())
        &&& forall|i: int, j: int|
            0 <= i < j < self.canonical_collection@.len()
                ==> (#[trigger] self.canonical_collection@[i]).sset()
                != (#[trigger] self.canonical_collection@[j]).sset()
    }

    /// The collection is closed under goto: every nonempty goto of a state
    /// on a declared symbol is again a state.
    pub open spec fn coll_complete(&self) -> bool {
        forall|i: int, x: int|
            #![trigger self.spec_goto(self.canonical_collection@[i].sset(), self.id_sym(x))]
            0 <= i < self.canonical_collection@.len() && 0 <= x < self.n_names() ==> {
                let g = self.spec_goto(self.canonical_collection@[i].sset(), self.id_sym(x));
                g == Set::<ItemV>::empty() || exists|j: int|
                    0 <= j < self.canonical_collection@.len()
                        && (#[trigger] self.canonical_collection@[j]).sset() == g
            }
    }

    /// The set of augmented-start items, one per declared start.
    pub open spec fn seed_set(&self) -> Set<ItemV> {
        Set::new(
            |it: ItemV| exists|s: int| 0 <= s < self.start_ids@.len() && it == self.start_item(s),
        )
    }
}

pub proof fn lemma_enc_bound(h: GrammarHelper, it: ItemV)
    requires
        h.base_wf(),
        h.wf_item(it),
    ensures
        0 <= h.enc_item(it) < h.enc_bound(),
{
    let d = max_rhs(h.prods@);
    lemma_max_rhs_nonneg(h.prods@);
    if it.is_start {
        assert(it.lhs * 2 + it.dot >= 0) by (nonlinear_arith)
            requires
                it.lhs >= 0,
                it.dot >= 0,
        ;
        assert(it.lhs * 2 + it.dot < 2 * (h.n_names() + 1)) by (nonlinear_arith)
            requires
                it.lhs < h.n_names(),
                it.dot <= 1,
        ;
        assert(h.prods@.len() * (d + 1) >= 0) by (nonlinear_arith)
            requires
                d >= 0,
                h.prods@.len() >= 0,
        ;
    } else {
        let pid = it.prod->0;
        lemma_max_rhs(h.prods@, pid);
        assert(it.dot <= d);
        assert(pid * (d + 1) >= 0) by (nonlinear_arith)
            requires
                pid >= 0,
                d >= 0,
        ;
        assert(pid * (d + 1) + it.dot <= (h.prods@.len() - 1) * (d + 1) + d) by (nonlinear_arith)
            requires
                0 <= pid <= h.prods@.len() - 1,
                0 <= it.dot <= d,
        ;
        assert((h.prods@.len() - 1) * (d + 1) + d < h.prods@.len() * (d + 1) + d + 1)
            by (nonlinear_arith)
            requires
                d >= 0,
                h.prods@.len() >= 1,
        ;
    }
}

pub proof fn lemma_enc_inj(h: GrammarHelper, a: ItemV, b: ItemV)
    requires
        h.base_wf(),
        h.wf_item(a),
        h.wf_item(b),
        h.enc_item(a) == h.enc_item(b),
    ensures
        a == b,
{
    let d = max_rhs(h.prods@);
    lemma_max_rhs_nonneg(h.prods@);
    if a.is_start != b.is_start {
        let st = if a.is_start {
            a
        } else {
            b
        };
        let ns = if a.is_start {
            b
        } else {
            a
        };
        lemma_max_rhs(h.prods@, ns.prod->0);
        assert(st.lhs * 2 + st.dot < 2 * (h.n_names() + 1)) by (nonlinear_arith)
            requires
                st.lhs < h.n_names(),
                st.dot <= 1,
        ;
        assert((ns.prod->0) * (d + 1) + ns.dot >= 0) by (nonlinear_arith)
            requires
                ns.prod->0 >= 0,
                d >= 0,
                ns.dot >= 0,
        ;
        assert(false);
    } else if a.is_start {
        assert(a.lhs == b.lhs && a.dot == b.dot) by (nonlinear_arith)
            requires
                a.lhs * 2 + a.dot == b.lhs * 2 + b.dot,
                0 <= a.dot <= 1,
                0 <= b.dot <= 1,
        ;
        assert(a =~= b);
    } else {
        let p1 = a.prod->0;
        let p2 = b.prod->0;
        lemma_max_rhs(h.prods@, p1);
        lemma_max_rhs(h.prods@, p2);
        assert(p1 == p2 && a.dot == b.dot) by (nonlinear_arith)
            requires
                p1 * (d + 1) + a.dot == p2 * (d + 1) + b.dot,
                0 <= a.dot <= d,
                0 <= b.dot <= d,
        ;
        assert(a =~= b);
    }
}

/// The codes of one item set.
pub open spec fn iset_code(h: GrammarHelper, s: Set<ItemV>) -> Set<int> {
    s.map(|it: ItemV| h.enc_item(it))
}

pub proof fn lemma_iset_code_distinct(h: GrammarHelper, s1: Set<ItemV>, s2: Set<ItemV>)
    requires
        h.base_wf(),
        h.wf_items(s1),
        h.wf_items(s2),
        s1 != s2,
    ensures
        iset_code(h, s1) != iset_code(h, s2),
{
    let f = |it: ItemV| h.enc_item(it);
    assert(exists|x: ItemV| s1.contains(x) != s2.contains(x)) by {
        if forall|x: ItemV| #[trigger] s1.contains(x) == s2.contains(x) {
            assert(s1 =~= s2);
        }
    }
    let x = choose|x: ItemV| s1.contains(x) != s2.contains(x);
    if s1.contains(x) {
        assert(iset_code(h, s1).contains(f(x)));
        if iset_code(h, s2).contains(f(x)) {
            let y = choose|y: ItemV| #[trigger] s2.contains(y) && f(x) == f(y);
            lemma_enc_inj(h, x, y);
            assert(false);
        }
        assert(iset_code(h, s1) != iset_code(h, s2));
    } else {
        assert(s2.contains(x));
        assert(iset_code(h, s2).contains(f(x)));
        if iset_code(h, s1).contains(f(x)) {
            let y = choose|y: ItemV| #[trigger] s1.contains(y) && f(x) == f(y);
            lemma_enc_inj(h, x, y);
            assert(false);
        }
        assert(iset_code(h, s1) != iset_code(h, s2));
    }
}

/// The finite sets of integers below a bound.
pub open spec fn pset_int(b: int) -> Set<Set<int>> {
    Set::new(|s: Set<int>| s.finite() && s.subset_of(vstd::set_lib::set_int_range(0, b)))
}

pub proof fn lemma_pset_int_finite(b: int)
    requires
        b >= 0,
    ensures
        pset_int(b).finite(),
    decreases b,
{
    if b == 0 {
        assert forall|s: Set<int>| pset_int(0).contains(s) implies s == Set::<int>::empty() by {
            assert(s =~= Set::<int>::empty());
        }
        assert(pset_int(0) =~= Set::<Set<int>>::empty().insert(Set::<int>::empty()));
    } else {
        lemma_pset_int_finite(b - 1);
        let prev = pset_int(b - 1);
        let f = |s: Set<int>| s.insert(b - 1);
        let ext = prev.map(f);
        prev.lemma_map_finite(f);
        assert forall|s: Set<int>| pset_int(b).contains(s) implies prev.union(ext).contains(
            s,
        ) by {
            if s.contains(b - 1) {
                let s2 = s.remove(b - 1);
                assert(s2.finite());
                assert(s2.subset_of(vstd::set_lib::set_int_range(0, b - 1)));
                assert(prev.contains(s2));
                assert(f(s2) =~= s);
                assert(ext.contains(f(s2)));
            } else {
                assert(s.subset_of(vstd::set_lib::set_int_range(0, b - 1)));
            }
        }
        assert forall|s: Set<int>| prev.union(ext).contains(s) implies pset_int(b).contains(
            s,
        ) by {
            if prev.contains(s) {
            } else {
                let s2 = choose|s2: Set<int>| #[trigger] prev.contains(s2) && s == f(s2);
            }
        }
        assert(pset_int(b) =~= prev.union(ext));
    }
}

/// Every item-level notion is unchanged between two contexts that share the
/// structural fields; only the working tables may differ.
pub proof fn lemma_coll_frame(a: GrammarHelper, b: GrammarHelper)
    requires
        b.n_terminals == a.n_terminals,
        b.names == a.names,
        b.start_ids == a.start_ids,
        b.prods == a.prods,
        b.prod_lo == a.prod_lo,
        b.prod_hi == a.prod_hi,
    ensures
        forall|s: Set<ItemV>| #[trigger] a.wf_items(s) ==> b.wf_items(s),
        forall|s: Set<ItemV>| #[trigger] a.item_closed(s) ==> b.item_closed(s),
        forall|s: Set<ItemV>| #[trigger] b.item_closed(s) ==> a.item_closed(s),
        forall|s: Set<ItemV>| a.set_closure(s) == #[trigger] b.set_closure(s),
        forall|s: Set<ItemV>, x: Symbol| a.spec_goto(s, x) == #[trigger] b.spec_goto(s, x),
        a.seed_set() == b.seed_set(),
        forall|pid: int| a.item_of_prod(pid) == #[trigger] b.item_of_prod(pid),
        a.enc_bound() == b.enc_bound(),
        forall|x: int| a.id_sym(x) == #[trigger] b.id_sym(x),
{
    assert forall|pid: int| a.item_of_prod(pid) == #[trigger] b.item_of_prod(pid) by {
        assert(a.item_of_prod(pid) =~= b.item_of_prod(pid));
    }
    assert forall|t: Set<ItemV>| #[trigger] a.item_closed(t) implies b.item_closed(t) by {
        assert forall|it: ItemV, pid: int|
            #![trigger t.contains(it), b.item_of_prod(pid)]
            t.contains(it) && next_nt(it) is Some && b.prod_range_of(next_nt(it)->0, pid) implies
            t.contains(b.item_of_prod(pid)) by {
            assert(a.prod_range_of(next_nt(it)->0, pid));
            assert(t.contains(a.item_of_prod(pid)));
        }
    }
    assert forall|t: Set<ItemV>| #[trigger] b.item_closed(t) implies a.item_closed(t) by {
        assert forall|it: ItemV, pid: int|
            #![trigger t.contains(it), a.item_of_prod(pid)]
            t.contains(it) && next_nt(it) is Some && a.prod_range_of(next_nt(it)->0, pid) implies
            t.contains(a.item_of_prod(pid)) by {
            assert(b.prod_range_of(next_nt(it)->0, pid));
            assert(t.contains(b.item_of_prod(pid)));
        }
    }
    assert forall|s: Set<ItemV>| #[trigger] a.wf_items(s) implies b.wf_items(s) by {
        assert forall|it: ItemV| #[trigger] s.contains(it) implies b.wf_item(it) by {
            assert(a.wf_item(it));
        }
    }
    assert forall|s: Set<ItemV>| a.set_closure(s) == #[trigger] b.set_closure(s) by {
        assert forall|it: ItemV|
            a.set_closure(s).contains(it) implies b.set_closure(s).contains(it) by {
            assert forall|t: Set<ItemV>| s.subset_of(t) && #[trigger] b.item_closed(t) implies
                t.contains(it) by {
                assert(a.item_closed(t));
            }
        }
        assert forall|it: ItemV|
            b.set_closure(s).contains(it) implies a.set_closure(s).contains(it) by {
            assert forall|t: Set<ItemV>| s.subset_of(t) && #[trigger] a.item_closed(t) implies
                t.contains(it) by {
                assert(b.item_closed(t));
            }
        }
        assert(a.set_closure(s) =~= b.set_closure(s));
    }
    assert forall|s: Set<ItemV>, x: Symbol|
        a.spec_goto(s, x) == #[trigger] b.spec_goto(s, x) by {
        assert(a.advance_set(s, x) =~= b.advance_set(s, x));
        assert(a.set_closure(a.advance_set(s, x)) == b.set_closure(a.advance_set(s, x)));
    }
    assert(a.seed_set() =~= b.seed_set()) by {
        assert forall|it: ItemV| a.seed_set().contains(it) implies b.seed_set().contains(it) by {
            let s2 = choose|s2: int|
                0 <= s2 < a.start_ids@.len() && it == a.start_item(s2);
            assert(a.start_item(s2) =~= b.start_item(s2));
            assert(0 <= s2 < b.start_ids@.len() && it == b.start_item(s2));
        }
        assert forall|it: ItemV| b.seed_set().contains(it) implies a.seed_set().contains(it) by {
            let s2 = choose|s2: int|
                0 <= s2 < b.start_ids@.len() && it == b.start_item(s2);
            assert(a.start_item(s2) =~= b.start_item(s2));
            assert(0 <= s2 < a.start_ids@.len() && it == a.start_item(s2));
        }
    }
    assert forall|x: int| a.id_sym(x) == #[trigger] b.id_sym(x) by {}
}

/// No more pairwise-distinct well-formed states can exist than there are
/// finite code sets below the bound.
pub proof fn lemma_collection_bounded(h: GrammarHelper, coll: Seq<ItemSet>)
    requires
        h.base_wf(),
        forall|i: int|
            0 <= i < coll.len() ==> h.wf_items((#[trigger] coll[i]).sset()),
        forall|i: int, j: int|
            0 <= i < j < coll.len() ==> (#[trigger] coll[i]).sset() != (#[trigger] coll[j]).sset(),
    ensures
        coll.len() <= pset_int(h.enc_bound()).len(),
{
    broadcast use vstd::seq_lib::seq_to_set_is_finite;

    let codes = Seq::new(coll.len(), |i: int| iset_code(h, coll[i].sset()));
    assert forall|i: int, j: int| 0 <= i < j < codes.len() implies codes[i] != codes[j] by {
        lemma_iset_code_distinct(h, coll[i].sset(), coll[j].sset());
    }
    assert(codes.no_duplicates());
    codes.unique_seq_to_set();
    assert(h.enc_bound() >= 0) by {
        lemma_max_rhs_nonneg(h.prods@);
        assert(h.prods@.len() * (max_rhs(h.prods@) + 1) >= 0) by (nonlinear_arith)
            requires
                h.prods@.len() >= 0,
                max_rhs(h.prods@) >= 0,
        ;
    }
    lemma_pset_int_finite(h.enc_bound());
    assert forall|c: Set<int>| codes.to_set().contains(c) implies pset_int(
        h.enc_bound(),
    ).contains(c) by {
        let i = choose|i: int| 0 <= i < codes.len() && codes[i] == c;
        let s = coll[i].sset();
        assert(s.finite());
        s.lemma_map_finite(|it: ItemV| h.enc_item(it));
        assert forall|cd: int| c.contains(cd) implies vstd::set_lib::set_int_range(
            0,
            h.enc_bound(),
        ).contains(cd) by {
            let it = choose|it: ItemV| #[trigger] s.contains(it) && cd == h.enc_item(it);
            lemma_enc_bound(h, it);
        }
    }
    vstd::set_lib::lemma_len_subset(codes.to_set(), pset_int(h.enc_bound()));
}

impl GrammarHelper {
    /// Looks a state up by content among the states already collected.
    pub fn find_state(&self, g: &ItemSet) -> (r: Option<usize>)
        ensures
            match r {
                Some(j) => j < self.canonical_collection@.len()
                    && self.canonical_collection@[j as int].sset() == g.sset(),
                None => forall|j: int|
                    0 <= j < self.canonical_collection@.len()
                        ==> (#[trigger] self.canonical_collection@[j]).sset() != g.sset(),
            },
    {
        let n = self.canonical_collection.len();
        let mut j: usize = 0;
        while j < n
            invariant
                n == self.canonical_collection@.len(),
                j <= n,
                forall|q: int|
                    0 <= q < j ==> (#[trigger] self.canonical_collection@[q]).sset() != g.sset(),
            decreases n - j,
        {
            if self.canonical_collection[j].same_state(g) {
                return Some(j);
            }
            j = j + 1;
        }
        None
    }

    /// Computes FIRST and FOLLOW and seeds the canonical collection with
    /// the closure of the set of augmented-start items, the single initial
    /// state.
    pub fn init(&mut self)
        requires
            old(self).base_wf(),
        ensures
            final(self).base_wf(),
            final(self).n_terminals == old(self).n_terminals,
            final(self).names == old(self).names,
            final(self).patterns == old(self).patterns,
            final(self).start_ids == old(self).start_ids,
            final(self).prods == old(self).prods,
            final(self).prod_lo == old(self).prod_lo,
            final(self).prod_hi == old(self).prod_hi,
            final(self).first_ok(),
            final(self).follow_ok(),
            final(self).coll_wf(),
            final(self).canonical_collection@.len() == 1,
            final(self).canonical_collection@[0].sset() == final(self).set_closure(
                final(self).seed_set(),
            ),
            final(self).seed_set().subset_of(final(self).canonical_collection@[0].sset()),
    {
        self.compute_first_sets();
        self.compute_follow_sets();
        let mut seed = ItemSet::new();
        let n_starts = self.start_ids.len();
        let mut s: usize = 0;
        while s < n_starts
            invariant
                self.base_wf(),
                n_starts == self.start_ids@.len(),
                s <= n_starts,
                seed.dup_free(),
                self.wf_items(seed.sset()),
                forall|it: ItemV| #[trigger]
                    seed.sset().contains(it) ==> exists|s2: int|
                        0 <= s2 < s && it == self.start_item(s2),
                forall|s2: int| 0 <= s2 < s ==> seed.sset().contains(#[trigger] self.start_item(s2)),
            decreases n_starts - s,
        {
            let sid = self.start_ids[s];
            let mut symv: Vec<Symbol> = Vec::new();
            symv.push(Symbol::NT(sid));
            let it = LR0Item {
                lhs: sid,
                symbols: symv,
                dot: 0,
                is_start: true,
                production_number: None,
            };
            proof {
                assert(it@.syms =~= seq![Symbol::NT(sid)]);
                assert(it@ =~= self.start_item(s as int));
                assert(self.wf_item(it@));
            }
            if !seed.contains(&it) {
                seed.push(it);
            }
            s = s + 1;
        }
        proof {
            assert(seed.sset() =~= self.seed_set());
        }
        let c0 = self.closure(seed);
        let ghost hpre = *self;
        let mut cc: Vec<ItemSet> = Vec::new();
        cc.push(c0);
        self.canonical_collection = cc;
        proof {
            crate::grammar::lemma_base_wf_same(hpre, *self);
            lemma_coll_frame(hpre, *self);
            assert(self.canonical_collection@[0] == c0);
            assert(hpre.wf_items(c0.sset()));
            assert(hpre.item_closed(c0.sset()));
            assert(self.wf_items(c0.sset()));
            assert(self.item_closed(c0.sset()));
            assert(c0.sset() == hpre.set_closure(hpre.seed_set()));
            assert(self.set_closure(self.seed_set()) == hpre.set_closure(hpre.seed_set()));
            assert(hpre.seed_set().subset_of(c0.sset()));
            assert(self.coll_wf());
        }
    }

    /// Builds the canonical collection: starting from the seeded initial
    /// state, repeatedly takes the goto of every collected state on every
    /// declared symbol, appending each nonempty goto that is not yet a
    /// state, in discovery order, until nothing new appears.
    #[verifier::rlimit(100)]
    pub fn build(&mut self)
        requires
            old(self).base_wf(),
            old(self).coll_wf(),
        ensures
            final(self).base_wf(),
            final(self).n_terminals == old(self).n_terminals,
            final(self).names == old(self).names,
            final(self).patterns == old(self).patterns,
            final(self).start_ids == old(self).start_ids,
            final(self).prods == old(self).prods,
            final(self).prod_lo == old(self).prod_lo,
            final(self).prod_hi == old(self).prod_hi,
            final(self).first_sets == old(self).first_sets,
            final(self).follow_sets == old(self).follow_sets,
            final(self).coll_wf(),
            final(self).coll_complete(),
            final(self).canonical_collection@.len() >= old(self).canonical_collection@.len(),
            forall|q: int|
                0 <= q < old(self).canonical_collection@.len()
                    ==> final(self).canonical_collection@[q] == old(
                    self,
                ).canonical_collection@[q],

    {
        let ghost s0 = *self;
        let ghost cap = pset_int(self.enc_bound()).len() as int;
        proof {
            lemma_collection_bounded(*self, self.canonical_collection@);
        }
        let mut i: usize = 0;
        while i < self.canonical_collection.len()
            invariant
                self.base_wf(),
                self.n_terminals == s0.n_terminals,
                self.names == s0.names,
                self.patterns == s0.patterns,
                self.start_ids == s0.start_ids,
                self.prods == s0.prods,
                self.prod_lo == s0.prod_lo,
                self.prod_hi == s0.prod_hi,
                self.first_sets == s0.first_sets,
                self.follow_sets == s0.follow_sets,
                self.coll_wf(),
                i <= self.canonical_collection@.len(),
                self.canonical_collection@.len() >= s0.canonical_collection@.len(),
                forall|q: int|
                    0 <= q < s0.canonical_collection@.len() ==> self.canonical_collection@[q]
                        == s0.canonical_collection@[q],
                cap == pset_int(self.enc_bound()).len() as int,
                self.canonical_collection@.len() <= cap,
                forall|i2: int, x2: int|
                    #![trigger self.spec_goto(self.canonical_collection@[i2].sset(), self.id_sym(x2))]
                    0 <= i2 < i && 0 <= x2 < self.n_names() ==> {
                        let g = self.spec_goto(
                            self.canonical_collection@[i2].sset(),
                            self.id_sym(x2),
                        );
                        g == Set::<ItemV>::empty() || exists|j: int|
                            0 <= j < self.canonical_collection@.len()
                                && (#[trigger] self.canonical_collection@[j]).sset() == g
                    },
            decreases cap + 1 - self.canonical_collection@.len(), self.canonical_collection@.len() - i,
        {
            let n_names = self.names.len();
            let ghost len_at_i = self.canonical_collection@.len() as int;
            let mut x: usize = 0;
            while x < n_names
                invariant
                    self.canonical_collection@.len() >= len_at_i,
                    i < len_at_i,
                    self.base_wf(),
                    self.n_terminals == s0.n_terminals,
                    self.names == s0.names,
                    self.patterns == s0.patterns,
                    self.start_ids == s0.start_ids,
                    self.prods == s0.prods,
                    self.prod_lo == s0.prod_lo,
                    self.prod_hi == s0.prod_hi,
                    self.first_sets == s0.first_sets,
                    self.follow_sets == s0.follow_sets,
                    n_names == self.names@.len(),
                    self.coll_wf(),
                    i < self.canonical_collection@.len(),
                    x <= n_names,
                    self.canonical_collection@.len() >= s0.canonical_collection@.len(),
                    forall|q: int|
                        0 <= q < s0.canonical_collection@.len() ==> self.canonical_collection@[q]
                            == s0.canonical_collection@[q],
                    cap == pset_int(self.enc_bound()).len() as int,
                    self.canonical_collection@.len() <= cap,
                    forall|i2: int, x2: int|
                        #![trigger self.spec_goto(self.canonical_collection@[i2].sset(), self.id_sym(x2))]
                        0 <= i2 < i && 0 <= x2 < self.n_names() ==> {
                            let g = self.spec_goto(
                                self.canonical_collection@[i2].sset(),
                                self.id_sym(x2),
                            );
                            g == Set::<ItemV>::empty() || exists|j: int|
                                0 <= j < self.canonical_collection@.len()
                                    && (#[trigger] self.canonical_collection@[j]).sset() == g
                        },
                    forall|x2: int|
                        #![trigger self.id_sym(x2)]
                        0 <= x2 < x ==> {
                            let g = self.spec_goto(
                                self.canonical_collection@[i as int].sset(),
                                self.id_sym(x2),
                            );
                            g == Set::<ItemV>::empty() || exists|j: int|
                                0 <= j < self.canonical_collection@.len()
                                    && (#[trigger] self.canonical_collection@[j]).sset() == g
                        },
                decreases n_names - x,
            {
                let xs = if x < self.n_terminals {
                    Symbol::T(x)
                } else {
                    Symbol::NT(x)
                };
                proof {
                    assert(xs == self.id_sym(x as int));
                }
                let g = self.goto(&self.canonical_collection[i], xs);
                if g.len() > 0 {
                    proof {
                        assert(g.sset().contains(g.iseq()[0]));
                        assert(g.sset() != Set::<ItemV>::empty());
                    }
                    match self.find_state(&g) {
                        Some(_) => {},
                        None => {
                            let ghost sp = *self;
                            let ghost pre = self.canonical_collection@;
                            self.canonical_collection.push(g);
                            proof {
                                crate::grammar::lemma_base_wf_same(sp, *self);
                                lemma_coll_frame(sp, *self);
                                let cur = self.canonical_collection@;
                                assert(cur == pre.push(g));
                                assert forall|q: int| 0 <= q < pre.len() implies cur[q] == pre[
                                q] by {}
                                assert forall|q: int|
                                    0 <= q < cur.len() implies (#[trigger] cur[q]).dup_free()
                                    && self.wf_items(cur[q].sset()) && self.item_closed(
                                    cur[q].sset(),
                                ) by {
                                    if q < cur.len() - 1 {
                                        assert(cur[q] == pre[q]);
                                        assert(sp.wf_items(pre[q].sset()));
                                        assert(sp.item_closed(pre[q].sset()));
                                    } else {
                                        assert(cur[q] == g);
                                        assert(sp.wf_items(g.sset()));
                                        assert(sp.item_closed(g.sset()));
                                    }
                                }
                                assert forall|q1: int, q2: int|
                                    0 <= q1 < q2 < cur.len() implies (#[trigger] cur[q1]).sset()
                                    != (#[trigger] cur[q2]).sset() by {
                                    if q2 == cur.len() - 1 {
                                        assert(pre[q1].sset() != g.sset());
                                    }
                                }
                                assert(self.coll_wf());
                                lemma_collection_bounded(*self, self.canonical_collection@);
                                assert(self.canonical_collection@.len() <= cap);
                                assert forall|i2: int, x2: int|
                                    0 <= i2 < i && 0 <= x2 < self.n_names() implies {
                                    let gg = self.spec_goto(
                                        #[trigger] self.canonical_collection@[i2].sset(),
                                        #[trigger] self.id_sym(x2),
                                    );
                                    gg == Set::<ItemV>::empty() || exists|j: int|
                                        0 <= j < self.canonical_collection@.len() && (
                                        #[trigger] self.canonical_collection@[j]).sset() == gg
                                } by {
                                    let gold = sp.spec_goto(
                                        sp.canonical_collection@[i2].sset(),
                                        sp.id_sym(x2),
                                    );
                                    assert(cur[i2] == pre[i2]);
                                    assert(self.spec_goto(cur[i2].sset(), self.id_sym(x2))
                                        == gold);
                                    if gold != Set::<ItemV>::empty() {
                                        let j = choose|j: int|
                                            0 <= j < pre.len() && (#[trigger] pre[j]).sset()
                                                == gold;
                                        assert(cur[j].sset() == gold);
                                    }
                                }
                                assert forall|x2: int| 0 <= x2 < x + 1 implies {
                                    let gg = self.spec_goto(
                                        self.canonical_collection@[i as int].sset(),
                                        #[trigger] self.id_sym(x2),
                                    );
                                    gg == Set::<ItemV>::empty() || exists|j: int|
                                        0 <= j < self.canonical_collection@.len() && (
                                        #[trigger] self.canonical_collection@[j]).sset() == gg
                                } by {
                                    assert(cur[i as int] == pre[i as int]);
                                    if x2 < x {
                                        let gold = sp.spec_goto(
                                            sp.canonical_collection@[i as int].sset(),
                                            sp.id_sym(x2),
                                        );
                                        assert(self.spec_goto(cur[i as int].sset(), self.id_sym(x2))
                                            == gold);
                                        if gold != Set::<ItemV>::empty() {
                                            let j = choose|j: int|
                                                0 <= j < pre.len() && (#[trigger] pre[j]).sset()
                                                    == gold;
                                            assert(cur[j].sset() == gold);
                                        }
                                    } else {
                                        assert(self.spec_goto(cur[i as int].sset(), self.id_sym(x2))
                                            == sp.spec_goto(sp.canonical_collection@[
                                            i as int].sset(), sp.id_sym(x2)));
                                        assert(cur[cur.len() - 1].sset() == g.sset());
                                        assert(g.sset() == sp.spec_goto(sp.canonical_collection@[
                                            i as int].sset(), xs));
                                    }
                                }
                            }
                        },
                    }
                } else {
                    proof {
                        assert(g.iseq() =~= Seq::<ItemV>::empty());
                        assert forall|itx: ItemV| !g.sset().contains(itx) by {}
                        assert(g.sset() =~= Set::<ItemV>::empty());
                    }
                }
                x = x + 1;
            }
            i = i + 1;
        }
    }
}

} // verus!
