use vstd::prelude::*;

use crate::grammar::Symbol;

verus! {

/// Mathematical mirror of an [`LR0Item`]: the same five fields over `int`,
/// `Seq` and `Option<int>`, so that item sets can be reasoned about as
/// `Set<ItemV>` values.
#[verifier::ext_equal]
pub struct ItemV {
    pub lhs: int,
    pub syms: Seq<Symbol>,
    pub dot: int,
    pub is_start: bool,
    pub prod: Option<int>,
}

impl ItemV {
    /// The symbol right of the dot, if the dot is not at the end.
    pub open spec fn sym_after_dot(self) -> Option<Symbol> {
        if 0 <= self.dot < self.syms.len() {
            Some(self.syms[self.dot])
        } else {
            None
        }
    }

    pub open spec fn dot_at_end(self) -> bool {
        self.dot == self.syms.len()
    }

    /// The same item with the dot moved one symbol to the right.
    pub open spec fn advanced(self) -> ItemV {
        ItemV { dot: self.dot + 1, ..self }
    }
}

/// An LR(0) item: a production with a dot marking how much of its right-hand
/// side has been recognized. `lhs` is the producing nonterminal's symbol id;
/// for the synthetic augmented-start items `is_start` is true, `lhs` is the
/// start nonterminal itself and `production_number` is `None`. For ordinary
/// items `production_number` carries the production's global id.
#[derive(Debug)]
pub struct LR0Item {
    pub lhs: usize,
    pub symbols: Vec<Symbol>,
    pub dot: usize,
    pub is_start: bool,
    pub production_number: Option<usize>,
}

impl View for LR0Item {
    type V = ItemV;

    open spec fn view(&self) -> ItemV {
        ItemV {
            lhs: self.lhs as int,
            syms: self.symbols@,
            dot: self.dot as int,
            is_start: self.is_start,
            prod: match self.production_number {
                Some(n) => Some(n as int),
                None => None,
            },
        }
    }
}

impl LR0Item {
    /// The symbol right of the dot, or `None` when the dot is at the end.
    pub fn symbol_after_dot(&self) -> (r: Option<Symbol>)
        ensures
            r == self@.sym_after_dot(),
    {
        if self.dot >= self.symbols.len() {
            None
        } else {
            Some(self.symbols[self.dot])
        }
    }

    /// The symbol left of the dot, or `None` when the dot is at position 0.
    pub fn symbol_before_dot(&self) -> (r: Option<Symbol>)
        requires
            self@.dot <= self@.syms.len(),
        ensures
            r == (if self@.dot == 0 {
                Option::<Symbol>::None
            } else {
                Some(self@.syms[self@.dot - 1])
            }),
    {
        if self.dot == 0 {
            None
        } else {
            Some(self.symbols[self.dot - 1])
        }
    }

    /// The display name of the symbol right of the dot, looked up in the
    /// build context's name table.
    pub fn name_after_dot(&self, names: &Vec<String>) -> (r: Option<String>)
        requires
            forall|j: int|
                #![trigger self@.syms[j]]
                0 <= j < self@.syms.len() ==> match self@.syms[j] {
                    Symbol::T(i) => i < names@.len(),
                    Symbol::NT(i) => i < names@.len(),
                    _ => true,
                },
        ensures
            match self@.sym_after_dot() {
                Some(s) => r matches Some(n) && n@ == s.name_spec(names@),
                None => r is None,
            },
    {
        match self.symbol_after_dot() {
            Some(s) => Some(s.name(names)),
            None => None,
        }
    }

    pub fn dot_at_end(&self) -> (r: bool)
        ensures
            r == self@.dot_at_end(),
    {
        self.dot == self.symbols.len()
    }

    /// Structural equality of two items (all five fields).
    pub fn same_as(&self, other: &LR0Item) -> (r: bool)
        ensures
            r == (self@ == other@),
    {
        if self.lhs != other.lhs || self.dot != other.dot || self.is_start != other.is_start {
            return false;
        }
        let pn_eq = match (self.production_number, other.production_number) {
            (Some(a), Some(b)) => a == b,
            (None, None) => true,
            _ => false,
        };
        if !pn_eq {
            return false;
        }
        if self.symbols.len() != other.symbols.len() {
            assert(self@.syms.len() != other@.syms.len());
            return false;
        }
        let n = self.symbols.len();
        let mut j: usize = 0;
        while j < n
            invariant
                n == self@.syms.len(),
                n == other@.syms.len(),
                j <= n,
                forall|q: int| 0 <= q < j ==> self@.syms[q] == other@.syms[q],
            decreases n - j,
        {
            if self.symbols[j] != other.symbols[j] {
                return false;
            }
            j = j + 1;
        }
        proof {
            assert(self@.syms =~= other@.syms);
            assert(self@ =~= other@);
        }
        true
    }
}

/// A set of LR(0) items, stored as a duplicate-free vector in discovery
/// order. Set equality is content-defined: two `ItemSet`s are the same state
/// exactly when their `to_set` views agree.
pub struct ItemSet(pub Vec<LR0Item>);

impl ItemSet {
    /// The items as a sequence of their mathematical mirrors.
    pub open spec fn iseq(&self) -> Seq<ItemV> {
        self.0@.map(|i: int, it: LR0Item| it@)
    }

    /// The items as a set: the state this `ItemSet` denotes.
    pub open spec fn sset(&self) -> Set<ItemV> {
        self.iseq().to_set()
    }

    /// No two stored items are equal.
    pub open spec fn dup_free(&self) -> bool {
        forall|i: int, j: int| 0 <= i < j < self.iseq().len() ==> self.iseq()[i] != self.iseq()[j]
    }

    pub fn new() -> (r: ItemSet)
        ensures
            r.iseq() == Seq::<ItemV>::empty(),
            r.sset() == Set::<ItemV>::empty(),
            r.dup_free(),
    {
        let r = ItemSet(Vec::new());
        proof {
            assert(r.iseq() =~= Seq::<ItemV>::empty());
            assert(r.sset() =~= Set::<ItemV>::empty());
        }
        r
    }

    pub fn len(&self) -> (n: usize)
        ensures
            n == self.iseq().len(),
    {
        self.0.len()
    }

    /// Whether some stored item equals `it`.
    pub fn contains(&self, it: &LR0Item) -> (r: bool)
        ensures
            r == self.sset().contains(it@),
    {
        let n = self.0.len();
        let mut i: usize = 0;
        while i < n
            invariant
                n == self.iseq().len(),
                i <= n,
                forall|q: int| 0 <= q < i ==> self.iseq()[q] != it@,
            decreases n - i,
        {
            if self.0[i].same_as(it) {
                proof {
                    assert(self.iseq()[i as int] == it@);
                    assert(self.iseq().contains(it@));
                }
                return true;
            }
            i = i + 1;
        }
        proof {
            assert(!self.iseq().contains(it@));
        }
        false
    }

    /// Appends an item that is not yet present.
    pub fn push(&mut self, it: LR0Item)
        requires
            !old(self).sset().contains(it@),
        ensures
            final(self).iseq() == old(self).iseq().push(it@),
            final(self).sset() == old(self).sset().insert(it@),
            old(self).dup_free() ==> final(self).dup_free(),
    {
        self.0.push(it);
        proof {
            let s0 = old(self).iseq();
            let s1 = final(self).iseq();
            assert(s1 =~= s0.push(it@));
            assert forall|x: ItemV| s1.contains(x) implies s0.contains(x) || x == it@ by {
                let q = choose|q: int| 0 <= q < s1.len() && s1[q] == x;
                if q < s0.len() {
                    assert(s0[q] == x);
                }
            }
            assert forall|x: ItemV| s0.contains(x) implies s1.contains(x) by {
                let q = choose|q: int| 0 <= q < s0.len() && s0[q] == x;
                assert(s1[q] == x);
            }
            assert(s1[s1.len() - 1] == it@);
            assert(s1.contains(it@));
            assert(final(self).sset() =~= old(self).sset().insert(it@));
            if old(self).dup_free() {
                let t = final(self).iseq();
                assert forall|i: int, j: int| 0 <= i < j < t.len() implies t[i] != t[j] by {
                    if j < t.len() - 1 {
                    } else {
                        assert(old(self).iseq().contains(old(self).iseq()[i]));
                    }
                }
            }
        }
    }

    /// Content equality with another item set: mutual containment.
    pub fn same_state(&self, other: &ItemSet) -> (r: bool)
        ensures
            r == (self.sset() == other.sset()),
    {
        let n = self.0.len();
        let mut i: usize = 0;
        while i < n
            invariant
                n == self.iseq().len(),
                i <= n,
                forall|q: int| 0 <= q < i ==> other.sset().contains(self.iseq()[q]),
            decreases n - i,
        {
            if !other.contains(&self.0[i]) {
                proof {
                    assert(self.sset().contains(self.iseq()[i as int]));
                }
                return false;
            }
            i = i + 1;
        }
        let m = other.0.len();
        let mut j: usize = 0;
        while j < m
            invariant
                n == self.iseq().len(),
                m == other.iseq().len(),
                j <= m,
                forall|q: int| 0 <= q < n ==> other.sset().contains(self.iseq()[q]),
                forall|q: int| 0 <= q < j ==> self.sset().contains(other.iseq()[q]),
            decreases m - j,
        {
            if !self.contains(&other.0[j]) {
                proof {
                    assert(other.sset().contains(other.iseq()[j as int]));
                }
                return false;
            }
            j = j + 1;
        }
        proof {
            assert forall|x: ItemV| self.sset().contains(x) implies other.sset().contains(x) by {
                let q = choose|q: int| 0 <= q < self.iseq().len() && self.iseq()[q] == x;
                assert(other.sset().contains(self.iseq()[q]));
            }
            assert forall|x: ItemV| other.sset().contains(x) implies self.sset().contains(x) by {
                let q = choose|q: int| 0 <= q < other.iseq().len() && other.iseq()[q] == x;
                assert(self.sset().contains(other.iseq()[q]));
            }
            assert(self.sset() =~= other.sset());
        }
        true
    }
}

} // verus!
