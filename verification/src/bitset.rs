use vstd::prelude::*;

verus! {

/// How many entries of a boolean sequence are set.
pub open spec fn count_true(s: Seq<bool>) -> nat
    decreases s.len(),
{
    if s.len() == 0 {
        0
    } else {
        count_true(s.drop_last()) + (if s.last() {
            1nat
        } else {
            0nat
        })
    }
}

/// The total number of set entries over a table of rows.
pub open spec fn count_rows(ss: Seq<Seq<bool>>) -> nat
    decreases ss.len(),
{
    if ss.len() == 0 {
        0
    } else {
        count_rows(ss.drop_last()) + count_true(ss.last())
    }
}

pub proof fn lemma_count_true_le(s: Seq<bool>)
    ensures
        count_true(s) <= s.len(),
    decreases s.len(),
{
    if s.len() > 0 {
        lemma_count_true_le(s.drop_last());
    }
}

/// A pointwise-larger row has at least as many set entries.
pub proof fn lemma_count_pointwise_le(a: Seq<bool>, b: Seq<bool>)
    requires
        a.len() == b.len(),
        forall|i: int| 0 <= i < a.len() ==> (a[i] ==> b[i]),
    ensures
        count_true(a) <= count_true(b),
    decreases a.len(),
{
    if a.len() > 0 {
        lemma_count_pointwise_le(a.drop_last(), b.drop_last());
    }
}

/// A pointwise-larger row with a strictly new entry has strictly more set
/// entries.
pub proof fn lemma_count_pointwise_lt(a: Seq<bool>, b: Seq<bool>, w: int)
    requires
        a.len() == b.len(),
        forall|i: int| 0 <= i < a.len() ==> (a[i] ==> b[i]),
        0 <= w < a.len(),
        !a[w],
        b[w],
    ensures
        count_true(a) < count_true(b),
    decreases a.len(),
{
    if w == a.len() - 1 {
        lemma_count_pointwise_le(a.drop_last(), b.drop_last());
    } else {
        lemma_count_pointwise_lt(a.drop_last(), b.drop_last(), w);
    }
}

/// Replacing one row changes the total by the difference of that row's count.
pub proof fn lemma_count_rows_update(ss: Seq<Seq<bool>>, k: int, row: Seq<bool>)
    requires
        0 <= k < ss.len(),
    ensures
        count_rows(ss.update(k, row)) + count_true(ss[k]) == count_rows(ss) + count_true(row),
    decreases ss.len(),
{
    let su = ss.update(k, row);
    if k == ss.len() - 1 {
        assert(su.drop_last() =~= ss.drop_last());
        assert(su.last() == row);
    } else {
        assert(su.drop_last() =~= ss.drop_last().update(k, row));
        assert(su.last() == ss.last());
        lemma_count_rows_update(ss.drop_last(), k, row);
    }
}

/// Every row bounded by `w` bounds the total by `len * w`.
pub proof fn lemma_count_rows_bound(ss: Seq<Seq<bool>>, w: int)
    requires
        0 <= w,
        forall|c: int| 0 <= c < ss.len() ==> ss[c].len() <= w,
    ensures
        count_rows(ss) <= ss.len() * w,
    decreases ss.len(),
{
    if ss.len() > 0 {
        lemma_count_rows_bound(ss.drop_last(), w);
        lemma_count_true_le(ss.last());
        assert((ss.len() - 1) * w + w == ss.len() * w) by (nonlinear_arith);
    }
}

/// Sets `dst[i] |= src[i]` for every position but `skip`; reports whether any
/// position was newly set.
pub fn or_into(dst: &mut Vec<bool>, src: &Vec<bool>, skip: usize) -> (grew: bool)
    requires
        old(dst)@.len() == src@.len(),
    ensures
        final(dst)@.len() == old(dst)@.len(),
        forall|i: int|
            #![trigger final(dst)@[i]]
            0 <= i < final(dst)@.len() ==> final(dst)@[i] == (old(dst)@[i] || (src@[i] && i
                != skip)),
        grew == exists|i: int|
            #![trigger old(dst)@[i], src@[i]]
            0 <= i < src@.len() && !old(dst)@[i] && src@[i] && i != skip,
{
    let n = src.len();
    let ghost d0 = dst@;
    let mut grew = false;
    let mut i: usize = 0;
    while i < n
        invariant
            n == src@.len(),
            dst@.len() == n,
            d0.len() == n,
            i <= n,
            forall|q: int|
                #![trigger dst@[q]]
                0 <= q < i ==> dst@[q] == (d0[q] || (src@[q] && q != skip)),
            forall|q: int|
                #![trigger dst@[q]]
                i <= q < n ==> dst@[q] == d0[q],
            grew == exists|q: int|
                #![trigger d0[q]]
                0 <= q < i && !d0[q] && src@[q] && q != skip,
        decreases n - i,
    {
        if i != skip && src[i] && !dst[i] {
            dst.set(i, true);
            grew = true;
        }
        i = i + 1;
    }
    grew
}

/// Sets one position; reports whether it was newly set.
pub fn set_bit(dst: &mut Vec<bool>, i: usize) -> (grew: bool)
    requires
        i < old(dst)@.len(),
    ensures
        final(dst)@ == old(dst)@.update(i as int, true),
        grew == !old(dst)@[i as int],
{
    let grew = !dst[i];
    dst.set(i, true);
    grew
}

/// An explicit elementwise copy of a boolean row.
pub fn clone_bools(v: &Vec<bool>) -> (r: Vec<bool>)
    ensures
        r@ == v@,
{
    let n = v.len();
    let mut r: Vec<bool> = Vec::new();
    let mut i: usize = 0;
    while i < n
        invariant
            n == v@.len(),
            i <= n,
            r@.len() == i,
            forall|q: int| 0 <= q < i ==> r@[q] == v@[q],
        decreases n - i,
    {
        r.push(v[i]);
        i = i + 1;
    }
    proof {
        assert(r@ =~= v@);
    }
    r
}

} // verus!
