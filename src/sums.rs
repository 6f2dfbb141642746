//! Sums of integer sequences.
use vstd::prelude::*;

verus! {

pub open spec fn sum(s: Seq<int>) -> int
    decreases s.len(),
{
    if s.len() == 0 {
        0
    } else {
        sum(s.drop_last()) + s.last()
    }
}

pub open spec fn add_seqs(a: Seq<int>, b: Seq<int>) -> Seq<int> {
    Seq::new(a.len(), |i: int| a[i] + b[i])
}

pub proof fn lemma_sum_update(s: Seq<int>, p: int, v: int)
    requires
        0 <= p < s.len(),
    ensures
        sum(s.update(p, v)) == sum(s) - s[p] + v,
    decreases s.len(),
{
    if p < s.len() - 1 {
        assert(s.update(p, v).drop_last() =~= s.drop_last().update(p, v));
        lemma_sum_update(s.drop_last(), p, v);
    } else {
        assert(s.update(p, v).drop_last() =~= s.drop_last());
    }
}

pub proof fn lemma_sum_zeros(n: nat)
    ensures
        sum(Seq::new(n, |i: int| 0int)) == 0,
    decreases n,
{
    if n > 0 {
        assert(Seq::new(n, |i: int| 0int).drop_last() =~= Seq::new((n - 1) as nat, |i: int| 0int));
        lemma_sum_zeros((n - 1) as nat);
    }
}

pub proof fn lemma_sum_take(s: Seq<int>, i: int)
    requires
        0 <= i < s.len(),
    ensures
        sum(s.take(i + 1)) == sum(s.take(i)) + s[i],
{
    assert(s.take(i + 1).drop_last() =~= s.take(i));
}

pub proof fn lemma_sum_prefix_le(s: Seq<int>, i: int)
    requires
        0 <= i <= s.len(),
        forall|j: int| 0 <= j < s.len() ==> s[j] >= 0,
    ensures
        sum(s.take(i)) <= sum(s),
    decreases s.len() - i,
{
    if i < s.len() {
        lemma_sum_take(s, i);
        lemma_sum_prefix_le(s, i + 1);
    } else {
        assert(s.take(i) =~= s);
    }
}

pub proof fn lemma_sum_add(a: Seq<int>, b: Seq<int>)
    requires
        a.len() == b.len(),
    ensures
        sum(add_seqs(a, b)) == sum(a) + sum(b),
    decreases a.len(),
{
    if a.len() > 0 {
        assert(add_seqs(a, b).drop_last() =~= add_seqs(a.drop_last(), b.drop_last()));
        lemma_sum_add(a.drop_last(), b.drop_last());
    }
}

pub proof fn lemma_elem_le_sum(s: Seq<int>, m: int)
    requires
        0 <= m < s.len(),
        forall|j: int| 0 <= j < s.len() ==> s[j] >= 0,
    ensures
        s[m] <= sum(s),
    decreases s.len(),
{
    if m < s.len() - 1 {
        lemma_elem_le_sum(s.drop_last(), m);
    }
    lemma_sum_nonneg(s.drop_last());
}

pub proof fn lemma_sum_nonneg(s: Seq<int>)
    requires
        forall|j: int| 0 <= j < s.len() ==> s[j] >= 0,
    ensures
        sum(s) >= 0,
    decreases s.len(),
{
    if s.len() > 0 {
        lemma_sum_nonneg(s.drop_last());
    }
}

pub proof fn lemma_sum_le(a: Seq<int>, b: Seq<int>)
    requires
        a.len() == b.len(),
        forall|i: int| 0 <= i < a.len() ==> a[i] <= b[i],
    ensures
        sum(a) <= sum(b),
        (exists|i: int| 0 <= i < a.len() && a[i] < b[i]) ==> sum(a) < sum(b),
    decreases a.len(),
{
    if a.len() > 0 {
        lemma_sum_le(a.drop_last(), b.drop_last());
        if exists|i: int| 0 <= i < a.len() && a[i] < b[i] {
            let w = choose|i: int| 0 <= i < a.len() && a[i] < b[i];
            if w < a.len() - 1 {
                assert(a.drop_last()[w] < b.drop_last()[w]);
            }
        }
    }
}

pub proof fn lemma_sum_scale(a: Seq<int>, k: int)
    ensures
        sum(Seq::new(a.len(), |i: int| k * a[i])) == k * sum(a),
    decreases a.len(),
{
    if a.len() > 0 {
        assert(Seq::new(a.len(), |i: int| k * a[i]).drop_last() =~= Seq::new(
            a.drop_last().len(),
            |i: int| k * a.drop_last()[i],
        ));
        lemma_sum_scale(a.drop_last(), k);
        assert(k * sum(a.drop_last()) + k * a.last() == k * (sum(a.drop_last()) + a.last()))
            by (nonlinear_arith);
    }
}

/// A positive sum of non-negative terms has a positive term.
pub proof fn lemma_some_positive(s: Seq<int>)
    requires
        sum(s) > 0,
    ensures
        exists|i: int| 0 <= i < s.len() && s[i] > 0,
{
    if forall|i: int| 0 <= i < s.len() ==> s[i] <= 0 {
        let z = Seq::new(s.len(), |i: int| 0int);
        lemma_sum_le(s, z);
        lemma_sum_zeros(s.len());
    }
}

} // verus!
