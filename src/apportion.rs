//! Largest-remainder apportionment: whole seats handed out one at a time to
//! the eligible share with the largest remainder.
use crate::sums::{lemma_some_positive, lemma_sum_update, lemma_sum_zeros, sum};
use vstd::prelude::*;

verus! {

/// Remainders as `(numerator, denominator)` pairs of integers.
pub open spec fn rems_view(r: Seq<(u64, u64)>) -> Seq<(int, int)> {
    r.map(|i: int, p: (u64, u64)| (p.0 as int, p.1 as int))
}

pub open spec fn counts_view(c: Seq<u64>) -> Seq<int> {
    c.map(|i: int, x: u64| x as int)
}

/// `a` is a larger fraction than `b` (both denominators positive).
pub open spec fn larger(a: (int, int), b: (int, int)) -> bool {
    a.0 * b.1 > b.0 * a.1
}

/// Among the first `j` shares, the first eligible one with the largest
/// remainder, or -1.
pub open spec fn pick_upto(r: Seq<(int, int)>, elig: Seq<bool>, j: int) -> int
    decreases j,
{
    if j <= 0 {
        -1
    } else {
        let b = pick_upto(r, elig, j - 1);
        if elig[j - 1] && (b < 0 || larger(r[j - 1], r[b])) {
            j - 1
        } else {
            b
        }
    }
}

/// The share that receives the next seat, or -1 where none is eligible.
pub open spec fn pick(r: Seq<(int, int)>, elig: Seq<bool>) -> int {
    pick_upto(r, elig, r.len() as int)
}

/// Remainders and extra seats after `k` seats were handed out; a share that
/// receives a seat has its remainder cleared.
pub open spec fn award(r: Seq<(int, int)>, elig: Seq<bool>, k: nat) -> (Seq<(int, int)>, Seq<int>)
    decreases k,
{
    if k == 0 {
        (r, Seq::new(r.len(), |i: int| 0int))
    } else {
        let (r1, e1) = award(r, elig, (k - 1) as nat);
        let p = pick(r1, elig);
        if p < 0 {
            (r1, e1)
        } else {
            (r1.update(p, (0, r1[p].1)), e1.update(p, e1[p] + 1))
        }
    }
}

/// Extra seats of each share when `k` seats are handed out.
pub open spec fn extra_seats(r: Seq<(int, int)>, elig: Seq<bool>, k: nat) -> Seq<int> {
    award(r, elig, k).1
}

pub open spec fn some_eligible(elig: Seq<bool>) -> bool {
    exists|i: int| 0 <= i < elig.len() && elig[i]
}

proof fn lemma_pick_upto(r: Seq<(int, int)>, elig: Seq<bool>, j: int)
    requires
        0 <= j <= r.len(),
        r.len() == elig.len(),
    ensures
        -1 <= pick_upto(r, elig, j) < j,
        pick_upto(r, elig, j) >= 0 ==> elig[pick_upto(r, elig, j)],
        (exists|i: int| 0 <= i < j && elig[i]) ==> pick_upto(r, elig, j) >= 0,
    decreases j,
{
    if j > 0 {
        lemma_pick_upto(r, elig, j - 1);
    }
}

proof fn lemma_award_shape(r: Seq<(int, int)>, elig: Seq<bool>, k: nat)
    requires
        r.len() == elig.len(),
    ensures
        award(r, elig, k).0.len() == r.len(),
        award(r, elig, k).1.len() == r.len(),
        forall|i: int| 0 <= i < r.len() ==> #[trigger] award(r, elig, k).0[i].1 == r[i].1,
    decreases k,
{
    if k > 0 {
        lemma_award_shape(r, elig, (k - 1) as nat);
        let (r1, e1) = award(r, elig, (k - 1) as nat);
        lemma_pick_upto(r1, elig, r1.len() as int);
    }
}

/// Handing out `k` seats where some share is eligible gives `k` extra seats
/// in all.
pub proof fn lemma_extra_seats_sum(r: Seq<(int, int)>, elig: Seq<bool>, k: nat)
    requires
        r.len() == elig.len(),
        some_eligible(elig),
    ensures
        sum(extra_seats(r, elig, k)) == k,
        extra_seats(r, elig, k).len() == r.len(),
        forall|i: int| 0 <= i < r.len() && !elig[i] ==> #[trigger] extra_seats(r, elig, k)[i] == 0,
        forall|i: int| 0 <= i < r.len() ==> #[trigger] extra_seats(r, elig, k)[i] >= 0,
    decreases k,
{
    lemma_award_shape(r, elig, k);
    if k == 0 {
        lemma_sum_zeros(r.len());
    } else {
        lemma_extra_seats_sum(r, elig, (k - 1) as nat);
        lemma_award_shape(r, elig, (k - 1) as nat);
        let (r1, e1) = award(r, elig, (k - 1) as nat);
        lemma_pick_upto(r1, elig, r1.len() as int);
        let p = pick(r1, elig);
        lemma_sum_update(e1, p, e1[p] + 1);
    }
}

/// Handing out no seat gives no extra seat.
pub proof fn lemma_extra_seats_zero(r: Seq<(int, int)>, elig: Seq<bool>)
    ensures
        sum(extra_seats(r, elig, 0)) == 0,
        extra_seats(r, elig, 0).len() == r.len(),
{
    lemma_sum_zeros(r.len());
}

/// No share receives more than the seats handed out.
pub proof fn lemma_extra_seats_bound(r: Seq<(int, int)>, elig: Seq<bool>, k: nat)
    requires
        r.len() == elig.len(),
    ensures
        extra_seats(r, elig, k).len() == r.len(),
        forall|i: int| 0 <= i < r.len() ==> 0 <= #[trigger] extra_seats(r, elig, k)[i] <= k,
    decreases k,
{
    lemma_award_shape(r, elig, k);
    if k > 0 {
        lemma_extra_seats_bound(r, elig, (k - 1) as nat);
        lemma_award_shape(r, elig, (k - 1) as nat);
        let (r1, e1) = award(r, elig, (k - 1) as nat);
        lemma_pick_upto(r1, elig, r1.len() as int);
    }
}

/// Extra seats of each share when `seats` seats are handed out, one at a
/// time, to the eligible share with the largest remainder (the first such
/// share on a tie), whose remainder is then cleared.
pub fn largest_remainder(rems: &Vec<(u64, u64)>, elig: &Vec<bool>, seats: u64) -> (r: Vec<u64>)
    requires
        rems.len() == elig.len(),
        forall|i: int| 0 <= i < rems.len() ==> #[trigger] rems[i].1 > 0,
    ensures
        counts_view(r@) == extra_seats(rems_view(rems@), elig@, seats as nat),
{
    let ghost r0 = rems_view(rems@);
    let n = rems.len();
    let mut cur: Vec<(u64, u64)> = Vec::new();
    let mut ext: Vec<u64> = Vec::new();
    let mut i: usize = 0;
    while i < n
        invariant
            0 <= i <= n,
            n == rems.len(),
            ext.len() == i,
            cur.len() == i,
            forall|j: int| 0 <= j < i ==> ext[j] == 0,
            forall|j: int| 0 <= j < i ==> cur[j] == rems[j],
        decreases n - i,
    {
        ext.push(0);
        cur.push(rems[i]);
        i = i + 1;
    }
    proof {
        assert(cur@ =~= rems@);
        assert(counts_view(ext@) =~= Seq::new(n as nat, |i: int| 0int));
    }
    let mut k: u64 = 0;
    while k < seats
        invariant
            0 <= k <= seats,
            n == rems.len() == elig.len() == cur.len() == ext.len(),
            r0 == rems_view(rems@),
            r0.len() == elig.len(),
            (rems_view(cur@), counts_view(ext@)) == award(r0, elig@, k as nat),
            forall|j: int| 0 <= j < n ==> #[trigger] cur[j].1 == rems[j].1,
            forall|j: int| 0 <= j < n ==> #[trigger] ext[j] <= k,
            forall|q: int| 0 <= q < n ==> #[trigger] rems[q].1 > 0,
        decreases seats - k,
    {
        let ghost rc = rems_view(cur@);
        let mut best: usize = 0;
        let mut found = false;
        let mut j: usize = 0;
        while j < n
            invariant
                0 <= j <= n,
                n == cur.len() == elig.len() == rems.len(),
                rc == rems_view(cur@),
                !found ==> best == 0,
                forall|q: int| 0 <= q < n ==> #[trigger] cur[q].1 == rems[q].1,
                forall|q: int| 0 <= q < n ==> #[trigger] rems[q].1 > 0,
                found == (pick_upto(rc, elig@, j as int) >= 0),
                found ==> best == pick_upto(rc, elig@, j as int) && best < j,
            decreases n - j,
        {
            proof {
                lemma_pick_upto(rc, elig@, j as int);
            }
            if elig[j] {
                let a = cur[j];
                let b = cur[best];
                proof {
                    assert(a.0 * b.1 <= 0xffff_ffff_ffff_ffffu128 * 0xffff_ffff_ffff_ffffu128)
                        by (nonlinear_arith)
                        requires a.0 <= 0xffff_ffff_ffff_ffffu64, b.1 <= 0xffff_ffff_ffff_ffffu64;
                    assert(b.0 * a.1 <= 0xffff_ffff_ffff_ffffu128 * 0xffff_ffff_ffff_ffffu128)
                        by (nonlinear_arith)
                        requires b.0 <= 0xffff_ffff_ffff_ffffu64, a.1 <= 0xffff_ffff_ffff_ffffu64;
                }
                let lhs: u128 = a.0 as u128 * b.1 as u128;
                let rhs: u128 = b.0 as u128 * a.1 as u128;
                if !found || lhs > rhs {
                    best = j;
                    found = true;
                }
            }
            j = j + 1;
        }
        proof {
            lemma_award_shape(r0, elig@, k as nat);
        }
        if found {
            let d = cur[best].1;
            cur.set(best, (0, d));
            let c = ext[best];
            ext.set(best, c + 1);
        }
        proof {
            assert(rems_view(cur@) =~= award(r0, elig@, (k + 1) as nat).0);
            assert(counts_view(ext@) =~= award(r0, elig@, (k + 1) as nat).1);
        }
        k = k + 1;
    }
    ext
}


/// Number of eligible shares with a positive remainder.
pub open spec fn positives(r: Seq<(int, int)>, elig: Seq<bool>) -> int {
    sum(Seq::new(r.len(), |i: int| if elig[i] && r[i].0 > 0 { 1int } else { 0 }))
}

/// Where some eligible share has a positive remainder, so has the one picked.
proof fn lemma_pick_positive(r: Seq<(int, int)>, elig: Seq<bool>, j: int, w: int)
    requires
        0 <= j <= r.len(),
        r.len() == elig.len(),
        forall|i: int| 0 <= i < r.len() ==> (#[trigger] r[i]).0 >= 0 && r[i].1 > 0,
        0 <= w < j,
        elig[w],
        r[w].0 > 0,
    ensures
        pick_upto(r, elig, j) >= 0,
        r[pick_upto(r, elig, j)].0 > 0,
    decreases j,
{
    lemma_pick_upto(r, elig, j);
    let b = pick_upto(r, elig, j - 1);
    lemma_pick_upto(r, elig, j - 1);
    if w < j - 1 {
        lemma_pick_positive(r, elig, j - 1, w);
        if pick_upto(r, elig, j) == j - 1 {
            let x = r[j - 1];
            let y = r[b];
            assert(x.0 > 0) by (nonlinear_arith)
                requires x.0 * y.1 > y.0 * x.1, y.0 > 0, y.1 > 0, x.1 > 0, x.0 >= 0;
        }
    } else if b >= 0 && pick_upto(r, elig, j) == b {
        let x = r[j - 1];
        let y = r[b];
        assert(!larger(x, y));
        assert(y.0 > 0) by (nonlinear_arith)
            requires x.0 * y.1 <= y.0 * x.1, x.0 > 0, y.1 > 0, x.1 > 0, y.0 >= 0;
    } else if b >= 0 {
        let x = r[j - 1];
        let y = r[b];
        assert(x.0 > 0) by (nonlinear_arith)
            requires x.0 * y.1 > y.0 * x.1, y.0 >= 0, y.1 > 0, x.1 > 0, x.0 >= 0;
    }
}

/// After `j` seats share `i` has either its remainder and no seat, or one
/// seat and its remainder cleared.
pub open spec fn seat_state(r: Seq<(int, int)>, elig: Seq<bool>, j: nat, i: int) -> bool {
    let cur = award(r, elig, j).0;
    let e = award(r, elig, j).1;
    &&& cur[i].1 == r[i].1
    &&& (e[i] == 0 && cur[i] == r[i]) || (e[i] == 1 && cur[i].0 == 0 && elig[i] && r[i].0 > 0)
}

/// While there are fewer seats than eligible shares with a positive
/// remainder, each seat goes to a different such share.
proof fn lemma_award_distinct(r: Seq<(int, int)>, elig: Seq<bool>, j: nat)
    requires
        r.len() == elig.len(),
        forall|i: int| 0 <= i < r.len() ==> (#[trigger] r[i]).0 >= 0 && r[i].1 > 0,
        j <= positives(r, elig),
    ensures
        award(r, elig, j).0.len() == r.len(),
        award(r, elig, j).1.len() == r.len(),
        positives(award(r, elig, j).0, elig) == positives(r, elig) - j,
        forall|i: int| 0 <= i < r.len() ==> #[trigger] seat_state(r, elig, j, i),
    decreases j,
{
    lemma_award_shape(r, elig, j);
    if j == 0 {
    } else {
        lemma_award_distinct(r, elig, (j - 1) as nat);
        let (cur, e) = award(r, elig, (j - 1) as nat);
        assert forall|i: int| 0 <= i < r.len() implies (#[trigger] cur[i]).0 >= 0 && cur[i].1 > 0 by {
            assert(seat_state(r, elig, (j - 1) as nat, i));
        }
        let ind = Seq::new(cur.len(), |i: int| if elig[i] && cur[i].0 > 0 { 1int } else { 0 });
        lemma_some_positive(ind);
        let w = choose|i: int| 0 <= i < ind.len() && ind[i] > 0;
        lemma_pick_positive(cur, elig, cur.len() as int, w);
        let p = pick(cur, elig);
        lemma_pick_upto(cur, elig, cur.len() as int);
        let cur2 = cur.update(p, (0, cur[p].1));
        assert(Seq::new(cur2.len(), |i: int| if elig[i] && cur2[i].0 > 0 { 1int } else { 0 }) =~= ind.update(p, 0));
        lemma_sum_update(ind, p, 0);
        assert forall|i: int| 0 <= i < r.len() implies #[trigger] seat_state(r, elig, j, i) by {
            assert(seat_state(r, elig, (j - 1) as nat, i));
        }
    }
}

/// With no more seats than eligible shares with a positive remainder, each
/// share gets at most one extra seat, and only one with a positive remainder.
pub proof fn lemma_extra_seats_distinct(r: Seq<(int, int)>, elig: Seq<bool>, k: nat)
    requires
        r.len() == elig.len(),
        forall|i: int| 0 <= i < r.len() ==> (#[trigger] r[i]).0 >= 0 && r[i].1 > 0,
        k <= positives(r, elig),
    ensures
        forall|i: int| 0 <= i < r.len() ==> 0 <= #[trigger] extra_seats(r, elig, k)[i] <= 1,
        forall|i: int| 0 <= i < r.len() && extra_seats(r, elig, k)[i] == 1 ==> r[i].0 > 0,
{
    lemma_award_distinct(r, elig, k);
    assert forall|i: int| 0 <= i < r.len() implies 0 <= #[trigger] extra_seats(r, elig, k)[i] <= 1 by {
        assert(seat_state(r, elig, k, i));
    }
    assert forall|i: int| 0 <= i < r.len() && extra_seats(r, elig, k)[i] == 1 implies r[i].0 > 0 by {
        assert(seat_state(r, elig, k, i));
    }
}

} // verus!
