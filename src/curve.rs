//! Curve policy: a role's target is read off a piecewise-linear curve through
//! its control points `(participant total, target count)`.
use crate::points::{
    ascending, key_index, drop_point, lemma_key_index, new_points, point_at, point_count, points_of, put_point,
    sort_points, with_point, without_point,
};
use indexmap::IndexMap;
use std::collections::hash_map::RandomState;
use vstd::prelude::*;

verus! {

/// A non-negative rational number `num / den`.
#[derive(Clone, Copy, Debug, PartialEq, Eq, Structural)]
pub struct Fraction {
    pub num: u64,
    pub den: u64,
}

impl Fraction {
    pub open spec fn wf(self) -> bool {
        self.den > 0
    }
}

/// A role under the curve policy.
#[derive(Debug)]
pub struct Job {
    pub points: IndexMap<u16, u16, RandomState>,
}

impl View for Job {
    type V = Seq<(u16, u16)>;

    open spec fn view(&self) -> Seq<(u16, u16)> {
        points_of(self.points)
    }
}

/// Position of the first control point whose key is `n`, or -1.
pub open spec fn exact_index(s: Seq<(u16, u16)>, n: int) -> int
    decreases s.len(),
{
    if s.len() == 0 {
        -1
    } else {
        let j = exact_index(s.drop_last(), n);
        if j < 0 && s.last().0 == n {
            s.len() - 1
        } else {
            j
        }
    }
}

/// Position of the first control point with the greatest key below `n`, or -1.
pub open spec fn below_index(s: Seq<(u16, u16)>, n: int) -> int
    decreases s.len(),
{
    if s.len() == 0 {
        -1
    } else {
        let j = below_index(s.drop_last(), n);
        let l = s.len() - 1;
        if s[l].0 < n && (j < 0 || s[j].0 < s[l].0) {
            l
        } else {
            j
        }
    }
}

/// Position of the first control point with the least key above `n`, or -1.
pub open spec fn above_index(s: Seq<(u16, u16)>, n: int) -> int
    decreases s.len(),
{
    if s.len() == 0 {
        -1
    } else {
        let j = above_index(s.drop_last(), n);
        let l = s.len() - 1;
        if s[l].0 > n && (j < 0 || s[l].0 < s[j].0) {
            l
        } else {
            j
        }
    }
}

/// The target of a curve at `n` participants, as `(numerator, denominator)`.
/// A point at `n` gives its amount. Otherwise the nearest points below and
/// above are joined by a line; with one of them only, the line runs through
/// the origin (a lone point at 0 participants gives its amount); with none the
/// target is 0.
pub open spec fn curve_target(s: Seq<(u16, u16)>, n: int) -> (int, int) {
    let e = exact_index(s, n);
    let b = below_index(s, n);
    let t = above_index(s, n);
    if e >= 0 {
        (s[e].1 as int, 1)
    } else if b >= 0 && t >= 0 {
        (
            s[b].1 * (s[t].0 - s[b].0) + (n - s[b].0) * (s[t].1 - s[b].1),
            s[t].0 - s[b].0,
        )
    } else if b >= 0 {
        if s[b].0 == 0 {
            (s[b].1 as int, 1)
        } else {
            (s[b].1 * n, s[b].0 as int)
        }
    } else if t >= 0 {
        (s[t].1 * n, s[t].0 as int)
    } else {
        (0, 1)
    }
}

proof fn lemma_scan_step(s: Seq<(u16, u16)>, i: int)
    requires
        0 <= i < s.len(),
    ensures
        s.take(i + 1).drop_last() == s.take(i),
        s.take(i + 1).last() == s[i],
        s.take(i + 1).len() == i + 1,
{
    assert(s.take(i + 1).drop_last() =~= s.take(i));
}

proof fn lemma_indices_in_range(s: Seq<(u16, u16)>, n: int)
    ensures
        -1 <= exact_index(s, n) < s.len(),
        exact_index(s, n) >= 0 ==> s[exact_index(s, n)].0 == n,
        -1 <= below_index(s, n) < s.len(),
        below_index(s, n) >= 0 ==> s[below_index(s, n)].0 < n,
        -1 <= above_index(s, n) < s.len(),
        above_index(s, n) >= 0 ==> s[above_index(s, n)].0 > n,
    decreases s.len(),
{
    if s.len() > 0 {
        lemma_indices_in_range(s.drop_last(), n);
    }
}

/// A curve's target is a non-negative fraction with a positive denominator.
pub proof fn lemma_curve_target_wf(s: Seq<(u16, u16)>, n: int)
    requires
        0 <= n,
    ensures
        curve_target(s, n).0 >= 0,
        curve_target(s, n).1 > 0,
{
    lemma_indices_in_range(s, n);
    let b = below_index(s, n);
    let t = above_index(s, n);
    if exact_index(s, n) < 0 && b >= 0 && t >= 0 {
        let ba = s[b].1 as int;
        let ta = s[t].1 as int;
        let d = s[t].0 - s[b].0;
        let x = n - s[b].0;
        assert(ba * d + x * (ta - ba) >= 0) by (nonlinear_arith)
            requires 0 < x < d, 0 <= ta, 0 <= ba;
    } else if exact_index(s, n) < 0 && b >= 0 && s[b].0 != 0 {
        assert(s[b].1 * n >= 0) by (nonlinear_arith)
            requires s[b].1 >= 0, n >= 0;
    } else if exact_index(s, n) < 0 && t >= 0 {
        assert(s[t].1 * n >= 0) by (nonlinear_arith)
            requires s[t].1 >= 0, n >= 0;
    }
}

/// The same participant totals, each at amount 0.
pub open spec fn zeroed(s: Seq<(u16, u16)>) -> Seq<(u16, u16)> {
    s.map(|i: int, p: (u16, u16)| (p.0, 0u16))
}

proof fn lemma_remove_ascending(s: Seq<(u16, u16)>, x: int)
    requires
        ascending(s),
        0 <= x < s.len(),
    ensures
        ascending(s.remove(x)),
{
    let r = s.remove(x);
    assert forall|i: int| 0 <= i < r.len() implies r[i] == if i < x { s[i] } else { s[i + 1] } by {}
    assert forall|i: int, j: int| 0 <= i < j < r.len() implies r[i].0 < r[j].0 by {
        let a = if i < x { i } else { i + 1 };
        let b = if j < x { j } else { j + 1 };
        assert(r[i] == s[a] && r[j] == s[b] && a < b);
    }
}

impl Job {
    /// Keys strictly increasing: a curve's participant totals in order.
    pub open spec fn wf(&self) -> bool {
        ascending(self@)
    }

    /// A curve without control points.
    pub fn new() -> (r: Job)
        ensures
            r@ == Seq::<(u16, u16)>::empty(),
            r.wf(),
    {
        Job { points: new_points() }
    }

    /// A curve through the given points, ordered by participant total.
    pub fn from_points(points: IndexMap<u16, u16, RandomState>) -> (r: Job)
        ensures
            r.wf(),
            r@.to_multiset() == points_of(points).to_multiset(),
    {
        let mut r = Job { points };
        sort_points(&mut r.points);
        r
    }

    /// Sets the amount at participant total `total`, keeping the points
    /// ordered by participant total.
    pub fn set_stage(&mut self, total: u16, amount: u16)
        ensures
            final(self).wf(),
            final(self)@.to_multiset() == with_point(old(self)@, total, amount).to_multiset(),
    {
        put_point(&mut self.points, total, amount);
        sort_points(&mut self.points);
    }

    /// Removes the point at participant total `total`, if there is one; the
    /// other points keep their order.
    pub fn remove_stage(&mut self, total: u16)
        ensures
            final(self)@ == without_point(old(self)@, total),
            old(self).wf() ==> final(self).wf(),
    {
        drop_point(&mut self.points, total);
        proof {
            lemma_key_index(old(self)@, total);
            if old(self).wf() && key_index(old(self)@, total) >= 0 {
                lemma_remove_ascending(old(self)@, key_index(old(self)@, total));
            }
        }
    }

    /// A curve with the same participant totals as this one, all at 0.
    pub fn blank_like(&self) -> (r: Job)
        ensures
            r@ == zeroed(self@),
            self.wf() ==> r.wf(),
    {
        let mut r = Job::new();
        let n = point_count(&self.points);
        let mut i: usize = 0;
        while i < n
            invariant
                0 <= i <= n,
                n == self@.len(),
                r@ == zeroed(self@.take(i as int)),
            decreases n - i,
        {
            let p = point_at(&self.points, i);
            proof {
                lemma_key_index(r@, p.0);
                assert forall|j: int| 0 <= j < r@.len() implies r@[j].0 != p.0 by {
                    assert(r@[j].0 == self@[j].0);
                }
                assert(zeroed(self@.take(i + 1)) =~= zeroed(self@.take(i as int)).push((p.0, 0u16)));
            }
            put_point(&mut r.points, p.0, 0);
            i = i + 1;
        }
        proof {
            assert(self@.take(n as int) =~= self@);
        }
        r
    }

    /// The target at `player_count` participants; afterwards the points are
    /// ordered by participant total.
    pub fn interpolate(&mut self, player_count: u16) -> (r: Fraction)
        ensures
            r.wf(),
            (r.num as int, r.den as int) == curve_target(old(self)@, player_count as int),
            final(self).wf(),
            final(self)@.to_multiset() == old(self)@.to_multiset(),
    {
        let r = self.target_at(player_count);
        sort_points(&mut self.points);
        r
    }

    /// The target at `player_count` participants.
    pub fn target_at(&self, player_count: u16) -> (r: Fraction)
        ensures
            r.wf(),
            (r.num as int, r.den as int) == curve_target(self@, player_count as int),
    {
        let len = point_count(&self.points);
        let ghost s = self@;
        let ghost n = player_count as int;
        let mut e: usize = 0;
        let mut b: usize = 0;
        let mut t: usize = 0;
        let mut has_e = false;
        let mut has_b = false;
        let mut has_t = false;
        let mut ep: (u16, u16) = (0, 0);
        let mut bp: (u16, u16) = (0, 0);
        let mut tp: (u16, u16) = (0, 0);
        let mut i: usize = 0;
        while i < len
            invariant
                len == s.len(),
                s == self@,
                n == player_count as int,
                0 <= i <= len,
                has_e == (exact_index(s.take(i as int), n) >= 0),
                has_b == (below_index(s.take(i as int), n) >= 0),
                has_t == (above_index(s.take(i as int), n) >= 0),
                has_e ==> e == exact_index(s.take(i as int), n) && e < i && ep == s[e as int],
                has_b ==> b == below_index(s.take(i as int), n) && b < i && bp == s[b as int],
                has_t ==> t == above_index(s.take(i as int), n) && t < i && tp == s[t as int],
            decreases len - i,
        {
            let p = point_at(&self.points, i);
            proof {
                lemma_scan_step(s, i as int);
                lemma_indices_in_range(s.take(i as int), n);
            }
            if !has_e && p.0 == player_count {
                e = i;
                has_e = true;
                ep = p;
            }
            if p.0 < player_count && (!has_b || bp.0 < p.0) {
                b = i;
                has_b = true;
                bp = p;
            }
            if p.0 > player_count && (!has_t || p.0 < tp.0) {
                t = i;
                has_t = true;
                tp = p;
            }
            i = i + 1;
        }
        proof {
            assert(s.take(len as int) =~= s);
            lemma_indices_in_range(s, n);
        }
        if has_e {
            Fraction { num: ep.1 as u64, den: 1 }
        } else if has_b && has_t {
            let (bk, ba) = bp;
            let (tk, ta) = tp;
            let d: i64 = tk as i64 - bk as i64;
            let x: i64 = player_count as i64 - bk as i64;
            proof {
                assert(0 < x < d);
                assert(0 <= ba * d <= 65535 * 65535) by (nonlinear_arith)
                    requires 0 <= ba <= 65535, 0 < d <= 65535;
                assert(-65535 * 65535 <= x * (ta - ba) <= 65535 * 65535) by (nonlinear_arith)
                    requires 0 < x <= 65535, -65535 <= ta - ba <= 65535;
                assert(ba * d + x * (ta - ba) >= 0) by (nonlinear_arith)
                    requires 0 < x < d, 0 <= ta, 0 <= ba;
            }
            let num: i64 = ba as i64 * d + x * (ta as i64 - ba as i64);
            Fraction { num: num as u64, den: d as u64 }
        } else if has_b {
            if bp.0 == 0 {
                Fraction { num: bp.1 as u64, den: 1 }
            } else {
                proof {
                    assert(bp.1 * player_count <= 65535 * 65535) by (nonlinear_arith)
                        requires bp.1 <= 65535, player_count <= 65535;
                }
                Fraction { num: bp.1 as u64 * player_count as u64, den: bp.0 as u64 }
            }
        } else if has_t {
            proof {
                assert(tp.1 * player_count <= 65535 * 65535) by (nonlinear_arith)
                    requires tp.1 <= 65535, player_count <= 65535;
            }
            Fraction { num: tp.1 as u64 * player_count as u64, den: tp.0 as u64 }
        } else {
            Fraction { num: 0, den: 1 }
        }
    }
}

} // verus!
