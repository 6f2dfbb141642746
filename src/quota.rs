//! Quota planning: how many seats each role of the table gets.
use crate::apportion::{
    counts_view, extra_seats, largest_remainder, lemma_extra_seats_bound, lemma_extra_seats_sum,
    lemma_extra_seats_zero, rems_view, some_eligible,
};
use crate::sums::{
    add_seqs, lemma_elem_le_sum, lemma_sum_add, lemma_sum_prefix_le, lemma_sum_take, lemma_sum_zeros, sum,
};
use crate::curve::{curve_target, lemma_curve_target_wf, Fraction, Job};
use crate::ids::RoleId;
use crate::points::point_count;
use vstd::prelude::*;

verus! {

/// Why participants cannot be placed.
#[derive(Clone, Copy, Debug, PartialEq, Eq, Structural)]
pub enum Infeasible {
    /// Fewer participants than the seats that the roles demand at least.
    InsufficientForMinimums,
    /// More participants than the roles can take.
    TooManyForMaximums,
    /// The role ran out of eligible participants while it still needed some.
    NoEligibleCandidate(RoleId),
}

/// A quota as integers, or the error.
pub open spec fn quota_view(r: Result<Vec<u64>, Infeasible>) -> Result<Seq<int>, Infeasible> {
    match r {
        Ok(q) => Ok(q@.map(|i: int, x: u64| x as int)),
        Err(e) => Err(e),
    }
}

/// The control points of each role of a curve table.
pub open spec fn curves_of(t: Seq<(RoleId, Job)>) -> Seq<Seq<(u16, u16)>> {
    t.map(|i: int, e: (RoleId, Job)| e.1@)
}

/// Each role's target at `n` participants.
pub open spec fn shares(c: Seq<Seq<(u16, u16)>>, n: int) -> Seq<(int, int)> {
    c.map(|i: int, s: Seq<(u16, u16)>| curve_target(s, n))
}

pub open spec fn floors(sh: Seq<(int, int)>) -> Seq<int> {
    sh.map(|i: int, f: (int, int)| f.0 / f.1)
}

pub open spec fn remainders(sh: Seq<(int, int)>) -> Seq<(int, int)> {
    sh.map(|i: int, f: (int, int)| (f.0 % f.1, f.1))
}

/// Roles with at least one control point; only they take extra seats.
pub open spec fn has_points(c: Seq<Seq<(u16, u16)>>) -> Seq<bool> {
    c.map(|i: int, s: Seq<(u16, u16)>| s.len() > 0)
}

/// The curve quota for `n` participants: nothing for nobody; otherwise the
/// whole part of each target, then the seats still missing by largest
/// remainder.
pub open spec fn curve_quota(c: Seq<Seq<(u16, u16)>>, n: int) -> Result<Seq<int>, Infeasible> {
    let sh = shares(c, n);
    let f = floors(sh);
    if n == 0 {
        Ok(Seq::new(c.len(), |i: int| 0int))
    } else if sum(f) > n {
        Err(Infeasible::InsufficientForMinimums)
    } else if sum(f) < n && !some_eligible(has_points(c)) {
        Err(Infeasible::TooManyForMaximums)
    } else {
        Ok(add_seqs(f, extra_seats(remainders(sh), has_points(c), (n - sum(f)) as nat)))
    }
}

/// Under the curve policy the quota, where there is one, places exactly the
/// `n` participants.
pub proof fn lemma_curve_quota_sum(c: Seq<Seq<(u16, u16)>>, n: int)
    requires
        curve_quota(c, n) is Ok,
    ensures
        sum(curve_quota(c, n)->Ok_0) == n,
{
    let sh = shares(c, n);
    let f = floors(sh);
    let k = (n - sum(f)) as nat;
    if n == 0 {
        lemma_sum_zeros(c.len());
    } else {
        if k == 0 {
            lemma_extra_seats_zero(remainders(sh), has_points(c));
        } else {
            lemma_extra_seats_sum(remainders(sh), has_points(c), k);
        }
        lemma_sum_add(f, extra_seats(remainders(sh), has_points(c), k));
    }
}

/// Seats per role of a curve table for `n` participants, in table order.
pub fn plan_curve(jobs: &Vec<(RoleId, Job)>, n: u16) -> (r: Result<Vec<u64>, Infeasible>)
    ensures
        quota_view(r) == curve_quota(curves_of(jobs@), n as int),
        r is Ok ==> sum(quota_view(r)->Ok_0) == n,
{
    let ghost c = curves_of(jobs@);
    let ghost sh = shares(c, n as int);
    let ghost f = floors(sh);
    let len = jobs.len();
    if n == 0 {
        let mut q: Vec<u64> = Vec::new();
        let mut j: usize = 0;
        while j < len
            invariant
                0 <= j <= len,
                q.len() == j,
                forall|m: int| 0 <= m < j ==> q[m] == 0,
            decreases len - j,
        {
            q.push(0);
            j = j + 1;
        }
        proof {
            assert(q@.map(|i: int, x: u64| x as int) =~= Seq::new(c.len(), |i: int| 0int));
            lemma_curve_quota_sum(c, 0);
        }
        return Ok(q);
    }
    let mut whole: Vec<u64> = Vec::new();
    let mut rems: Vec<(u64, u64)> = Vec::new();
    let mut elig: Vec<bool> = Vec::new();
    let mut any = false;
    let mut total: u64 = 0;
    proof {
        assert forall|j: int| 0 <= j < len implies #[trigger] f[j] >= 0 && sh[j].1 > 0 by {
            lemma_curve_target_wf(c[j], n as int);
        }
        assert forall|j: int| 0 <= j < len implies #[trigger] sh[j].1 > 0 by {
            lemma_curve_target_wf(c[j], n as int);
        }
    }
    let mut i: usize = 0;
    while i < len
        invariant
            0 <= i <= len,
            forall|j: int| 0 <= j < len ==> #[trigger] sh[j].1 > 0,
            len == jobs.len() == c.len() == sh.len() == f.len(),
            c == curves_of(jobs@),
            sh == shares(c, n as int),
            f == floors(sh),
            whole.len() == i,
            rems.len() == i,
            elig.len() == i,
            total == sum(f.take(i as int)),
            total <= n,
            n > 0,
            forall|j: int| 0 <= j < i ==> #[trigger] whole[j] == f[j],
            forall|j: int| 0 <= j < i ==> (#[trigger] rems[j].0 as int, rems[j].1 as int) == remainders(sh)[j],
            forall|j: int| 0 <= j < i ==> #[trigger] rems[j].1 > 0,
            forall|j: int| 0 <= j < i ==> #[trigger] elig[j] == has_points(c)[j],
            any == (exists|j: int| 0 <= j < i && has_points(c)[j]),
            forall|j: int| 0 <= j < len ==> #[trigger] f[j] >= 0,
        decreases len - i,
    {
        let job = &jobs[i];
        let t: Fraction = job.1.target_at(n);
        let w: u64 = t.num / t.den;
        let has = point_count(&job.1.points) > 0;
        proof {
            lemma_sum_take(f, i as int);
        }
        if w > n as u64 - total {
            proof {
                lemma_sum_prefix_le(f, i as int + 1);
            }
            return Err(Infeasible::InsufficientForMinimums);
        }
        total = total + w;
        whole.push(w);
        rems.push((t.num % t.den, t.den));
        elig.push(has);
        proof {
            if has {
                assert(has_points(c)[i as int]);
            }
            if any {
                let w = choose|j: int| 0 <= j < i && has_points(c)[j];
                assert(0 <= w < i + 1 && has_points(c)[w]);
            }
        }
        any = any || has;
        i = i + 1;
    }
    proof {
        assert(f.take(len as int) =~= f);
        assert(rems_view(rems@) =~= remainders(sh));
        assert(elig@ =~= has_points(c));
    }
    if total < n as u64 && !any {
        return Err(Infeasible::TooManyForMaximums);
    }
    let extra = largest_remainder(&rems, &elig, n as u64 - total);
    let ghost e = extra_seats(remainders(sh), has_points(c), (n - total) as nat);
    proof {
        if n - total == 0 {
            lemma_extra_seats_zero(remainders(sh), has_points(c));
        } else {
            lemma_extra_seats_sum(remainders(sh), has_points(c), (n - total) as nat);
        }
        lemma_extra_seats_bound(remainders(sh), has_points(c), (n - total) as nat);
        assert forall|m: int| 0 <= m < len implies #[trigger] f[m] <= total by {
            lemma_elem_le_sum(f, m);
        }
    }
    let mut q: Vec<u64> = Vec::new();
    let mut j: usize = 0;
    while j < len
        invariant
            0 <= j <= len,
            len == whole.len() == extra.len() == f.len(),
            counts_view(extra@) == e,
            e.len() == len,
            q.len() == j,
            total <= n,
            forall|m: int| 0 <= m < len ==> #[trigger] whole[m] == f[m],
            forall|m: int| 0 <= m < len ==> 0 <= #[trigger] e[m] <= n - total,
            forall|m: int| 0 <= m < len ==> #[trigger] f[m] <= total,
            forall|m: int| 0 <= m < j ==> #[trigger] q[m] == f[m] + e[m],
        decreases len - j,
    {
        assert(e[j as int] == extra[j as int] as int);
        q.push(whole[j] + extra[j]);
        j = j + 1;
    }
    proof {
        assert(q@.map(|i: int, x: u64| x as int) =~= add_seqs(f, e));
        lemma_curve_quota_sum(c, n as int);
    }
    Ok(q)
}

} // verus!
