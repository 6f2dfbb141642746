//! The allocation engine as a whole: a role table, the participants with
//! their eligibility, and the allocation that binds them.
use crate::assign::{assign, blocked, greedy_run, ids_unique, is_allocation, members, quota_ints};
use crate::curve::Job;
use crate::ids::{RoleId, UserId};
use crate::apportion::lemma_extra_seats_bound;
use crate::quota::{
    curve_quota, curves_of, floors, has_points, plan_curve, quota_view, remainders, shares, Infeasible,
};
use crate::sums::sum;
use crate::threshold::{
    lemma_settle, limits_of, minimums, open_roles, plan_threshold, threshold_quota, Limits,
};
use vstd::prelude::*;

verus! {

/// The configured roles, all under one policy.
pub enum RoleTable {
    Curve(Vec<(RoleId, Job)>),
    Threshold(Vec<(RoleId, Limits)>),
}

impl RoleTable {
    /// The role of each entry, in table order.
    pub open spec fn roles(&self) -> Seq<RoleId> {
        match self {
            RoleTable::Curve(j) => j@.map(|i: int, e: (RoleId, Job)| e.0),
            RoleTable::Threshold(s) => s@.map(|i: int, e: (RoleId, Limits)| e.0),
        }
    }

    /// Every threshold entry has its minimum at most its maximum.
    pub open spec fn wf(&self) -> bool {
        match self {
            RoleTable::Curve(j) => true,
            RoleTable::Threshold(s) => s.len() <= 0xffff_ffff && forall|i: int|
                0 <= i < s.len() ==> (#[trigger] s[i]).1.wf(),
        }
    }

    /// Whether the policy can count `n` participants: curve points are keyed
    /// by 16-bit participant totals.
    pub open spec fn counts(&self, n: int) -> bool {
        match self {
            RoleTable::Curve(j) => n <= 0xffff,
            RoleTable::Threshold(s) => true,
        }
    }

    /// The quota of the table for `n` participants.
    pub open spec fn quota(&self, n: int) -> Result<Seq<int>, Infeasible> {
        match self {
            RoleTable::Curve(j) => curve_quota(curves_of(j@), n),
            RoleTable::Threshold(s) => threshold_quota(limits_of(s@), n),
        }
    }

    pub fn len(&self) -> (r: usize)
        ensures
            r == self.roles().len(),
    {
        match self {
            RoleTable::Curve(j) => j.len(),
            RoleTable::Threshold(s) => s.len(),
        }
    }

    /// The role of each entry, in table order.
    pub fn role_ids(&self) -> (r: Vec<RoleId>)
        ensures
            r@ == self.roles(),
    {
        let mut r: Vec<RoleId> = Vec::new();
        let n = self.len();
        let mut i: usize = 0;
        while i < n
            invariant
                0 <= i <= n,
                n == self.roles().len(),
                r.len() == i,
                forall|k: int| 0 <= k < i ==> r[k] == self.roles()[k],
            decreases n - i,
        {
            let id = match self {
                RoleTable::Curve(j) => j[i].0,
                RoleTable::Threshold(s) => s[i].0,
            };
            r.push(id);
            i = i + 1;
        }
        proof {
            assert(r@ =~= self.roles());
        }
        r
    }

    /// Seats per role, in table order, for `players` participants.
    pub fn plan(&self, players: usize) -> (r: Result<Vec<u64>, Infeasible>)
        requires
            self.wf(),
            self.counts(players as int),
        ensures
            quota_view(r) == self.quota(players as int),
            r matches Ok(q) ==> q.len() == self.roles().len()
                && sum(quota_ints(q@)) == players,
    {
        let r = match self {
            RoleTable::Curve(j) => plan_curve(j, players as u16),
            RoleTable::Threshold(s) => plan_threshold(s, players as u64),
        };
        proof {
            if r is Ok {
                let q = r->Ok_0;
                assert(quota_ints(q@) =~= quota_view(r)->Ok_0);
                lemma_quota_len(self, players as int);
            }
        }
        r
    }
}

/// A quota has one entry per role of the table.
pub proof fn lemma_quota_len(t: &RoleTable, n: int)
    requires
        t.quota(n) is Ok,
    ensures
        t.quota(n)->Ok_0.len() == t.roles().len(),
{
    match t {
        RoleTable::Curve(j) if n != 0 => {
            let c = curves_of(j@);
            let sh = shares(c, n);
            let f = floors(sh);
            lemma_extra_seats_bound(remainders(sh), has_points(c), (n - sum(f)) as nat);
        },
        _ => {},
    }
}

/// Planning fails only for want of participants or of room, never for a role.
pub proof fn lemma_planning_errors(t: &RoleTable, n: int)
    requires
        t.wf(),
        n >= 0,
    ensures
        t.quota(n) matches Err(e) ==> !(e is NoEligibleCandidate),
{
    match t {
        RoleTable::Curve(j) => {},
        RoleTable::Threshold(s) => {
            let l = limits_of(s@);
            if sum(minimums(l)) <= n {
                lemma_settle(
                    l,
                    open_roles(l),
                    n - sum(minimums(l)),
                );
            }
        },
    }
}

/// Plans the quota for the participants and binds them to roles.
/// A planning failure is returned as it is; a role that runs out of eligible
/// participants gives `NoEligibleCandidate` with that role.
pub fn decide_pairings(table: &RoleTable, users_roles: &Vec<(UserId, Vec<RoleId>)>) -> (r: Result<
    Vec<(RoleId, Vec<UserId>)>,
    Infeasible,
>)
    requires
        table.wf(),
        ids_unique(users_roles@),
        table.counts(users_roles.len() as int),
    ensures
        table.quota(users_roles.len() as int) matches Err(e) ==> r == Err::<Vec<(RoleId, Vec<UserId>)>, Infeasible>(e),
        r matches Ok(a) ==> table.quota(users_roles.len() as int) matches Ok(q)
            && is_allocation(a@, table.roles(), q, users_roles@),
        r matches Ok(a) ==> table.quota(users_roles.len() as int) matches Ok(q) && exists|trace: Seq<Seq<usize>>|
            #[trigger] greedy_run(users_roles@, table.roles(), q, trace) && forall|k: int|
                0 <= k < q.len() ==> (#[trigger] a[k]).1@ == members(users_roles@, trace.last(), k as usize, users_roles.len() as int),
        r matches Err(Infeasible::NoEligibleCandidate(role)) ==> table.quota(users_roles.len() as int) matches Ok(q)
            && exists|trace: Seq<Seq<usize>>|
            #[trigger] greedy_run(users_roles@, table.roles(), q, trace)
                && blocked(users_roles@, table.roles(), q, trace.last(), role),
        table.quota(users_roles.len() as int) is Ok ==> (r is Ok || r matches Err(
            Infeasible::NoEligibleCandidate(_),
        )),
        r matches Err(e) ==> (e is NoEligibleCandidate || table.quota(users_roles.len() as int) == Err::<
            Seq<int>,
            Infeasible,
        >(e)),
        table.quota(users_roles.len() as int) is Ok && (forall|p: int, k: int|
            0 <= p < users_roles.len() && 0 <= k < table.roles().len() ==> #[trigger] users_roles[p].1@.contains(
                table.roles()[k],
            )) ==> r is Ok,
{
    let quota = match table.plan(users_roles.len()) {
        Ok(q) => q,
        Err(e) => {
            proof {
                lemma_planning_errors(table, users_roles.len() as int);
            }
            return Err(e);
        },
    };
    let roles = table.role_ids();
    proof {
        assert(quota_ints(quota@) == quota_view(Ok::<Vec<u64>, Infeasible>(quota))->Ok_0);
    }
    match assign(&roles, &quota, users_roles) {
        Ok(a) => Ok(a),
        Err(role) => Err(Infeasible::NoEligibleCandidate(role)),
    }
}


/// Planning is repeatable: two plans of one table for one participant count
/// give the same quota, or the same error.
pub proof fn lemma_planning_repeatable(
    t: &RoleTable,
    n: int,
    r1: Result<Vec<u64>, Infeasible>,
    r2: Result<Vec<u64>, Infeasible>,
)
    requires
        quota_view(r1) == t.quota(n),
        quota_view(r2) == t.quota(n),
    ensures
        r1 is Ok <==> r2 is Ok,
        r1 matches Ok(q1) ==> r2 matches Ok(q2) && q1@ == q2@,
        r1 matches Err(e1) ==> r2 matches Err(e2) && e1 == e2,
{
    if let (Ok(q1), Ok(q2)) = (r1, r2) {
        let m1 = q1@.map(|i: int, x: u64| x as int);
        let m2 = q2@.map(|i: int, x: u64| x as int);
        assert(quota_view(r1)->Ok_0 == m1);
        assert(quota_view(r2)->Ok_0 == m2);
        assert(q1.len() == q2.len());
        assert forall|i: int| 0 <= i < q1.len() implies q1[i] == q2[i] by {
            assert(m1[i] == m2[i]);
        }
        assert(q1@ =~= q2@);
    }
}

} // verus!
