//! Randomized scarcest-first assignment of participants to roles.
use crate::ids::{RoleId, UserId};
use crate::sums::{lemma_elem_le_sum, lemma_some_positive, lemma_sum_nonneg, lemma_sum_take, lemma_sum_update, lemma_sum_zeros, sum};
use rand::distributions::{Distribution, Uniform};
use vstd::prelude::*;

verus! {

/// Relies on `rand::thread_rng` and `Uniform::sample` over `0..n`: a number
/// below `n` (`Uniform::new` panics on an empty range, hence `n > 0`).
#[verifier::external_body]
fn random_index(n: usize) -> (r: usize)
    requires
        n > 0,
    ensures
        r < n,
{
    Uniform::from(0..n).sample(&mut rand::thread_rng())
}

/// Participants and the roles each is eligible for.
pub open spec fn ids_unique(users: Seq<(UserId, Vec<RoleId>)>) -> bool {
    forall|p: int, q: int|
        0 <= p < users.len() && 0 <= q < users.len() && #[trigger] users[p].0 == #[trigger] users[q].0
            ==> p == q
}

/// Whether no participant appears twice.
pub fn distinct_ids(users: &Vec<(UserId, Vec<RoleId>)>) -> (r: bool)
    ensures
        r == ids_unique(users@),
{
    let n = users.len();
    let mut p: usize = 0;
    while p < n
        invariant
            0 <= p <= n,
            n == users.len(),
            forall|a: int, b: int|
                0 <= a < p && 0 <= b < n && #[trigger] users[a].0 == #[trigger] users[b].0 ==> a == b,
        decreases n - p,
    {
        let mut q: usize = 0;
        while q < n
            invariant
                0 <= p < n,
                0 <= q <= n,
                n == users.len(),
                forall|b: int| 0 <= b < q && users[p as int].0 == #[trigger] users[b].0 ==> p == b,
            decreases n - q,
        {
            if q != p && users[p].0 == users[q].0 {
                return false;
            }
            q = q + 1;
        }
        p = p + 1;
    }
    true
}

pub open spec fn quota_ints(quota: Seq<u64>) -> Seq<int> {
    quota.map(|i: int, x: u64| x as int)
}

/// `a` binds the participants of `users` to `roles`, seat counts as in `quota`:
/// each list belongs to the role at its position and has that role's quota,
/// holds only participants eligible for that role, and every participant
/// stands in exactly one place over all the lists.
pub open spec fn is_allocation(
    a: Seq<(RoleId, Vec<UserId>)>,
    roles: Seq<RoleId>,
    quota: Seq<int>,
    users: Seq<(UserId, Vec<RoleId>)>,
) -> bool {
    &&& a.len() == roles.len()
    &&& forall|k: int| 0 <= k < a.len() ==> (#[trigger] a[k]).0 == roles[k] && a[k].1.len() == quota[k]
    &&& forall|k: int, j: int|
        0 <= k < a.len() && 0 <= j < a[k].1.len() ==> exists|p: int|
            0 <= p < users.len() && users[p].0 == #[trigger] a[k].1[j] && users[p].1@.contains(roles[k])
    &&& forall|p: int| #![trigger users[p]] 0 <= p < users.len() ==> exists|k: int, j: int|
        0 <= k < a.len() && 0 <= j < a[k].1.len() && #[trigger] a[k].1[j] == users[p].0
    &&& forall|k1: int, j1: int, k2: int, j2: int|
        0 <= k1 < a.len() && 0 <= j1 < a[k1].1.len() && 0 <= k2 < a.len() && 0 <= j2 < a[k2].1.len()
            && #[trigger] a[k1].1[j1] == #[trigger] a[k2].1[j2] ==> k1 == k2 && j1 == j2
}

/// Among the first `j` roles that still need seats, the first one with the
/// fewest candidates, or -1.
pub open spec fn scarcest_upto(needed: Seq<u64>, cands: Seq<u64>, j: int) -> int
    decreases j,
{
    if j <= 0 {
        -1
    } else {
        let b = scarcest_upto(needed, cands, j - 1);
        if needed[j - 1] > 0 && (b < 0 || cands[j - 1] < cands[b]) {
            j - 1
        } else {
            b
        }
    }
}

proof fn lemma_scarcest_upto(needed: Seq<u64>, cands: Seq<u64>, j: int)
    requires
        0 <= j <= needed.len(),
        needed.len() == cands.len(),
    ensures
        -1 <= scarcest_upto(needed, cands, j) < j,
        scarcest_upto(needed, cands, j) >= 0 ==> needed[scarcest_upto(needed, cands, j)] > 0,
        (exists|i: int| 0 <= i < j && needed[i] > 0) ==> scarcest_upto(needed, cands, j) >= 0,
    decreases j,
{
    if j > 0 {
        lemma_scarcest_upto(needed, cands, j - 1);
    }
}

/// The role to serve next: of those that still need seats, the one with the
/// fewest candidates, the first on a tie; `None` where no role needs seats.
pub fn scarcest_role(needed: &Vec<u64>, cands: &Vec<u64>) -> (r: Option<usize>)
    requires
        needed.len() == cands.len(),
    ensures
        r matches Some(k) ==> k as int == scarcest_upto(needed@, cands@, needed.len() as int),
        r is None ==> scarcest_upto(needed@, cands@, needed.len() as int) == -1,
        r is None <==> forall|k: int| 0 <= k < needed.len() ==> needed[k] == 0,
{
    let n = needed.len();
    let mut best: usize = 0;
    let mut found = false;
    let mut j: usize = 0;
    while j < n
        invariant
            0 <= j <= n,
            n == needed.len() == cands.len(),
            found == (scarcest_upto(needed@, cands@, j as int) >= 0),
            found ==> best == scarcest_upto(needed@, cands@, j as int),
            !found ==> best == 0,
            found ==> best < j,
        decreases n - j,
    {
        proof {
            lemma_scarcest_upto(needed@, cands@, j as int);
        }
        if needed[j] > 0 && (!found || cands[j] < cands[best]) {
            best = j;
            found = true;
        }
        j = j + 1;
    }
    proof {
        lemma_scarcest_upto(needed@, cands@, n as int);
    }
    if found {
        Some(best)
    } else {
        None
    }
}

/// Whether `role` is among `roles`.
pub fn holds_role(roles: &Vec<RoleId>, role: RoleId) -> (r: bool)
    ensures
        r == roles@.contains(role),
{
    let mut i: usize = 0;
    while i < roles.len()
        invariant
            0 <= i <= roles.len(),
            forall|j: int| 0 <= j < i ==> roles[j] != role,
        decreases roles.len() - i,
    {
        if roles[i] == role {
            return true;
        }
        i = i + 1;
    }
    false
}

/// Seats each role still needs in placement `slot`, where `slot[p]` is the
/// role that participant `p` took, `roles.len()` if none.
pub open spec fn needs(slot: Seq<usize>, quota: Seq<int>, m: int) -> Seq<u64> {
    Seq::new(m as nat, |x: int| (quota[x] - sum(in_slot(slot, x))) as u64)
}

/// The role served next in placement `slot`: of the roles that still need
/// seats, the one with the fewest unassigned candidates, the first on a tie.
pub open spec fn next_role(
    users: Seq<(UserId, Vec<RoleId>)>,
    roles: Seq<RoleId>,
    quota: Seq<int>,
    slot: Seq<usize>,
) -> int {
    scarcest_upto(needs(slot, quota, roles.len() as int), pool_sizes(users, slot, roles), roles.len() as int)
}

/// One greedy step from `s1` to `s2`: one of the unassigned candidates of the
/// next role takes that role.
pub open spec fn greedy_step(
    users: Seq<(UserId, Vec<RoleId>)>,
    roles: Seq<RoleId>,
    quota: Seq<int>,
    s1: Seq<usize>,
    s2: Seq<usize>,
) -> bool {
    let k = next_role(users, roles, quota, s1);
    let pool = pool_of(users, s1, roles.len() as usize, roles[k], users.len() as int);
    &&& 0 <= k
    &&& exists|j: int| 0 <= j < pool.len() && s2 == #[trigger] s1.update(pool[j] as int, k as usize)
}

/// A run of greedy steps from the placement where nobody is placed.
pub open spec fn greedy_run(
    users: Seq<(UserId, Vec<RoleId>)>,
    roles: Seq<RoleId>,
    quota: Seq<int>,
    trace: Seq<Seq<usize>>,
) -> bool {
    &&& trace.len() >= 1
    &&& trace[0] == Seq::new(users.len(), |p: int| roles.len() as usize)
    &&& forall|i: int|
        0 <= i < trace.len() - 1 ==> greedy_step(users, roles, quota, #[trigger] trace[i], trace[i + 1])
}

/// In placement `slot` somebody is still unplaced, the next role is `role`
/// and still needs seats, and it has no unassigned candidate left.
pub open spec fn blocked(
    users: Seq<(UserId, Vec<RoleId>)>,
    roles: Seq<RoleId>,
    quota: Seq<int>,
    slot: Seq<usize>,
    role: RoleId,
) -> bool {
    let k = next_role(users, roles, quota, slot);
    &&& 0 <= k < roles.len()
    &&& roles[k] == role
    &&& needs(slot, quota, roles.len() as int)[k] > 0
    &&& pool_of(users, slot, roles.len() as usize, role, users.len() as int).len() == 0
    &&& exists|p: int| 0 <= p < slot.len() && slot[p] == roles.len()
}

/// Places participant `pool[d]` in role `k`, one seat fewer needed there:
/// the step that follows drawing `d` below the size of role `k`'s pool.
pub fn place_drawn(slot: &mut Vec<usize>, needed: &mut Vec<u64>, k: usize, pool: &Vec<usize>, d: usize)
    requires
        d < pool.len(),
        pool[d as int] < old(slot).len(),
        k < old(needed).len(),
        old(needed)[k as int] > 0,
    ensures
        final(slot)@ == old(slot)@.update(pool[d as int] as int, k),
        final(needed)@ == old(needed)@.update(k as int, (old(needed)[k as int] - 1) as u64),
{
    let p = pool[d];
    slot.set(p, k);
    let c = needed[k];
    needed.set(k, c - 1);
}

/// Indicator of the participants in slot `k`.
pub open spec fn in_slot(slot: Seq<usize>, k: int) -> Seq<int> {
    Seq::new(slot.len(), |p: int| if slot[p] == k { 1int } else { 0 })
}

/// Positions below `p` of the participants in slot `free` that are eligible
/// for `role`, in order.
pub open spec fn pool_of(
    users: Seq<(UserId, Vec<RoleId>)>,
    slot: Seq<usize>,
    free: usize,
    role: RoleId,
    p: int,
) -> Seq<usize>
    decreases p,
{
    if p <= 0 {
        Seq::empty()
    } else {
        let rest = pool_of(users, slot, free, role, p - 1);
        if slot[p - 1] == free && users[p - 1].1@.contains(role) {
            rest.push((p - 1) as usize)
        } else {
            rest
        }
    }
}

/// Number of unassigned candidates of each role.
pub open spec fn pool_sizes(users: Seq<(UserId, Vec<RoleId>)>, slot: Seq<usize>, roles: Seq<RoleId>) -> Seq<u64> {
    Seq::new(
        roles.len(),
        |k: int| pool_of(users, slot, roles.len() as usize, roles[k], users.len() as int).len() as u64,
    )
}

pub proof fn lemma_pool_of(
    users: Seq<(UserId, Vec<RoleId>)>,
    slot: Seq<usize>,
    free: usize,
    role: RoleId,
    p: int,
)
    requires
        0 <= p <= users.len(),
        users.len() <= usize::MAX,
        slot.len() == users.len(),
    ensures
        forall|j: int|
            0 <= j < pool_of(users, slot, free, role, p).len() ==> #[trigger] pool_of(users, slot, free, role, p)[j] < p
                && slot[pool_of(users, slot, free, role, p)[j] as int] == free
                && users[pool_of(users, slot, free, role, p)[j] as int].1@.contains(role),
        forall|q: int|
            0 <= q < p && slot[q] == free && #[trigger] users[q].1@.contains(role) ==> pool_of(
                users,
                slot,
                free,
                role,
                p,
            ).len() > 0,
    decreases p,
{
    if p > 0 {
        lemma_pool_of(users, slot, free, role, p - 1);
        let rest = pool_of(users, slot, free, role, p - 1);
        let all = pool_of(users, slot, free, role, p);
        assert forall|j: int| 0 <= j < all.len() implies #[trigger] all[j] < p && slot[all[j] as int] == free
            && users[all[j] as int].1@.contains(role) by {
            if j < rest.len() {
                assert(all[j] == rest[j]);
            }
        }
    }
}

/// Unassigned participants eligible for `role`, by position.
fn candidates(users: &Vec<(UserId, Vec<RoleId>)>, slot: &Vec<usize>, free: usize, role: RoleId) -> (r: Vec<usize>)
    requires
        users.len() == slot.len(),
    ensures
        r@ == pool_of(users@, slot@, free, role, users.len() as int),
{
    let mut r: Vec<usize> = Vec::new();
    let mut p: usize = 0;
    while p < users.len()
        invariant
            0 <= p <= users.len(),
            users.len() == slot.len(),
            r@ == pool_of(users@, slot@, free, role, p as int),
        decreases users.len() - p,
    {
        if slot[p] == free && holds_role(&users[p].1, role) {
            r.push(p);
        }
        p = p + 1;
    }
    r
}

/// The role to serve next and its unassigned candidates: of the roles that
/// still need seats, the one with the fewest candidates, the first on a tie;
/// `None` where no role needs seats. Participant `p` is unassigned where
/// `slot[p]` is `roles.len()`.
pub fn scarcest_pool(
    roles: &Vec<RoleId>,
    users: &Vec<(UserId, Vec<RoleId>)>,
    slot: &Vec<usize>,
    needed: &Vec<u64>,
) -> (r: Option<(usize, Vec<usize>)>)
    requires
        users.len() == slot.len(),
        roles.len() == needed.len(),
    ensures
        r is None <==> forall|k: int| 0 <= k < needed.len() ==> needed[k] == 0,
        r matches Some((k, pool)) ==> k < roles.len()
            && k == scarcest_upto(needed@, pool_sizes(users@, slot@, roles@), roles.len() as int)
            && pool@ == pool_of(users@, slot@, roles.len(), roles[k as int], users.len() as int),
{
    let m = roles.len();
    let ghost sizes = pool_sizes(users@, slot@, roles@);
    let mut cands: Vec<u64> = Vec::new();
    let mut k: usize = 0;
    while k < m
        invariant
            0 <= k <= m,
            m == roles.len(),
            users.len() == slot.len(),
            sizes == pool_sizes(users@, slot@, roles@),
            cands.len() == k,
            forall|x: int| 0 <= x < k ==> #[trigger] cands[x] == sizes[x],
        decreases m - k,
    {
        let c = candidates(users, slot, m, roles[k]);
        cands.push(c.len() as u64);
        k = k + 1;
    }
    proof {
        assert(cands@ =~= sizes);
    }
    match scarcest_role(needed, &cands) {
        None => None,
        Some(k) => {
            proof {
                lemma_scarcest_upto(needed@, cands@, m as int);
            }
            Some((k, candidates(users, slot, m, roles[k])))
        },
    }
}

/// Ids of the participants below position `p` in slot `k`, in order.
pub open spec fn members(users: Seq<(UserId, Vec<RoleId>)>, slot: Seq<usize>, k: usize, p: int) -> Seq<UserId>
    decreases p,
{
    if p <= 0 {
        Seq::empty()
    } else {
        let rest = members(users, slot, k, p - 1);
        if slot[p - 1] == k {
            rest.push(users[p - 1].0)
        } else {
            rest
        }
    }
}

/// The participants in slot `k`, in participant order, with the position of
/// each in `users`.
fn members_of(users: &Vec<(UserId, Vec<RoleId>)>, slot: &Vec<usize>, k: usize) -> (r: (Vec<UserId>, Ghost<Seq<int>>))
    requires
        users.len() == slot.len(),
    ensures
        r.0@ == members(users@, slot@, k, users.len() as int),
        r.1@.len() == r.0.len(),
        r.0.len() == sum(in_slot(slot@, k as int)),
        forall|j: int|
            0 <= j < r.0.len() ==> 0 <= #[trigger] r.1@[j] < users.len() && slot[r.1@[j]] == k
                && r.0[j] == users[r.1@[j]].0,
        forall|j1: int, j2: int| 0 <= j1 < j2 < r.0.len() ==> r.1@[j1] < r.1@[j2],
        forall|p: int| 0 <= p < users.len() && slot[p] == k ==> exists|j: int|
            0 <= j < r.0.len() && #[trigger] r.1@[j] == p,
{
    let ghost ind = in_slot(slot@, k as int);
    let mut r: Vec<UserId> = Vec::new();
    let ghost mut src: Seq<int> = Seq::empty();
    let mut p: usize = 0;
    while p < users.len()
        invariant
            0 <= p <= users.len(),
            users.len() == slot.len() == ind.len(),
            ind == in_slot(slot@, k as int),
            src.len() == r.len(),
            r@ == members(users@, slot@, k, p as int),
            r.len() == sum(ind.take(p as int)),
            forall|j: int|
                0 <= j < r.len() ==> 0 <= #[trigger] src[j] < p && slot[src[j]] == k
                    && r[j] == users[src[j]].0,
            forall|j1: int, j2: int| 0 <= j1 < j2 < r.len() ==> src[j1] < src[j2],
            forall|q: int| 0 <= q < p && slot[q] == k ==> exists|j: int| 0 <= j < r.len() && #[trigger] src[j] == q,
        decreases users.len() - p,
    {
        proof {
            lemma_sum_take(ind, p as int);
        }
        let ghost src0 = src;
        let ghost len0 = r.len();
        if slot[p] == k {
            r.push(users[p].0);
            proof {
                src = src.push(p as int);
            }
        }
        proof {
            assert forall|q: int| 0 <= q < p + 1 && slot[q] == k implies exists|j: int|
                0 <= j < r.len() && #[trigger] src[j] == q by {
                if q == p {
                    assert(src[src.len() - 1] == q);
                } else {
                    let j = choose|j: int| 0 <= j < len0 && #[trigger] src0[j] == q;
                    assert(src[j] == q);
                }
            }
        }
        p = p + 1;
    }
    proof {
        assert(ind.take(users.len() as int) =~= ind);
    }
    let out: (Vec<UserId>, Ghost<Seq<int>>) = (r, Ghost(src));
    proof {
        assert forall|q: int| 0 <= q < users.len() && slot[q] == k implies exists|j: int|
            0 <= j < out.0.len() && #[trigger] out.1@[j] == q by {
            assert(q < p);
            let j = choose|j: int| 0 <= j < src.len() && #[trigger] src[j] == q;
            assert(out.1@[j] == q);
        }
    }
    out
}

/// Binds every participant to a role, scarcest role first: the role that
/// still needs seats and has the fewest unassigned eligible participants
/// (see `scarcest_pool`) takes one of them, drawn uniformly at random. Fails
/// with the role that ran out of candidates while it still needed seats.
pub fn assign(roles: &Vec<RoleId>, quota: &Vec<u64>, users: &Vec<(UserId, Vec<RoleId>)>) -> (r: Result<
    Vec<(RoleId, Vec<UserId>)>,
    RoleId,
>)
    requires
        roles.len() == quota.len(),
        ids_unique(users@),
        sum(quota_ints(quota@)) == users.len(),
    ensures
        r matches Ok(a) ==> is_allocation(a@, roles@, quota_ints(quota@), users@),
        r matches Ok(a) ==> exists|trace: Seq<Seq<usize>>|
            #[trigger] greedy_run(users@, roles@, quota_ints(quota@), trace) && forall|k: int|
                0 <= k < roles.len() ==> (#[trigger] a[k]).1@ == members(users@, trace.last(), k as usize, users.len() as int),
        r matches Err(role) ==> exists|trace: Seq<Seq<usize>>|
            #[trigger] greedy_run(users@, roles@, quota_ints(quota@), trace)
                && blocked(users@, roles@, quota_ints(quota@), trace.last(), role),
        (forall|p: int, k: int|
            0 <= p < users.len() && 0 <= k < roles.len() ==> #[trigger] users[p].1@.contains(roles[k]))
            ==> r is Ok,
{
    let m = roles.len();
    let n = users.len();
    let ghost qi = quota_ints(quota@);
    let mut slot: Vec<usize> = Vec::new();
    let mut i: usize = 0;
    while i < n
        invariant
            0 <= i <= n,
            slot.len() == i,
            forall|p: int| 0 <= p < i ==> slot[p] == m,
        decreases n - i,
    {
        slot.push(m);
        i = i + 1;
    }
    let mut needed: Vec<u64> = Vec::new();
    let mut i: usize = 0;
    while i < m
        invariant
            0 <= i <= m,
            m == quota.len(),
            needed.len() == i,
            forall|k: int| 0 <= k < i ==> needed[k] == quota[k],
        decreases m - i,
    {
        needed.push(quota[i]);
        i = i + 1;
    }
    proof {
        assert(quota_ints(needed@) =~= qi);
        assert forall|k: int| 0 <= k <= m implies #[trigger] in_slot(slot@, k) == (if k == m {
            Seq::new(n as nat, |p: int| 1int)
        } else {
            Seq::new(n as nat, |p: int| 0int)
        }) by {
            assert(in_slot(slot@, k) =~= (if k == m {
                Seq::new(n as nat, |p: int| 1int)
            } else {
                Seq::new(n as nat, |p: int| 0int)
            }));
        }
        lemma_sum_zeros(n as nat);
        lemma_sum_ones(n as nat);
    }
    let ghost mut trace: Seq<Seq<usize>> = seq![slot@];
    proof {
        assert(slot@ =~= Seq::new(n as nat, |p: int| m as usize));
    }
    let mut placed: usize = 0;
    while placed < n
        invariant
            0 <= placed <= n,
            greedy_run(users@, roles@, qi, trace),
            trace.last() == slot@,
            n == users.len() == slot.len(),
            m == roles.len() == quota.len() == needed.len(),
            qi == quota_ints(quota@),
            ids_unique(users@),
            sum(quota_ints(needed@)) == n - placed,
            sum(in_slot(slot@, m as int)) == n - placed,
            forall|p: int| 0 <= p < n ==> #[trigger] slot[p] <= m,
            forall|p: int| 0 <= p < n && slot[p] < m ==> users[p].1@.contains(roles[slot[p] as int]),
            forall|k: int| 0 <= k < m ==> needed[k] + sum(#[trigger] in_slot(slot@, k)) == quota[k],
        decreases n - placed,
    {
        proof {
            lemma_some_positive(quota_ints(needed@));
            let w = choose|x: int| 0 <= x < m && quota_ints(needed@)[x] > 0;
            assert(needed[w] > 0);
        }
        let (k, pool) = match scarcest_pool(roles, users, &slot, &needed) {
            Some(next) => next,
            None => {
                proof {
                    let w = choose|x: int| 0 <= x < m && quota_ints(needed@)[x] > 0;
                    assert(needed[w] > 0);
                }
                return Err(roles[0]);
            },
        };
        proof {
            assert forall|x: int| 0 <= x < m implies #[trigger] needs(slot@, qi, m as int)[x] == needed[x] by {
                assert(needed[x] + sum(in_slot(slot@, x)) == quota[x]);
            }
            assert(needs(slot@, qi, m as int) =~= needed@);
            lemma_scarcest_upto(needed@, pool_sizes(users@, slot@, roles@), m as int);
            lemma_pool_of(users@, slot@, m, roles[k as int], n as int);
            lemma_sum_nonneg(in_slot(slot@, k as int));
            assert forall|p: int| 0 <= p < n implies #[trigger] in_slot(slot@, k as int)[p] >= 0 by {}
        }
        if pool.len() == 0 {
            proof {
                lemma_some_positive(in_slot(slot@, m as int));
                let w = choose|p: int| 0 <= p < n && in_slot(slot@, m as int)[p] > 0;
                assert(slot[w] == m);
                assert(!users[w].1@.contains(roles[k as int]));
                assert(blocked(users@, roles@, qi, trace.last(), roles[k as int]));
            }
            return Err(roles[k]);
        }
        let d = random_index(pool.len());
        let p = pool[d];
        proof {
            let ghost old_slot = slot@;
            assert(in_slot(old_slot.update(p as int, k), m as int) =~= in_slot(old_slot, m as int).update(p as int, 0));
            assert(in_slot(old_slot.update(p as int, k), k as int) =~= in_slot(old_slot, k as int).update(p as int, 1));
            assert forall|x: int| 0 <= x < m && x != k implies #[trigger] in_slot(old_slot.update(p as int, k), x)
                =~= in_slot(old_slot, x) by {}
            lemma_sum_update(in_slot(old_slot, m as int), p as int, 0);
            lemma_sum_update(in_slot(old_slot, k as int), p as int, 1);
            lemma_sum_update(quota_ints(needed@), k as int, needed[k as int] - 1);
            assert(quota_ints(needed@.update(k as int, (needed[k as int] - 1) as u64)) =~= quota_ints(needed@).update(k as int, needed[k as int] - 1));
        }
        let ghost s1 = slot@;
        place_drawn(&mut slot, &mut needed, k, &pool, d);
        proof {
            assert(next_role(users@, roles@, qi, s1) == k);
            let sp = pool_of(users@, s1, m, roles[k as int], n as int);
            assert(sp[d as int] == pool[d as int]);
            assert(slot@ == s1.update(sp[d as int] as int, k as usize));
            assert(greedy_step(users@, roles@, qi, s1, slot@));
            let t0 = trace;
            trace = trace.push(slot@);
            assert forall|i: int| 0 <= i < trace.len() - 1 implies greedy_step(
                users@,
                roles@,
                qi,
                #[trigger] trace[i],
                trace[i + 1],
            ) by {
                if i < t0.len() - 1 {
                    assert(trace[i] == t0[i] && trace[i + 1] == t0[i + 1]);
                }
            }
        }
        placed = placed + 1;
    }
    proof {
        assert forall|p: int| 0 <= p < n implies #[trigger] slot[p] < m by {
            let ind = in_slot(slot@, m as int);
            assert forall|q: int| 0 <= q < n implies ind[q] >= 0 by {}
            lemma_elem_le_sum(ind, p);
        }
        assert forall|k: int| 0 <= k < m implies #[trigger] needed[k] == 0 by {
            lemma_elem_le_sum(quota_ints(needed@), k);
            assert(quota_ints(needed@)[k] == needed[k]);
        }
    }
    let mut a: Vec<(RoleId, Vec<UserId>)> = Vec::new();
    let ghost mut srcs: Seq<Seq<int>> = Seq::empty();
    let mut k: usize = 0;
    while k < m
        invariant
            0 <= k <= m,
            n == users.len() == slot.len(),
            m == roles.len() == quota.len() == needed.len(),
            ids_unique(users@),
            forall|p: int| 0 <= p < n ==> #[trigger] slot[p] < m,
            forall|p: int| 0 <= p < n && slot[p] < m ==> users[p].1@.contains(roles[slot[p] as int]),
            forall|x: int| 0 <= x < m ==> needed[x] + sum(#[trigger] in_slot(slot@, x)) == quota[x],
            forall|x: int| 0 <= x < m ==> #[trigger] needed[x] == 0,
            a.len() == k,
            srcs.len() == k,
            greedy_run(users@, roles@, qi, trace),
            trace.last() == slot@,
            forall|x: int| 0 <= x < k ==> (#[trigger] a[x]).1@ == members(users@, slot@, x as usize, n as int),
            forall|x: int| 0 <= x < k ==> (#[trigger] a[x]).0 == roles[x] && a[x].1.len() == quota[x]
                && srcs[x].len() == a[x].1.len(),
            forall|x: int, j: int|
                0 <= x < k && 0 <= j < a[x].1.len() ==> 0 <= #[trigger] srcs[x][j] < n && slot[srcs[x][j]] == x
                    && a[x].1[j] == users[srcs[x][j]].0,
            forall|x: int, j1: int, j2: int| 0 <= x < k && 0 <= j1 < j2 < a[x].1.len() ==> srcs[x][j1] < srcs[x][j2],
            forall|p: int| 0 <= p < n && slot[p] < k ==> exists|j: int|
                0 <= j < a[slot[p] as int].1.len() && #[trigger] srcs[slot[p] as int][j] == p,
        decreases m - k,
    {
        let (list, src) = members_of(users, &slot, k);
        let ghost a0 = a@;
        let ghost srcs0 = srcs;
        a.push((roles[k], list));
        proof {
            srcs = srcs.push(src@);
            assert forall|p: int| 0 <= p < n && slot[p] < k + 1 implies exists|j: int|
                0 <= j < a[slot[p] as int].1.len() && #[trigger] srcs[slot[p] as int][j] == p by {
                let x = slot[p] as int;
                if x == k {
                    let j = choose|j: int| 0 <= j < src@.len() && #[trigger] src@[j] == p;
                    assert(srcs[x][j] == p);
                } else {
                    let j = choose|j: int| 0 <= j < a0[x].1.len() && #[trigger] srcs0[x][j] == p;
                    assert(srcs[x][j] == p);
                    assert(a[x] == a0[x]);
                }
            }
        }
        k = k + 1;
    }
    proof {
        assert forall|x: int, j: int|
            0 <= x < a.len() && 0 <= j < a[x].1.len() implies exists|p: int|
                0 <= p < users.len() && users[p].0 == #[trigger] a[x].1[j] && users[p].1@.contains(roles[x]) by {
            let p = srcs[x][j];
            assert(users[p].0 == a[x].1[j]);
        }
        assert forall|p: int| #![trigger users[p]] 0 <= p < users.len() implies exists|x: int, j: int|
            0 <= x < a.len() && 0 <= j < a[x].1.len() && #[trigger] a[x].1[j] == users[p].0 by {
            let x = slot[p] as int;
            let j = choose|j: int| 0 <= j < a[x].1.len() && #[trigger] srcs[x][j] == p;
            assert(a[x].1[j] == users[p].0);
        }
        assert forall|k1: int, j1: int, k2: int, j2: int|
            0 <= k1 < a.len() && 0 <= j1 < a[k1].1.len() && 0 <= k2 < a.len() && 0 <= j2 < a[k2].1.len()
                && #[trigger] a[k1].1[j1] == #[trigger] a[k2].1[j2] implies k1 == k2 && j1 == j2 by {
            let p1 = srcs[k1][j1];
            let p2 = srcs[k2][j2];
            assert(users[p1].0 == users[p2].0);
            if j1 < j2 {
                assert(srcs[k1][j1] < srcs[k1][j2]);
            } else if j2 < j1 {
                assert(srcs[k1][j2] < srcs[k1][j1]);
            }
        }
    }
    Ok(a)
}

proof fn lemma_sum_ones(n: nat)
    ensures
        sum(Seq::new(n, |p: int| 1int)) == n,
    decreases n,
{
    if n > 0 {
        assert(Seq::new(n, |p: int| 1int).drop_last() =~= Seq::new((n - 1) as nat, |p: int| 1int));
        lemma_sum_ones((n - 1) as nat);
    }
}


/// Positions of the participants eligible for `role`.
pub open spec fn eligible_for(users: Seq<(UserId, Vec<RoleId>)>, role: RoleId) -> Set<int> {
    Set::new(|p: int| 0 <= p < users.len() && users[p].1@.contains(role))
}

/// No allocation gives a role more participants than are eligible for it;
/// so where a role's quota exceeds that number, assignment cannot succeed.
pub proof fn lemma_allocation_within_eligible(
    a: Seq<(RoleId, Vec<UserId>)>,
    roles: Seq<RoleId>,
    quota: Seq<int>,
    users: Seq<(UserId, Vec<RoleId>)>,
    k: int,
)
    requires
        is_allocation(a, roles, quota, users),
        0 <= k < roles.len(),
    ensures
        quota[k] <= eligible_for(users, roles[k]).len(),
        eligible_for(users, roles[k]).finite(),
{
    let list = a[k].1@;
    let src = Seq::new(
        list.len(),
        |j: int| choose|p: int| 0 <= p < users.len() && users[p].0 == list[j] && users[p].1@.contains(roles[k]),
    );
    assert forall|j: int| 0 <= j < list.len() implies 0 <= #[trigger] src[j] < users.len() && users[src[j]].0 == list[j]
        && users[src[j]].1@.contains(roles[k]) by {
        assert(a[k].1[j] == list[j]);
    }
    assert forall|i: int, j: int| 0 <= i < src.len() && 0 <= j < src.len() && i != j implies src[i] != src[j] by {
        if src[i] == src[j] {
            assert(a[k].1[i] == a[k].1[j]);
        }
    }
    src.unique_seq_to_set();
    let e = eligible_for(users, roles[k]);
    vstd::set_lib::lemma_int_range(0, users.len() as int);
    assert(e.subset_of(vstd::set_lib::set_int_range(0, users.len() as int)));
    vstd::set_lib::lemma_len_subset(e, vstd::set_lib::set_int_range(0, users.len() as int));
    assert(src.to_set().subset_of(e));
    vstd::set_lib::lemma_len_subset(src.to_set(), e);
}

} // verus!
