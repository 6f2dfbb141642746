//! Building the pool of participants and their eligibility.
use crate::assign::holds_role;
use crate::ids::{RoleId, UserId};
use crate::pairing::RoleTable;
use vstd::prelude::*;

verus! {

/// Participants with their eligibility as sets of roles.
pub open spec fn users_view(u: Seq<(UserId, Vec<RoleId>)>) -> Seq<(UserId, Seq<RoleId>)> {
    u.map(|i: int, e: (UserId, Vec<RoleId>)| (e.0, e.1@))
}

/// Holds of the roles in `roles`.
pub open spec fn among(roles: Seq<RoleId>) -> spec_fn(RoleId) -> bool {
    |r: RoleId| roles.contains(r)
}

/// Holds of the participants that do not hold role `x`.
pub open spec fn lacks(x: RoleId) -> spec_fn((UserId, Vec<RoleId>)) -> bool {
    |e: (UserId, Vec<RoleId>)| !e.1@.contains(x)
}

/// A participant with the roles cut down to `roles`.
pub open spec fn cut(roles: Seq<RoleId>) -> spec_fn(int, (UserId, Seq<RoleId>)) -> (UserId, Seq<RoleId>) {
    |i: int, e: (UserId, Seq<RoleId>)| (e.0, e.1.filter(among(roles)))
}

pub open spec fn nonempty() -> spec_fn((UserId, Seq<RoleId>)) -> bool {
    |e: (UserId, Seq<RoleId>)| e.1.len() > 0
}

/// Each participant's roles cut down to those of `roles`; participants left
/// with none drop out.
pub open spec fn relevant(u: Seq<(UserId, Seq<RoleId>)>, roles: Seq<RoleId>) -> Seq<(UserId, Seq<RoleId>)> {
    u.map(cut(roles)).filter(nonempty())
}

proof fn lemma_filter_step<A>(s: Seq<A>, i: int, p: spec_fn(A) -> bool)
    requires
        0 <= i < s.len(),
    ensures
        s.take(i + 1).filter(p) == if p(s[i]) {
            s.take(i).filter(p).push(s[i])
        } else {
            s.take(i).filter(p)
        },
{
    reveal(Seq::filter);
    assert(s.take(i + 1).drop_last() =~= s.take(i));
    assert(s.take(i + 1).last() == s[i]);
}

/// The roles of `mine` that are among `roles`, in order.
fn roles_among(roles: &Vec<RoleId>, mine: &Vec<RoleId>) -> (r: Vec<RoleId>)
    ensures
        r@ == mine@.filter(among(roles@)),
{
    let mut r: Vec<RoleId> = Vec::new();
    let mut j: usize = 0;
    while j < mine.len()
        invariant
            0 <= j <= mine.len(),
            r@ == mine@.take(j as int).filter(among(roles@)),
        decreases mine.len() - j,
    {
        proof {
            lemma_filter_step(mine@, j as int, among(roles@));
        }
        if holds_role(roles, mine[j]) {
            r.push(mine[j]);
        }
        j = j + 1;
    }
    proof {
        assert(mine@.take(mine.len() as int) =~= mine@);
    }
    r
}

/// Removes every participant that holds the excluded role, if there is one.
pub fn remove_excluded(users_roles: &mut Vec<(UserId, Vec<RoleId>)>, excluded: Option<RoleId>)
    ensures
        excluded is None ==> final(users_roles)@ == old(users_roles)@,
        excluded matches Some(x) ==> final(users_roles)@ == old(users_roles)@.filter(lacks(x)),
{
    let x = match excluded {
        None => return,
        Some(x) => x,
    };
    let ghost orig = users_roles@;
    let mut kept: Vec<(UserId, Vec<RoleId>)> = Vec::new();
    let ghost mut i: int = 0;
    while users_roles.len() > 0
        invariant
            0 <= i <= orig.len(),
            users_roles@ == orig.skip(i),
            kept@ == orig.take(i).filter(lacks(x)),
        decreases users_roles.len(),
    {
        let ghost before = users_roles@;
        proof {
            assert(before.len() == orig.len() - i);
            assert(before[0] == orig[i]);
        }
        let u = users_roles.remove(0);
        proof {
            lemma_filter_step(orig, i, lacks(x));
            assert(users_roles@ =~= before.remove(0));
            assert(users_roles@ =~= orig.skip(i + 1));
        }
        if !holds_role(&u.1, x) {
            kept.push(u);
        }
        proof {
            i = i + 1;
        }
    }
    proof {
        assert(orig.take(i) =~= orig);
    }
    *users_roles = kept;
}

/// Keeps of each participant's roles those in the table, and drops the
/// participants left with none.
pub fn remove_irrelevant_qualifications(users: &mut Vec<(UserId, Vec<RoleId>)>, table: &RoleTable)
    ensures
        users_view(final(users)@) == relevant(users_view(old(users)@), table.roles()),
{
    let roles = table.role_ids();
    let ghost orig = users_view(users@);
    let ghost rs = table.roles();
    let mut kept: Vec<(UserId, Vec<RoleId>)> = Vec::new();
    let ghost mut i: int = 0;
    while users.len() > 0
        invariant
            0 <= i <= orig.len(),
            roles@ == rs,
            users_view(users@) == orig.skip(i),
            users_view(kept@) == relevant(orig.take(i), rs),
        decreases users.len(),
    {
        let ghost before = users@;
        proof {
            assert(users_view(before).len() == orig.len() - i);
            assert(users_view(before)[0] == orig[i]);
        }
        let u = users.remove(0);
        proof {
            assert(users@ =~= before.remove(0));
            assert forall|k: int| 0 <= k < users@.len() implies users_view(users@)[k] == users_view(before)[k + 1] by {
                assert(users@[k] == before[k + 1]);
            }
            assert(users_view(users@) =~= orig.skip(i + 1));
            assert(u.0 == orig[i].0 && u.1@ == orig[i].1);
        }
        let mine = roles_among(&roles, &u.1);
        proof {
            let mm = orig.map(cut(rs));
            assert(orig.take(i + 1).map(cut(rs)) =~= mm.take(i + 1));
            assert(orig.take(i).map(cut(rs)) =~= mm.take(i));
            assert(mm[i] == (u.0, mine@));
            lemma_filter_step(mm, i, nonempty());
        }
        if mine.len() > 0 {
            kept.push((u.0, mine));
        }
        proof {
            assert(users_view(kept@) =~= relevant(orig.take(i + 1), rs));
            i = i + 1;
        }
    }
    proof {
        assert(orig.take(i) =~= orig);
    }
    *users = kept;
}

/// Keeps of each participant's roles those in the table; participants left
/// with none stay in the pool.
pub fn restrict_qualifications(users: &mut Vec<(UserId, Vec<RoleId>)>, table: &RoleTable)
    ensures
        users_view(final(users)@) == users_view(old(users)@).map(cut(table.roles())),
{
    let roles = table.role_ids();
    let ghost orig = users_view(users@);
    let ghost rs = table.roles();
    let mut kept: Vec<(UserId, Vec<RoleId>)> = Vec::new();
    let ghost mut i: int = 0;
    while users.len() > 0
        invariant
            0 <= i <= orig.len(),
            roles@ == rs,
            users_view(users@) == orig.skip(i),
            users_view(kept@) == orig.take(i).map(cut(rs)),
        decreases users.len(),
    {
        let ghost before = users@;
        proof {
            assert(users_view(before).len() == orig.len() - i);
            assert(users_view(before)[0] == orig[i]);
        }
        let u = users.remove(0);
        proof {
            assert(users@ =~= before.remove(0));
            assert forall|k: int| 0 <= k < users@.len() implies users_view(users@)[k] == users_view(before)[k + 1] by {
                assert(users@[k] == before[k + 1]);
            }
            assert(users_view(users@) =~= orig.skip(i + 1));
            assert(u.0 == orig[i].0 && u.1@ == orig[i].1);
        }
        let mine = roles_among(&roles, &u.1);
        let ghost k0 = kept@;
        kept.push((u.0, mine));
        proof {
            let mm = orig.map(cut(rs));
            assert(orig.take(i + 1).map(cut(rs)) =~= mm.take(i + 1));
            assert(orig.take(i).map(cut(rs)) =~= mm.take(i));
            assert(mm[i] == (u.0, mine@));
            assert(users_view(kept@) =~= users_view(k0).push((u.0, mine@)));
            assert(mm.take(i + 1) =~= mm.take(i).push(mm[i]));
            assert(users_view(kept@) =~= orig.take(i + 1).map(cut(rs)));
            i = i + 1;
        }
    }
    proof {
        assert(orig.take(i) =~= orig);
    }
    *users = kept;
}

/// `count` made-up participants, numbered from 0, each eligible for every
/// role of the table.
pub fn simulate_roles(table: &RoleTable, count: u32) -> (r: Vec<(UserId, Vec<RoleId>)>)
    ensures
        r.len() == count,
        forall|i: int| 0 <= i < count ==> (#[trigger] r[i]).0 == UserId(i as u64) && r[i].1@ == table.roles(),
{
    let mut r: Vec<(UserId, Vec<RoleId>)> = Vec::new();
    let mut i: u32 = 0;
    while i < count
        invariant
            0 <= i <= count,
            r.len() == i,
            forall|k: int| 0 <= k < i ==> (#[trigger] r[k]).0 == UserId(k as u64) && r[k].1@ == table.roles(),
        decreases count - i,
    {
        r.push((UserId(i as u64), table.role_ids()));
        i = i + 1;
    }
    r
}

} // verus!
