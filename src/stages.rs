//! Stages of a curve table: a participant total and the amount of each role
//! at that total.
use crate::curve::Job;
use crate::ids::RoleId;
use crate::points::{with_point, without_point};
use vstd::prelude::*;

verus! {

/// The amount given for `role`: the last entry for it, or 0.
pub open spec fn amount_for(amounts: Seq<(RoleId, u16)>, role: RoleId) -> u16
    decreases amounts.len(),
{
    if amounts.len() == 0 {
        0
    } else if amounts.last().0 == role {
        amounts.last().1
    } else {
        amount_for(amounts.drop_last(), role)
    }
}

/// All amounts added up.
pub open spec fn amounts_total(amounts: Seq<(RoleId, u16)>) -> int
    decreases amounts.len(),
{
    if amounts.len() == 0 {
        0
    } else {
        amounts_total(amounts.drop_last()) + amounts.last().1
    }
}

proof fn lemma_total_grows(amounts: Seq<(RoleId, u16)>, i: int)
    requires
        0 <= i <= amounts.len(),
    ensures
        amounts_total(amounts.take(i)) <= amounts_total(amounts),
    decreases amounts.len() - i,
{
    if i < amounts.len() {
        assert(amounts.take(i + 1).drop_last() =~= amounts.take(i));
        lemma_total_grows(amounts, i + 1);
    } else {
        assert(amounts.take(i) =~= amounts);
    }
}

/// The participant total of a stage: the sum of its amounts, where it fits
/// 16 bits.
pub fn stage_total(amounts: &Vec<(RoleId, u16)>) -> (r: Option<u16>)
    ensures
        r matches Some(t) ==> t == amounts_total(amounts@),
        r is None <==> amounts_total(amounts@) > 0xffff,
{
    let mut total: u16 = 0;
    let mut i: usize = 0;
    while i < amounts.len()
        invariant
            0 <= i <= amounts.len(),
            total == amounts_total(amounts@.take(i as int)),
        decreases amounts.len() - i,
    {
        proof {
            assert(amounts@.take(i + 1).drop_last() =~= amounts@.take(i as int));
        }
        if amounts[i].1 > 0xffff - total {
            proof {
                lemma_total_grows(amounts@, i + 1);
            }
            return None;
        }
        total = total + amounts[i].1;
        i = i + 1;
    }
    proof {
        assert(amounts@.take(amounts.len() as int) =~= amounts@);
    }
    Some(total)
}

/// The amount given for `role`: the last entry for it, or 0.
pub fn amount_of(amounts: &Vec<(RoleId, u16)>, role: RoleId) -> (r: u16)
    ensures
        r == amount_for(amounts@, role),
{
    let mut r: u16 = 0;
    let mut i: usize = 0;
    while i < amounts.len()
        invariant
            0 <= i <= amounts.len(),
            r == amount_for(amounts@.take(i as int), role),
        decreases amounts.len() - i,
    {
        proof {
            assert(amounts@.take(i + 1).drop_last() =~= amounts@.take(i as int));
        }
        if amounts[i].0 == role {
            r = amounts[i].1;
        }
        i = i + 1;
    }
    proof {
        assert(amounts@.take(amounts.len() as int) =~= amounts@);
    }
    r
}

/// Adds a stage to every curve: at the total of the amounts, each role gets
/// its amount, 0 where none is given; every curve ends ordered by
/// participant total. Fails, changing nothing, where the
/// total does not fit 16 bits.
pub fn add_stage(jobs: &mut Vec<(RoleId, Job)>, amounts: &Vec<(RoleId, u16)>) -> (r: bool)
    ensures
        r == (amounts_total(amounts@) <= 0xffff),
        !r ==> final(jobs)@ == old(jobs)@,
        r ==> final(jobs).len() == old(jobs).len() && forall|i: int|
            0 <= i < old(jobs).len() ==> (#[trigger] final(jobs)[i]).0 == old(jobs)[i].0
                && final(jobs)[i].1.wf() && final(jobs)[i].1@.to_multiset() == with_point(
                old(jobs)[i].1@,
                amounts_total(amounts@) as u16,
                amount_for(amounts@, old(jobs)[i].0),
            ).to_multiset(),
{
    let total = match stage_total(amounts) {
        Some(t) => t,
        None => return false,
    };
    let ghost orig = jobs@;
    let mut out: Vec<(RoleId, Job)> = Vec::new();
    let ghost mut i: int = 0;
    while jobs.len() > 0
        invariant
            0 <= i <= orig.len(),
            jobs@ == orig.skip(i),
            out.len() == i,
            total == amounts_total(amounts@),
            forall|k: int|
                0 <= k < i ==> (#[trigger] out[k]).0 == orig[k].0 && out[k].1.wf() && out[k].1@.to_multiset()
                    == with_point(orig[k].1@, total, amount_for(amounts@, orig[k].0)).to_multiset(),
        decreases jobs.len(),
    {
        let ghost before = jobs@;
        proof {
            assert(before[0] == orig[i]);
        }
        let (role, mut job) = jobs.remove(0);
        proof {
            assert(jobs@ =~= orig.skip(i + 1));
        }
        let amount = amount_of(amounts, role);
        job.set_stage(total, amount);
        out.push((role, job));
        proof {
            i = i + 1;
        }
    }
    *jobs = out;
    true
}

/// Removes the stage at `total` from every curve.
pub fn remove_stage(jobs: &mut Vec<(RoleId, Job)>, total: u16)
    ensures
        final(jobs).len() == old(jobs).len(),
        forall|i: int|
            0 <= i < old(jobs).len() ==> (#[trigger] final(jobs)[i]).0 == old(jobs)[i].0
                && final(jobs)[i].1@ == without_point(old(jobs)[i].1@, total)
                && (old(jobs)[i].1.wf() ==> final(jobs)[i].1.wf()),
{
    let ghost orig = jobs@;
    let mut out: Vec<(RoleId, Job)> = Vec::new();
    let ghost mut i: int = 0;
    while jobs.len() > 0
        invariant
            0 <= i <= orig.len(),
            jobs@ == orig.skip(i),
            out.len() == i,
            forall|k: int|
                0 <= k < i ==> (#[trigger] out[k]).0 == orig[k].0 && out[k].1@ == without_point(orig[k].1@, total)
                    && (orig[k].1.wf() ==> out[k].1.wf()),
        decreases jobs.len(),
    {
        let ghost before = jobs@;
        proof {
            assert(before[0] == orig[i]);
        }
        let (role, mut job) = jobs.remove(0);
        proof {
            assert(jobs@ =~= orig.skip(i + 1));
        }
        job.remove_stage(total);
        out.push((role, job));
        proof {
            i = i + 1;
        }
    }
    *jobs = out;
}

} // verus!
