//! Threshold policy: every role has a floor, a ceiling and a weight; the
//! participants above all floors are shared out by weight, up to the ceilings.
use crate::apportion::{
    counts_view, extra_seats, largest_remainder, lemma_extra_seats_bound, lemma_extra_seats_distinct,
    lemma_extra_seats_sum, lemma_extra_seats_zero, rems_view, some_eligible,
};
use crate::sums::{
    add_seqs, lemma_elem_le_sum, lemma_sum_add, lemma_sum_le, lemma_sum_nonneg, lemma_sum_prefix_le,
    lemma_sum_scale, lemma_sum_take, lemma_sum_zeros, sum,
};
use crate::ids::RoleId;
use crate::quota::{quota_view, Infeasible};
use vstd::prelude::*;

verus! {

/// A role under the threshold policy.
#[derive(Clone, Copy, Debug, PartialEq, Eq, Structural)]
pub struct Limits {
    /// Seats that must be filled.
    pub minimum: u32,
    /// Seats that are never exceeded.
    pub maximum: u32,
    /// Relative share of the participants beyond all minimums.
    pub weight: u32,
}

impl Limits {
    pub open spec fn wf(self) -> bool {
        self.minimum <= self.maximum
    }

    /// Room above the minimum.
    pub open spec fn room(self) -> int {
        self.maximum - self.minimum
    }
}

pub open spec fn limits_of(t: Seq<(RoleId, Limits)>) -> Seq<Limits> {
    t.map(|i: int, e: (RoleId, Limits)| e.1)
}

pub open spec fn minimums(t: Seq<Limits>) -> Seq<int> {
    t.map(|i: int, l: Limits| l.minimum as int)
}

pub open spec fn count_true(g: Seq<bool>) -> int
    decreases g.len(),
{
    if g.len() == 0 {
        0
    } else {
        count_true(g.drop_last()) + if g.last() { 1int } else { 0int }
    }
}

pub open spec fn maximums(t: Seq<Limits>) -> Seq<int> {
    t.map(|i: int, l: Limits| l.maximum as int)
}

/// Roles that can still grow: those below their maximum.
pub open spec fn open_roles(t: Seq<Limits>) -> Seq<bool> {
    t.map(|i: int, l: Limits| l.minimum < l.maximum)
}

/// Configured weight of the growable roles.
pub open spec fn raw_weights(t: Seq<Limits>, g: Seq<bool>) -> Seq<int> {
    Seq::new(t.len(), |i: int| if g[i] { t[i].weight as int } else { 0 })
}

/// Weight of each growable role; where all of them weigh nothing they share
/// alike.
pub open spec fn weights(t: Seq<Limits>, g: Seq<bool>) -> Seq<int> {
    if sum(raw_weights(t, g)) == 0 {
        Seq::new(t.len(), |i: int| if g[i] { 1int } else { 0 })
    } else {
        raw_weights(t, g)
    }
}

/// Growable roles whose share of `pool` exceeds their room.
pub open spec fn over_room(t: Seq<Limits>, g: Seq<bool>, pool: int) -> Seq<bool> {
    Seq::new(
        t.len(),
        |i: int| g[i] && pool * weights(t, g)[i] > t[i].room() * sum(weights(t, g)),
    )
}

pub open spec fn without(g: Seq<bool>, c: Seq<bool>) -> Seq<bool> {
    Seq::new(g.len(), |i: int| g[i] && !c[i])
}

/// Room of the roles in `c`, in all.
pub open spec fn room_of(t: Seq<Limits>, c: Seq<bool>) -> int {
    sum(Seq::new(t.len(), |i: int| if c[i] { t[i].room() } else { 0 }))
}

/// The proportional phase: roles whose share exceeds their room are filled to
/// their maximum and leave, and the rest of the pool is shared again, until
/// no share exceeds its room. Gives the roles still growable and the pool
/// that they share.
pub open spec fn settle(t: Seq<Limits>, g: Seq<bool>, pool: int) -> Result<(Seq<bool>, int), Infeasible>
    decreases count_true(g),
    via settle_decreases
{
    if t.len() != g.len() || pool <= 0 {
        Ok((g, pool))
    } else if !some_eligible(g) {
        Err(Infeasible::TooManyForMaximums)
    } else if !some_eligible(over_room(t, g, pool)) {
        Ok((g, pool))
    } else {
        let c = over_room(t, g, pool);
        settle(t, without(g, c), pool - room_of(t, c))
    }
}

proof fn lemma_count_without(g: Seq<bool>, c: Seq<bool>)
    requires
        g.len() == c.len(),
        forall|i: int| 0 <= i < g.len() && c[i] ==> g[i],
    ensures
        count_true(without(g, c)) + count_true(c) == count_true(g),
    decreases g.len(),
{
    if g.len() > 0 {
        assert(without(g, c).drop_last() =~= without(g.drop_last(), c.drop_last()));
        lemma_count_without(g.drop_last(), c.drop_last());
    }
}

proof fn lemma_count_pos(c: Seq<bool>)
    requires
        some_eligible(c),
    ensures
        count_true(c) > 0,
    decreases c.len(),
{
    lemma_count_nonneg(c.drop_last());
    if !c.last() {
        let w = choose|i: int| 0 <= i < c.len() && c[i];
        assert(c.drop_last()[w] == c[w]);
        lemma_count_pos(c.drop_last());
    }
}

proof fn lemma_count_nonneg(c: Seq<bool>)
    ensures
        count_true(c) >= 0,
    decreases c.len(),
{
    if c.len() > 0 {
        lemma_count_nonneg(c.drop_last());
    }
}

#[via_fn]
proof fn settle_decreases(t: Seq<Limits>, g: Seq<bool>, pool: int) {
    if t.len() == g.len() && pool > 0 && some_eligible(g) && some_eligible(over_room(t, g, pool)) {
        let c = over_room(t, g, pool);
        lemma_count_without(g, c);
        lemma_count_pos(c);
        lemma_count_nonneg(without(g, c));
    }
}

/// Denominator of the shares: the total weight, or 1 where nothing weighs.
pub open spec fn share_den(t: Seq<Limits>, g: Seq<bool>) -> int {
    if sum(weights(t, g)) > 0 {
        sum(weights(t, g))
    } else {
        1
    }
}

/// Whole seats of each growable role out of `pool`.
pub open spec fn share_floors(t: Seq<Limits>, g: Seq<bool>, pool: int) -> Seq<int> {
    Seq::new(t.len(), |i: int| if g[i] { pool * weights(t, g)[i] / share_den(t, g) } else { 0 })
}

pub open spec fn share_rems(t: Seq<Limits>, g: Seq<bool>, pool: int) -> Seq<(int, int)> {
    Seq::new(
        t.len(),
        |i: int|
            if g[i] {
                (pool * weights(t, g)[i] % share_den(t, g), share_den(t, g))
            } else {
                (0, share_den(t, g))
            },
    )
}

/// The threshold quota for `p` participants.
pub open spec fn threshold_quota(t: Seq<Limits>, p: int) -> Result<Seq<int>, Infeasible> {
    if sum(minimums(t)) > p {
        Err(Infeasible::InsufficientForMinimums)
    } else {
        match settle(t, open_roles(t), p - sum(minimums(t))) {
            Err(e) => Err(e),
            Ok((g, pool)) => {
                let fl = share_floors(t, g, pool);
                let ex = extra_seats(share_rems(t, g, pool), g, (pool - sum(fl)) as nat);
                Ok(
                    Seq::new(
                        t.len(),
                        |i: int|
                            if g[i] {
                                t[i].minimum + fl[i] + ex[i]
                            } else {
                                t[i].maximum as int
                            },
                    ),
                )
            },
        }
    }
}


/// Seats shared alike among the growable roles.
pub open spec fn ones(g: Seq<bool>) -> Seq<int> {
    Seq::new(g.len(), |i: int| if g[i] { 1int } else { 0 })
}

proof fn lemma_weights(t: Seq<Limits>, g: Seq<bool>)
    requires
        t.len() == g.len(),
    ensures
        weights(t, g).len() == t.len(),
        forall|i: int| 0 <= i < t.len() ==> #[trigger] weights(t, g)[i] >= 0,
        forall|i: int| 0 <= i < t.len() && !g[i] ==> #[trigger] weights(t, g)[i] == 0,
        forall|i: int| 0 <= i < t.len() ==> #[trigger] weights(t, g)[i] <= 0xffff_ffff,
        sum(weights(t, g)) >= 0,
        some_eligible(g) ==> sum(weights(t, g)) > 0,
        forall|i: int| 0 <= i < t.len() ==> #[trigger] weights(t, g)[i] <= sum(weights(t, g)),
{
    let w = weights(t, g);
    assert forall|i: int| 0 <= i < t.len() implies #[trigger] w[i] <= sum(w) by {
        lemma_elem_le_sum(w, i);
    }
    lemma_sum_nonneg(w);
    if some_eligible(g) && sum(raw_weights(t, g)) == 0 {
        let z = Seq::new(t.len(), |i: int| 0int);
        let k = choose|i: int| 0 <= i < g.len() && g[i];
        assert(z[k] < w[k]);
        lemma_sum_le(z, w);
        lemma_sum_zeros(t.len());
    }
}

/// The roles filled up in a round have less room in all than the pool.
proof fn lemma_room_below_pool(t: Seq<Limits>, g: Seq<bool>, pool: int)
    requires
        t.len() == g.len(),
        pool > 0,
        some_eligible(g),
        some_eligible(over_room(t, g, pool)),
        forall|i: int| 0 <= i < t.len() ==> (#[trigger] t[i]).wf(),
    ensures
        0 <= room_of(t, over_room(t, g, pool)) < pool,
{
    let c = over_room(t, g, pool);
    let w = weights(t, g);
    let big_w = sum(w);
    lemma_weights(t, g);
    let rooms = Seq::new(t.len(), |i: int| if c[i] { t[i].room() } else { 0 });
    let wc = Seq::new(t.len(), |i: int| if c[i] { w[i] } else { 0 });
    let a = Seq::new(t.len(), |i: int| big_w * rooms[i]);
    let b = Seq::new(t.len(), |i: int| pool * wc[i]);
    assert forall|i: int| 0 <= i < t.len() implies a[i] <= b[i] by {
        if c[i] {
            assert(pool * w[i] > t[i].room() * big_w);
            assert(big_w * t[i].room() == t[i].room() * big_w) by (nonlinear_arith);
        }
    }
    let k = choose|i: int| 0 <= i < c.len() && c[i];
    assert(big_w * t[k].room() == t[k].room() * big_w) by (nonlinear_arith);
    assert(a[k] < b[k]);
    lemma_sum_le(a, b);
    lemma_sum_scale(rooms, big_w);
    lemma_sum_scale(wc, pool);
    assert(a =~= Seq::new(rooms.len(), |i: int| big_w * rooms[i]));
    assert(b =~= Seq::new(wc.len(), |i: int| pool * wc[i]));
    lemma_sum_le(wc, w);
    assert forall|i: int| 0 <= i < t.len() implies rooms[i] >= 0 by {}
    lemma_sum_nonneg(rooms);
    let ro = sum(rooms);
    let sw = sum(wc);
    assert(big_w * ro < pool * sw);
    assert(pool * sw <= pool * big_w) by (nonlinear_arith)
        requires pool > 0, sw <= big_w;
    assert(ro < pool) by (nonlinear_arith)
        requires big_w * ro < pool * big_w, big_w > 0;
}

/// Once no share exceeds its room, every whole share fits its role, and the
/// whole shares do not exceed the pool.
proof fn lemma_floors_fit(t: Seq<Limits>, g: Seq<bool>, pool: int)
    requires
        t.len() == g.len(),
        pool >= 0,
        pool > 0 ==> some_eligible(g) && !some_eligible(over_room(t, g, pool)),
        forall|i: int| 0 <= i < t.len() ==> (#[trigger] t[i]).wf(),
    ensures
        forall|i: int| 0 <= i < t.len() ==> 0 <= #[trigger] share_floors(t, g, pool)[i] <= t[i].room(),
        sum(share_floors(t, g, pool)) <= pool,
{
    let w = weights(t, g);
    let fl = share_floors(t, g, pool);
    let d = share_den(t, g);
    lemma_weights(t, g);
    if pool == 0 {
        assert forall|i: int| 0 <= i < t.len() implies #[trigger] fl[i] == 0 by {
            assert(0 * w[i] == 0);
        }
        let z = Seq::new(t.len(), |i: int| 0int);
        assert(fl =~= z);
        lemma_sum_zeros(t.len());
    } else {
        assert(d == sum(w));
        assert forall|i: int| 0 <= i < t.len() implies 0 <= #[trigger] fl[i] <= t[i].room() by {
            if g[i] {
                assert(pool * w[i] >= 0) by (nonlinear_arith)
                    requires pool >= 0, w[i] >= 0;
                let x = pool * w[i];
                assert(!over_room(t, g, pool)[i]);
                assert(x <= t[i].room() * d);
                assert(x / d <= t[i].room()) by (nonlinear_arith)
                    requires x <= t[i].room() * d, d > 0, x >= 0;
                assert(x / d >= 0) by (nonlinear_arith)
                    requires x >= 0, d > 0;
            }
        }
        let a = Seq::new(t.len(), |i: int| d * fl[i]);
        let b = Seq::new(t.len(), |i: int| pool * w[i]);
        assert forall|i: int| 0 <= i < t.len() implies a[i] <= b[i] by {
            if g[i] {
                assert(pool * w[i] >= 0) by (nonlinear_arith)
                    requires pool >= 0, w[i] >= 0;
                let x = pool * w[i];
                assert(d * (x / d) <= x) by (nonlinear_arith)
                    requires d > 0, x >= 0;
            } else {
                assert(d * 0 == 0);
            }
        }
        lemma_sum_le(a, b);
        lemma_sum_scale(fl, d);
        lemma_sum_scale(w, pool);
        assert(a =~= Seq::new(fl.len(), |i: int| d * fl[i]));
        assert(b =~= Seq::new(w.len(), |i: int| pool * w[i]));
        let sf = sum(fl);
        assert(sf <= pool) by (nonlinear_arith)
            requires d * sf <= pool * d, d > 0;
    }
}

/// Growth weight of each role and their total.
fn round_weights(specs: &Vec<(RoleId, Limits)>, g: &Vec<bool>) -> (r: (Vec<u64>, u64))
    requires
        specs.len() == g.len(),
        specs.len() <= 0xffff_ffff,
    ensures
        counts_view(r.0@) == weights(limits_of(specs@), g@),
        r.1 == sum(weights(limits_of(specs@), g@)),
{
    let ghost t = limits_of(specs@);
    let n = specs.len();
    let ghost rw = raw_weights(t, g@);
    let ghost on = ones(g@);
    let mut raw: u64 = 0;
    let mut cnt: u64 = 0;
    let mut i: usize = 0;
    while i < n
        invariant
            0 <= i <= n,
            n == specs.len() == g.len() == rw.len() == on.len(),
            n <= 0xffff_ffff,
            t == limits_of(specs@),
            rw == raw_weights(t, g@),
            on == ones(g@),
            raw == sum(rw.take(i as int)),
            cnt == sum(on.take(i as int)),
            raw <= i * 0xffff_ffff,
            cnt <= i,
        decreases n - i,
    {
        proof {
            lemma_sum_take(rw, i as int);
            lemma_sum_take(on, i as int);
        }
        if g[i] {
            raw = raw + specs[i].1.weight as u64;
            cnt = cnt + 1;
        }
        i = i + 1;
    }
    proof {
        assert(rw.take(n as int) =~= rw);
        assert(on.take(n as int) =~= on);
    }
    let mut ew: Vec<u64> = Vec::new();
    let mut j: usize = 0;
    while j < n
        invariant
            0 <= j <= n,
            n == specs.len() == g.len(),
            t == limits_of(specs@),
            raw == sum(raw_weights(t, g@)),
            ew.len() == j,
            forall|m: int| 0 <= m < j ==> #[trigger] ew[m] as int == weights(t, g@)[m],
        decreases n - j,
    {
        let x: u64 = if !g[j] {
            0
        } else if raw == 0 {
            1
        } else {
            specs[j].1.weight as u64
        };
        ew.push(x);
        j = j + 1;
    }
    proof {
        assert(counts_view(ew@) =~= weights(t, g@));
        if raw == 0 {
            assert(weights(t, g@) =~= on);
        }
    }
    if raw == 0 {
        (ew, cnt)
    } else {
        (ew, raw)
    }
}

/// Seats per role of a threshold table for `players` participants, in
/// table order.
pub fn plan_threshold(specs: &Vec<(RoleId, Limits)>, players: u64) -> (r: Result<Vec<u64>, Infeasible>)
    requires
        specs.len() <= 0xffff_ffff,
        forall|i: int| 0 <= i < specs.len() ==> (#[trigger] specs[i]).1.wf(),
    ensures
        quota_view(r) == threshold_quota(limits_of(specs@), players as int),
        r is Ok ==> sum(quota_view(r)->Ok_0) == players,
        r matches Ok(q) ==> forall|i: int|
            0 <= i < specs.len() ==> specs[i].1.minimum <= #[trigger] q[i] <= specs[i].1.maximum,
{
    let ghost t = limits_of(specs@);
    let n = specs.len();
    let ghost mins = minimums(t);
    let mut msum: u64 = 0;
    let mut i: usize = 0;
    while i < n
        invariant
            0 <= i <= n,
            n == specs.len() == mins.len(),
            n <= 0xffff_ffff,
            t == limits_of(specs@),
            mins == minimums(t),
            msum == sum(mins.take(i as int)),
            msum <= i * 0xffff_ffff,
        decreases n - i,
    {
        proof {
            lemma_sum_take(mins, i as int);
        }
        msum = msum + specs[i].1.minimum as u64;
        i = i + 1;
    }
    proof {
        assert(mins.take(n as int) =~= mins);
    }
    if msum > players {
        return Err(Infeasible::InsufficientForMinimums);
    }
    let mut g: Vec<bool> = Vec::new();
    let mut i: usize = 0;
    while i < n
        invariant
            0 <= i <= n,
            n == specs.len(),
            t == limits_of(specs@),
            g.len() == i,
            forall|m: int| 0 <= m < i ==> #[trigger] g[m] == open_roles(t)[m],
        decreases n - i,
    {
        g.push(specs[i].1.minimum < specs[i].1.maximum);
        i = i + 1;
    }
    proof {
        assert(g@ =~= open_roles(t));
    }
    let ghost pool0 = players - msum;
    let mut pool: u64 = players - msum;
    loop
        invariant
            n == specs.len() == g.len(),
            n <= 0xffff_ffff,
            t == limits_of(specs@),
            pool <= players,
            pool0 == players - sum(minimums(t)),
            forall|m: int| 0 <= m < n ==> (#[trigger] specs[m]).1.wf(),
            settle(t, g@, pool as int) == settle(t, open_roles(t), pool0),
        ensures
            n == g.len(),
            pool <= players,
            settle(t, g@, pool as int) == settle(t, open_roles(t), pool0),
            pool > 0 ==> some_eligible(g@) && !some_eligible(over_room(t, g@, pool as int)),
        decreases count_true(g@),
    {
        if pool == 0 {
            break;
        }
        let mut any = false;
        let mut i: usize = 0;
        while i < n
            invariant
                0 <= i <= n,
                n == g.len(),
                any == (exists|m: int| 0 <= m < i && g[m]),
            decreases n - i,
        {
            if g[i] {
                any = true;
            }
            i = i + 1;
        }
        if !any {
            return Err(Infeasible::TooManyForMaximums);
        }
        let (ew, total) = round_weights(specs, &g);
        proof {
            lemma_weights(t, g@);
            assert forall|m: int| 0 <= m < n implies #[trigger] ew[m] <= 0xffff_ffff by {
                assert(counts_view(ew@)[m] == weights(t, g@)[m]);
            }
        }
        let ghost c = over_room(t, g@, pool as int);
        let ghost rooms = Seq::new(t.len(), |m: int| if c[m] { t[m].room() } else { 0 });
        let mut cap: Vec<bool> = Vec::new();
        let mut rsum: u64 = 0;
        let mut anyc = false;
        let mut i: usize = 0;
        while i < n
            invariant
                0 <= i <= n,
                n == specs.len() == g.len() == ew.len() == rooms.len() == c.len(),
                n <= 0xffff_ffff,
                t == limits_of(specs@),
                c == over_room(t, g@, pool as int),
                rooms == Seq::new(t.len(), |m: int| if c[m] { t[m].room() } else { 0 }),
                counts_view(ew@) == weights(t, g@),
                total == sum(weights(t, g@)),
                forall|m: int| 0 <= m < n ==> (#[trigger] specs[m]).1.wf(),
                forall|m: int| 0 <= m < n ==> #[trigger] ew[m] <= 0xffff_ffff,
                cap.len() == i,
                forall|m: int| 0 <= m < i ==> #[trigger] cap[m] == c[m],
                rsum == sum(rooms.take(i as int)),
                rsum <= i * 0xffff_ffff,
                anyc == (exists|m: int| 0 <= m < i && c[m]),
            decreases n - i,
        {
            proof {
                lemma_sum_take(rooms, i as int);
                assert(ew[i as int] as int == weights(t, g@)[i as int]);
            }
            let l = specs[i].1;
            let room: u64 = (l.maximum - l.minimum) as u64;
            proof {
                assert(pool * ew[i as int] <= 0xffff_ffff_ffff_ffffu128 * 0xffff_ffffu128) by (nonlinear_arith)
                    requires pool <= 0xffff_ffff_ffff_ffffu64, ew[i as int] <= 0xffff_ffff;
                assert(room * total <= 0xffff_ffffu128 * 0xffff_ffff_ffff_ffffu128) by (nonlinear_arith)
                    requires room <= 0xffff_ffff, total <= 0xffff_ffff_ffff_ffffu64;
            }
            let over = g[i] && pool as u128 * ew[i] as u128 > room as u128 * total as u128;
            if over {
                rsum = rsum + room;
                anyc = true;
            }
            cap.push(over);
            i = i + 1;
        }
        proof {
            assert(rooms.take(n as int) =~= rooms);
            assert(cap@ =~= c);
        }
        if !anyc {
            proof {
                let w = choose|m: int| 0 <= m < n && g[m];
                assert(0 <= w < g@.len() && g@[w]);
            }
            break;
        }
        proof {
            lemma_room_below_pool(t, g@, pool as int);
        }
        let mut g2: Vec<bool> = Vec::new();
        let mut i: usize = 0;
        while i < n
            invariant
                0 <= i <= n,
                n == g.len() == cap.len(),
                g2.len() == i,
                forall|m: int| 0 <= m < i ==> #[trigger] g2[m] == (g[m] && !cap[m]),
            decreases n - i,
        {
            g2.push(g[i] && !cap[i]);
            i = i + 1;
        }
        proof {
            assert(g2@ =~= without(g@, c));
            lemma_count_without(g@, c);
            lemma_count_pos(c);
            lemma_count_nonneg(without(g@, c));
        }
        g = g2;
        pool = pool - rsum;
    }
    proof {
        lemma_floors_fit(t, g@, pool as int);
        lemma_weights(t, g@);
    }
    let (ew, total) = round_weights(specs, &g);
    proof {
        assert forall|m: int| 0 <= m < n implies #[trigger] ew[m] <= 0xffff_ffff by {
            assert(counts_view(ew@)[m] == weights(t, g@)[m]);
        }
    }
    let den: u64 = if total > 0 { total } else { 1 };
    let ghost fl = share_floors(t, g@, pool as int);
    let ghost sr = share_rems(t, g@, pool as int);
    let mut whole: Vec<u64> = Vec::new();
    let mut rems: Vec<(u64, u64)> = Vec::new();
    let mut fsum: u64 = 0;
    let mut i: usize = 0;
    while i < n
        invariant
            0 <= i <= n,
            n == specs.len() == g.len() == ew.len() == fl.len() == sr.len(),
            t == limits_of(specs@),
            counts_view(ew@) == weights(t, g@),
            den == share_den(t, g@),
            fl == share_floors(t, g@, pool as int),
            sr == share_rems(t, g@, pool as int),
            forall|m: int| 0 <= m < n ==> #[trigger] ew[m] <= 0xffff_ffff,
            forall|m: int| 0 <= m < n ==> 0 <= #[trigger] fl[m] <= t[m].room(),
            sum(fl) <= pool,
            whole.len() == i,
            rems.len() == i,
            forall|m: int| 0 <= m < i ==> #[trigger] whole[m] == fl[m],
            forall|m: int| 0 <= m < i ==> (#[trigger] rems[m].0 as int, rems[m].1 as int) == sr[m],
            forall|m: int| 0 <= m < i ==> #[trigger] rems[m].1 > 0,
            fsum == sum(fl.take(i as int)),
            fsum <= pool,
        decreases n - i,
    {
        proof {
            lemma_sum_take(fl, i as int);
            lemma_sum_prefix_le(fl, i as int + 1);
            assert(ew[i as int] as int == weights(t, g@)[i as int]);
            assert(pool * ew[i as int] <= 0xffff_ffff_ffff_ffffu128 * 0xffff_ffffu128) by (nonlinear_arith)
                requires pool <= 0xffff_ffff_ffff_ffffu64, ew[i as int] <= 0xffff_ffff;
        }
        let x: u128 = pool as u128 * ew[i] as u128;
        if g[i] {
            let w = (x / den as u128) as u64;
            whole.push(w);
            fsum = fsum + w;
            rems.push(((x % den as u128) as u64, den));
        } else {
            whole.push(0);
            rems.push((0, den));
        }
        i = i + 1;
    }
    proof {
        assert(fl.take(n as int) =~= fl);
        assert(rems_view(rems@) =~= sr);
    }
    let extra = largest_remainder(&rems, &g, pool - fsum);
    let ghost ex = extra_seats(sr, g@, (pool - fsum) as nat);
    proof {
        lemma_extra_seats_bound(sr, g@, (pool - fsum) as nat);
    }
    proof {
        assert(threshold_quota(t, players as int) is Ok);
        lemma_threshold_quota_bounds(t, players as int);
        assert forall|m: int| 0 <= m < n && g[m] implies t[m].minimum + fl[m] + ex[m] <= t[m].maximum by {
            assert(threshold_quota(t, players as int)->Ok_0[m] == t[m].minimum + fl[m] + ex[m]);
        }
    }
    let mut q: Vec<u64> = Vec::new();
    let mut i: usize = 0;
    while i < n
        invariant
            0 <= i <= n,
            forall|m: int| 0 <= m < n && g[m] ==> t[m].minimum + fl[m] + ex[m] <= t[m].maximum,
            forall|m: int| 0 <= m < n ==> (#[trigger] t[m]).maximum == specs[m].1.maximum,
            n == specs.len() == g.len() == whole.len() == extra.len() == fl.len() == ex.len(),
            t == limits_of(specs@),
            counts_view(extra@) == ex,
            forall|m: int| 0 <= m < n ==> 0 <= #[trigger] ex[m] <= pool - fsum,
            forall|m: int| 0 <= m < n ==> #[trigger] whole[m] == fl[m],
            forall|m: int| 0 <= m < n ==> 0 <= #[trigger] fl[m] <= t[m].room(),
            q.len() == i,
            forall|m: int| 0 <= m < i ==> #[trigger] q[m] == if g[m] {
                t[m].minimum + fl[m] + ex[m]
            } else {
                t[m].maximum as int
            },
        decreases n - i,
    {
        assert(ex[i as int] == extra[i as int] as int);
        let l = specs[i].1;
        if g[i] {
            q.push(l.minimum as u64 + whole[i] + extra[i]);
        } else {
            q.push(l.maximum as u64);
        }
        i = i + 1;
    }
    proof {
        assert(q@.map(|i: int, x: u64| x as int) =~= threshold_quota(t, players as int)->Ok_0);
        lemma_threshold_quota_sum(t, players as int);
        lemma_threshold_quota_bounds(t, players as int);
        assert forall|i: int| 0 <= i < specs.len() implies specs[i].1.minimum <= #[trigger] q[i] <= specs[i].1.maximum by {
            assert(q@.map(|i: int, x: u64| x as int)[i] == q[i]);
        }
    }
    Ok(q)
}


/// Seats that a role holds without its share: its minimum while it may
/// grow, its maximum once full.
pub open spec fn base_seats(t: Seq<Limits>, g: Seq<bool>) -> Seq<int> {
    Seq::new(t.len(), |i: int| if g[i] { t[i].minimum as int } else { t[i].maximum as int })
}

/// What the proportional phase keeps: the seats held plus the pool, and
/// once it ends the pool either is empty or fits the growable roles.
pub proof fn lemma_settle(t: Seq<Limits>, g: Seq<bool>, pool: int)
    requires
        t.len() == g.len(),
        pool >= 0,
        forall|i: int| 0 <= i < t.len() ==> (#[trigger] t[i]).wf(),
    ensures
        settle(t, g, pool) matches Ok((g1, pool1)) ==> {
            &&& g1.len() == g.len()
            &&& pool1 >= 0
            &&& sum(base_seats(t, g1)) + pool1 == sum(base_seats(t, g)) + pool
            &&& pool1 > 0 ==> some_eligible(g1) && !some_eligible(over_room(t, g1, pool1))
        },
        settle(t, g, pool) matches Err(e) ==> e == Infeasible::TooManyForMaximums
            && sum(base_seats(t, g)) + pool > sum(maximums(t)),
    decreases count_true(g),
{
    if pool > 0 && !some_eligible(g) {
        assert(base_seats(t, g) =~= maximums(t));
    }
    if pool > 0 && some_eligible(g) && some_eligible(over_room(t, g, pool)) {
        let c = over_room(t, g, pool);
        let g2 = without(g, c);
        lemma_room_below_pool(t, g, pool);
        lemma_count_without(g, c);
        lemma_count_pos(c);
        lemma_count_nonneg(g2);
        lemma_settle(t, g2, pool - room_of(t, c));
        let rooms = Seq::new(t.len(), |i: int| if c[i] { t[i].room() } else { 0 });
        assert(base_seats(t, g2) =~= add_seqs(base_seats(t, g), rooms));
        lemma_sum_add(base_seats(t, g), rooms);
    }
}

/// Under the threshold policy the quota, where there is one, places exactly
/// the `p` participants.
pub proof fn lemma_threshold_quota_sum(t: Seq<Limits>, p: int)
    requires
        forall|i: int| 0 <= i < t.len() ==> (#[trigger] t[i]).wf(),
        threshold_quota(t, p) is Ok,
    ensures
        sum(threshold_quota(t, p)->Ok_0) == p,
{
    let g0 = open_roles(t);
    let pool0 = p - sum(minimums(t));
    lemma_settle(t, g0, pool0);
    assert(base_seats(t, g0) =~= minimums(t));
    let (g, pool) = settle(t, g0, pool0)->Ok_0;
    lemma_floors_fit(t, g, pool);
    let fl = share_floors(t, g, pool);
    let sr = share_rems(t, g, pool);
    let k = (pool - sum(fl)) as nat;
    let ex = extra_seats(sr, g, k);
    if some_eligible(g) {
        lemma_extra_seats_sum(sr, g, k);
    } else {
        assert forall|i: int| 0 <= i < t.len() implies #[trigger] fl[i] == 0 by {}
        assert(fl =~= Seq::new(t.len(), |i: int| 0int));
        lemma_sum_zeros(t.len());
        lemma_extra_seats_zero(sr, g);
    }
    let q = threshold_quota(t, p)->Ok_0;
    let ex_g = Seq::new(t.len(), |i: int| if g[i] { ex[i] } else { 0 });
    assert(ex_g =~= ex) by {
        if !some_eligible(g) {
            lemma_extra_seats_bound(sr, g, k);
            assert forall|i: int| 0 <= i < t.len() implies ex[i] == 0 by {
                assert(ex[i] <= k);
            }
        }
    }
    assert(q =~= add_seqs(add_seqs(base_seats(t, g), fl), ex));
    lemma_sum_add(base_seats(t, g), fl);
    lemma_sum_add(add_seqs(base_seats(t, g), fl), ex);
}


/// Under the threshold policy every role's quota lies between its minimum
/// and its maximum.
pub proof fn lemma_threshold_quota_bounds(t: Seq<Limits>, p: int)
    requires
        forall|i: int| 0 <= i < t.len() ==> (#[trigger] t[i]).wf(),
        threshold_quota(t, p) is Ok,
    ensures
        forall|i: int|
            0 <= i < t.len() ==> t[i].minimum <= #[trigger] threshold_quota(t, p)->Ok_0[i] <= t[i].maximum,
{
    let g0 = open_roles(t);
    let pool0 = p - sum(minimums(t));
    lemma_settle(t, g0, pool0);
    let (g, pool) = settle(t, g0, pool0)->Ok_0;
    lemma_floors_fit(t, g, pool);
    lemma_weights(t, g);
    let n = t.len();
    let w = weights(t, g);
    let fl = share_floors(t, g, pool);
    let sr = share_rems(t, g, pool);
    let k = (pool - sum(fl)) as nat;
    let ex = extra_seats(sr, g, k);
    let q = threshold_quota(t, p)->Ok_0;
    lemma_extra_seats_bound(sr, g, k);
    if pool == 0 {
        assert forall|i: int| 0 <= i < n implies #[trigger] fl[i] == 0 by {
            assert(0 * w[i] == 0);
        }
        assert(fl =~= Seq::new(n, |i: int| 0int));
        lemma_sum_zeros(n);
        assert forall|i: int| 0 <= i < n implies t[i].minimum <= #[trigger] q[i] <= t[i].maximum by {}
    } else {
        let d = sum(w);
        assert(share_den(t, g) == d);
        let share = Seq::new(n, |i: int| pool * w[i]);
        let dfl = Seq::new(n, |i: int| d * fl[i]);
        let rem = Seq::new(n, |i: int| sr[i].0);
        assert forall|i: int| 0 <= i < n implies share[i] == dfl[i] + rem[i] && 0 <= rem[i] < d by {
            assert(pool * w[i] >= 0) by (nonlinear_arith)
                requires pool >= 0, w[i] >= 0;
            let x = pool * w[i];
            if g[i] {
                assert(x == d * (x / d) + x % d && 0 <= x % d < d) by (nonlinear_arith)
                    requires d > 0, x >= 0;
            } else {
                assert(d * 0 == 0);
                assert(pool * 0 == 0);
            }
        }
        assert(share =~= add_seqs(dfl, rem));
        lemma_sum_add(dfl, rem);
        lemma_sum_scale(w, pool);
        assert(share =~= Seq::new(w.len(), |i: int| pool * w[i]));
        lemma_sum_scale(fl, d);
        assert(dfl =~= Seq::new(fl.len(), |i: int| d * fl[i]));
        let ind = Seq::new(n, |i: int| if g[i] && sr[i].0 > 0 { 1int } else { 0 });
        let bound = Seq::new(n, |i: int| d * ind[i]);
        assert forall|i: int| 0 <= i < n implies rem[i] <= bound[i] by {
            if ind[i] == 1 {
                assert(d * 1 == d);
            } else {
                assert(d * 0 == 0);
            }
        }
        lemma_sum_le(rem, bound);
        lemma_sum_scale(ind, d);
        assert(bound =~= Seq::new(ind.len(), |i: int| d * ind[i]));
        let pp = sum(ind);
        assert(d * k <= d * pp) by (nonlinear_arith)
            requires sum(rem) == pool * d - d * sum(fl), sum(rem) <= d * pp, k == pool - sum(fl);
        assert(k <= pp) by (nonlinear_arith)
            requires d * k <= d * pp, d > 0;
        assert(ind =~= Seq::new(sr.len(), |i: int| if g[i] && sr[i].0 > 0 { 1int } else { 0 }));
        assert forall|i: int| 0 <= i < n implies (#[trigger] sr[i]).0 >= 0 && sr[i].1 > 0 by {}
        lemma_extra_seats_distinct(sr, g, k);
        assert forall|i: int| 0 <= i < n implies t[i].minimum <= #[trigger] q[i] <= t[i].maximum by {
            if g[i] {
                assert(ex[i] <= 1);
                if ex[i] == 1 {
                    assert(sr[i].0 > 0);
                    assert(!over_room(t, g, pool)[i]);
                    let x = pool * w[i];
                    assert(share[i] == dfl[i] + rem[i]);
                    assert(x <= t[i].room() * d);
                    assert(fl[i] + 1 <= t[i].room()) by (nonlinear_arith)
                        requires x == d * fl[i] + sr[i].0, sr[i].0 > 0, x <= t[i].room() * d, d > 0;
                }
            }
        }
    }
}

/// With the minimums met, the threshold policy fails for want of room
/// exactly when the participants outnumber the maximums in all.
pub proof fn lemma_threshold_too_many(t: Seq<Limits>, p: int)
    requires
        forall|i: int| 0 <= i < t.len() ==> (#[trigger] t[i]).wf(),
        sum(minimums(t)) <= p,
    ensures
        threshold_quota(t, p) == Err::<Seq<int>, Infeasible>(Infeasible::TooManyForMaximums) <==> p > sum(maximums(t)),
        threshold_quota(t, p) is Err ==> threshold_quota(t, p) == Err::<Seq<int>, Infeasible>(Infeasible::TooManyForMaximums),
{
    let g0 = open_roles(t);
    let pool0 = p - sum(minimums(t));
    lemma_settle(t, g0, pool0);
    assert(base_seats(t, g0) =~= minimums(t));
    if threshold_quota(t, p) is Ok {
        lemma_threshold_quota_sum(t, p);
        lemma_threshold_quota_bounds(t, p);
        let q = threshold_quota(t, p)->Ok_0;
        assert(q.len() == t.len());
        lemma_sum_le(q, maximums(t));
    }
}

/// The threshold policy fails for want of participants exactly when the
/// minimums in all exceed them.
pub proof fn lemma_threshold_too_few(t: Seq<Limits>, p: int)
    requires
        forall|i: int| 0 <= i < t.len() ==> (#[trigger] t[i]).wf(),
    ensures
        threshold_quota(t, p) == Err::<Seq<int>, Infeasible>(Infeasible::InsufficientForMinimums) <==> sum(minimums(t)) > p,
{
    if sum(minimums(t)) <= p {
        lemma_settle(t, open_roles(t), p - sum(minimums(t)));
    }
}

} // verus!
