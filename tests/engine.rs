use indexmap::IndexMap;
use roleroll::apportion::largest_remainder;
use roleroll::assign::{assign, place_drawn, scarcest_pool, scarcest_role};
use roleroll::curve::Job;
use roleroll::ids::{RoleId, UserId};
use roleroll::pairing::{decide_pairings, RoleTable};
use roleroll::participants::{
    remove_excluded, remove_irrelevant_qualifications, restrict_qualifications, simulate_roles,
};
use roleroll::quota::{plan_curve, Infeasible};
use roleroll::threshold::{plan_threshold, Limits};

fn job(points: &[(u16, u16)]) -> Job {
    let mut map = IndexMap::new();
    for (k, v) in points {
        map.insert(*k, *v);
    }
    Job { points: map }
}

fn limits(minimum: u32, maximum: u32, weight: u32) -> Limits {
    Limits { minimum, maximum, weight }
}

fn users(spec: &[(u64, &[u64])]) -> Vec<(UserId, Vec<RoleId>)> {
    spec.iter()
        .map(|(u, rs)| (UserId(*u), rs.iter().map(|r| RoleId(*r)).collect()))
        .collect()
}

/// Checks that an allocation places every participant once, in a role it is
/// eligible for, with list lengths equal to the quota.
fn check_allocation(
    a: &[(RoleId, Vec<UserId>)],
    roles: &[RoleId],
    quota: &[u64],
    people: &[(UserId, Vec<RoleId>)],
) {
    assert_eq!(a.len(), roles.len());
    let mut seen: Vec<UserId> = Vec::new();
    for (k, (role, list)) in a.iter().enumerate() {
        assert_eq!(*role, roles[k]);
        assert_eq!(list.len() as u64, quota[k]);
        for u in list {
            let entry = people.iter().find(|(id, _)| id == u).unwrap();
            assert!(entry.1.contains(role));
            assert!(!seen.contains(u));
            seen.push(*u);
        }
    }
    assert_eq!(seen.len(), people.len());
}

#[test]
fn interpolation_between_points() {
    let mut j = job(&[(10, 2), (20, 4)]);
    let t = j.interpolate(15);
    assert!(t.den > 0);
    assert_eq!(t.num, 3 * t.den);
}

#[test]
fn interpolation_exact_point() {
    let mut j = job(&[(20, 4), (10, 2)]);
    let t = j.interpolate(20);
    assert_eq!((t.num, t.den), (4, 1));
}

#[test]
fn interpolation_below_all_points_runs_through_origin() {
    let mut j = job(&[(10, 2), (20, 4)]);
    let t = j.interpolate(5);
    assert_eq!((t.num, t.den), (10, 10));
}

#[test]
fn interpolation_above_all_points_runs_through_origin() {
    let mut j = job(&[(10, 3)]);
    let t = j.interpolate(25);
    assert_eq!((t.num, t.den), (75, 10));
}

#[test]
fn interpolation_decreasing_curve() {
    let mut j = job(&[(10, 6), (20, 2)]);
    let t = j.interpolate(13);
    // 6 + 3 * (2 - 6) / 10 = 4.8
    assert_eq!((t.num, t.den), (48, 10));
}

#[test]
fn interpolation_without_points_is_zero() {
    let mut j = Job::new();
    let t = j.interpolate(7);
    assert_eq!(t.num, 0);
    assert!(t.den > 0);
}

#[test]
fn interpolation_lone_point_at_zero() {
    let mut j = job(&[(0, 2)]);
    let t = j.interpolate(9);
    assert_eq!((t.num, t.den), (2, 1));
}

#[test]
fn largest_remainder_hands_out_by_size_then_order() {
    let rems = vec![(1u64, 4u64), (3, 4), (1, 2), (3, 4)];
    let elig = vec![true, true, true, true];
    assert_eq!(largest_remainder(&rems, &elig, 2), vec![0, 1, 0, 1]);
    assert_eq!(largest_remainder(&rems, &elig, 3), vec![0, 1, 1, 1]);
}

#[test]
fn largest_remainder_skips_ineligible_and_repeats_first() {
    let rems = vec![(9u64, 10u64), (0, 1), (1, 3)];
    let elig = vec![false, true, true];
    // after the share with a remainder, all remainders are cleared: the
    // first eligible share takes the rest
    assert_eq!(largest_remainder(&rems, &elig, 3), vec![0, 2, 1]);
}

#[test]
fn curve_quota_sums_to_participants() {
    let jobs = vec![
        (RoleId(1), job(&[(10, 2), (20, 4)])),
        (RoleId(2), job(&[(10, 8), (20, 16)])),
    ];
    let q = plan_curve(&jobs, 15).unwrap();
    assert_eq!(q, vec![3, 12]);
    assert_eq!(q.iter().sum::<u64>(), 15);
}

#[test]
fn curve_quota_gives_missing_seats_by_remainder() {
    // targets 7 * 1/3 = 2.33 and 7 * 2/3 = 4.67 from points (3, 1) and (3, 2)
    let jobs = vec![(RoleId(1), job(&[(3, 1)])), (RoleId(2), job(&[(3, 2)]))];
    assert_eq!(plan_curve(&jobs, 7).unwrap(), vec![2, 5]);
}

#[test]
fn curve_quota_zero_participants() {
    let jobs = vec![(RoleId(1), job(&[(10, 2)])), (RoleId(2), job(&[(10, 8)]))];
    assert_eq!(plan_curve(&jobs, 0).unwrap(), vec![0, 0]);
}

#[test]
fn curve_quota_role_without_points_gets_nothing() {
    let jobs = vec![(RoleId(1), Job::new()), (RoleId(2), job(&[(4, 1)]))];
    assert_eq!(plan_curve(&jobs, 6).unwrap(), vec![0, 6]);
}

#[test]
fn curve_quota_demanding_too_much() {
    let jobs = vec![(RoleId(1), job(&[(2, 5)]))];
    assert_eq!(plan_curve(&jobs, 2), Err(Infeasible::InsufficientForMinimums));
}

#[test]
fn curve_quota_without_any_points() {
    let jobs = vec![(RoleId(1), Job::new())];
    assert_eq!(plan_curve(&jobs, 3), Err(Infeasible::TooManyForMaximums));
}

#[test]
fn threshold_minimums_infeasible() {
    let specs = vec![(RoleId(1), limits(3, 10, 1)), (RoleId(2), limits(3, 10, 1))];
    assert_eq!(plan_threshold(&specs, 5), Err(Infeasible::InsufficientForMinimums));
}

#[test]
fn threshold_maximums_infeasible() {
    let specs = vec![(RoleId(1), limits(0, 2, 1)), (RoleId(2), limits(0, 2, 1))];
    assert_eq!(plan_threshold(&specs, 5), Err(Infeasible::TooManyForMaximums));
}

#[test]
fn threshold_proportional_split() {
    let specs = vec![(RoleId(1), limits(1, 10, 1)), (RoleId(2), limits(1, 10, 3))];
    // 8 beyond the minimums, shared 1 : 3
    assert_eq!(plan_threshold(&specs, 10).unwrap(), vec![3, 7]);
}

#[test]
fn threshold_capped_role_returns_excess() {
    let specs = vec![
        (RoleId(1), limits(0, 1, 1)),
        (RoleId(2), limits(0, 100, 1)),
        (RoleId(3), limits(0, 100, 2)),
    ];
    // 10 shared 1 : 1 : 2 caps the first at 1; 9 left shared 1 : 2
    assert_eq!(plan_threshold(&specs, 10).unwrap(), vec![1, 3, 6]);
}

#[test]
fn threshold_remainder_seats() {
    let specs = vec![
        (RoleId(1), limits(0, 10, 1)),
        (RoleId(2), limits(0, 10, 1)),
        (RoleId(3), limits(0, 10, 1)),
    ];
    // 3.33 each: the one seat left goes to the first
    assert_eq!(plan_threshold(&specs, 10).unwrap(), vec![4, 3, 3]);
}

#[test]
fn threshold_weightless_roles_share_alike() {
    let specs = vec![(RoleId(1), limits(0, 10, 0)), (RoleId(2), limits(0, 10, 0))];
    assert_eq!(plan_threshold(&specs, 4).unwrap(), vec![2, 2]);
}

#[test]
fn threshold_bounds_and_sum() {
    let specs = vec![
        (RoleId(1), limits(2, 3, 5)),
        (RoleId(2), limits(1, 4, 1)),
        (RoleId(3), limits(0, 9, 2)),
        (RoleId(4), limits(1, 1, 7)),
    ];
    for players in 4..=17u64 {
        let q = plan_threshold(&specs, players).unwrap();
        assert_eq!(q.iter().sum::<u64>(), players as u64);
        for (k, (_, l)) in specs.iter().enumerate() {
            assert!(l.minimum as u64 <= q[k] && q[k] <= l.maximum as u64);
        }
    }
    assert_eq!(plan_threshold(&specs, 18), Err(Infeasible::TooManyForMaximums));
    assert_eq!(plan_threshold(&specs, 3), Err(Infeasible::InsufficientForMinimums));
}

#[test]
fn planning_is_repeatable() {
    let specs = vec![(RoleId(1), limits(1, 5, 2)), (RoleId(2), limits(0, 6, 3))];
    assert_eq!(plan_threshold(&specs, 8), plan_threshold(&specs, 8));
    let jobs = vec![(RoleId(1), job(&[(10, 3), (20, 5)])), (RoleId(2), job(&[(10, 7)]))];
    assert_eq!(plan_curve(&jobs, 13), plan_curve(&jobs, 13));
}

#[test]
fn scarcest_role_prefers_fewest_candidates() {
    assert_eq!(scarcest_role(&vec![1, 2, 1], &vec![3, 1, 1]), Some(1));
    assert_eq!(scarcest_role(&vec![1, 0, 1], &vec![3, 1, 2]), Some(2));
    assert_eq!(scarcest_role(&vec![0, 0], &vec![3, 1]), None);
}

#[test]
fn starvation_names_the_role() {
    let table = RoleTable::Threshold(vec![(RoleId(1), limits(1, 1, 1)), (RoleId(2), limits(1, 1, 1))]);
    let people = users(&[(1, &[1]), (2, &[1])]);
    assert_eq!(decide_pairings(&table, &people), Err(Infeasible::NoEligibleCandidate(RoleId(2))));
}

#[test]
fn assignment_respects_eligibility_and_quota() {
    let roles = vec![RoleId(1), RoleId(2), RoleId(3)];
    let quota = vec![2u64, 1, 2];
    let people = users(&[(10, &[1, 2]), (11, &[1]), (12, &[2, 3]), (13, &[3]), (14, &[3, 1])]);
    for _ in 0..50 {
        if let Ok(a) = assign(&roles, &quota, &people) {
            check_allocation(&a, &roles, &quota, &people);
        }
    }
}

#[test]
fn assignment_with_a_single_way_succeeds() {
    let roles = vec![RoleId(1), RoleId(2)];
    let quota = vec![1u64, 2];
    let people = users(&[(1, &[1]), (2, &[2]), (3, &[2])]);
    for _ in 0..20 {
        let a = assign(&roles, &quota, &people).unwrap();
        check_allocation(&a, &roles, &quota, &people);
        assert_eq!(a[0].1, vec![UserId(1)]);
    }
}

#[test]
fn decide_pairings_curve_table() {
    let table = RoleTable::Curve(vec![
        (RoleId(1), job(&[(4, 1), (8, 2)])),
        (RoleId(2), job(&[(4, 3), (8, 6)])),
    ]);
    let people = simulate_roles(&table, 8);
    let a = decide_pairings(&table, &people).unwrap();
    check_allocation(&a, &[RoleId(1), RoleId(2)], &[2, 6], &people);
}

#[test]
fn decide_pairings_threshold_table() {
    let table = RoleTable::Threshold(vec![(RoleId(5), limits(1, 2, 1)), (RoleId(6), limits(0, 4, 1))]);
    let people = users(&[(1, &[5, 6]), (2, &[6]), (3, &[5, 6]), (4, &[6])]);
    let a = decide_pairings(&table, &people).unwrap();
    check_allocation(&a, &[RoleId(5), RoleId(6)], &[2, 2], &people);
}

#[test]
fn decide_pairings_no_players() {
    let table = RoleTable::Threshold(vec![(RoleId(5), limits(0, 2, 1))]);
    let a = decide_pairings(&table, &Vec::new()).unwrap();
    assert_eq!(a, vec![(RoleId(5), Vec::new())]);
}

#[test]
fn excluded_participants_leave() {
    let mut people = users(&[(1, &[1, 9]), (2, &[1]), (3, &[9])]);
    remove_excluded(&mut people, Some(RoleId(9)));
    assert_eq!(people, users(&[(2, &[1])]));
    let mut people = users(&[(1, &[1, 9])]);
    remove_excluded(&mut people, None);
    assert_eq!(people, users(&[(1, &[1, 9])]));
}

#[test]
fn irrelevant_qualifications_are_dropped() {
    let table = RoleTable::Threshold(vec![(RoleId(1), limits(0, 2, 1)), (RoleId(2), limits(0, 2, 1))]);
    let mut people = users(&[(1, &[1, 7]), (2, &[8]), (3, &[2, 1])]);
    remove_irrelevant_qualifications(&mut people, &table);
    assert_eq!(people, users(&[(1, &[1]), (3, &[2, 1])]));
}

#[test]
fn simulated_players_qualify_for_everything() {
    let table = RoleTable::Curve(vec![(RoleId(3), Job::new()), (RoleId(4), Job::new())]);
    let people = simulate_roles(&table, 3);
    assert_eq!(people, users(&[(0, &[3, 4]), (1, &[3, 4]), (2, &[3, 4])]));
}

#[test]
fn role_short_of_candidates_never_allocates() {
    let roles = vec![RoleId(1), RoleId(2)];
    let quota = vec![2u64, 1];
    // only one participant is eligible for the first role
    let people = users(&[(1, &[1, 2]), (2, &[2]), (3, &[2])]);
    for _ in 0..20 {
        assert!(assign(&roles, &quota, &people).is_err());
    }
}

#[test]
fn scarcest_pool_lists_free_candidates() {
    let roles = vec![RoleId(1), RoleId(2)];
    let people = users(&[(7, &[1]), (8, &[1, 2]), (9, &[1])]);
    // every participant unassigned: the second role has one candidate
    assert_eq!(scarcest_pool(&roles, &people, &vec![2, 2, 2], &vec![1, 1]), Some((1, vec![1])));
    // with the shared participant placed, the second role has none left
    assert_eq!(scarcest_pool(&roles, &people, &vec![2, 0, 2], &vec![1, 1]), Some((1, vec![])));
    // only the first role still needs seats
    assert_eq!(scarcest_pool(&roles, &people, &vec![2, 1, 2], &vec![2, 0]), Some((0, vec![0, 2])));
    assert_eq!(scarcest_pool(&roles, &people, &vec![0, 1, 0], &vec![0, 0]), None);
}

#[test]
fn place_drawn_moves_one_participant() {
    let mut slot = vec![2usize, 2, 2];
    let mut needed = vec![1u64, 2];
    place_drawn(&mut slot, &mut needed, 1, &vec![0, 2], 1);
    assert_eq!(slot, vec![2, 2, 1]);
    assert_eq!(needed, vec![1, 1]);
}

#[test]
fn simulation_with_everyone_eligible_succeeds() {
    let table = RoleTable::Threshold(vec![
        (RoleId(1), limits(1, 3, 2)),
        (RoleId(2), limits(0, 5, 1)),
        (RoleId(3), limits(2, 2, 1)),
    ]);
    for count in 3..=10u32 {
        let people = simulate_roles(&table, count);
        let a = decide_pairings(&table, &people).unwrap();
        let total: usize = a.iter().map(|(_, l)| l.len()).sum();
        assert_eq!(total, count as usize);
    }
}

#[test]
fn decide_pairings_passes_planning_errors() {
    let table = RoleTable::Threshold(vec![(RoleId(1), limits(3, 10, 1)), (RoleId(2), limits(3, 10, 1))]);
    let people = simulate_roles(&table, 5);
    assert_eq!(decide_pairings(&table, &people), Err(Infeasible::InsufficientForMinimums));
    let table = RoleTable::Threshold(vec![(RoleId(1), limits(0, 2, 1)), (RoleId(2), limits(0, 2, 1))]);
    let people = simulate_roles(&table, 5);
    assert_eq!(decide_pairings(&table, &people), Err(Infeasible::TooManyForMaximums));
}

#[test]
fn curve_starvation_names_the_role() {
    let table = RoleTable::Curve(vec![(RoleId(1), job(&[(2, 1)])), (RoleId(2), job(&[(2, 1)]))]);
    let people = users(&[(1, &[1]), (2, &[1])]);
    assert_eq!(decide_pairings(&table, &people), Err(Infeasible::NoEligibleCandidate(RoleId(2))));
}

#[test]
fn restricted_qualifications_keep_everyone() {
    let table = RoleTable::Threshold(vec![(RoleId(1), limits(0, 2, 1))]);
    let mut people = users(&[(1, &[1, 7]), (2, &[8])]);
    restrict_qualifications(&mut people, &table);
    assert_eq!(people, users(&[(1, &[1]), (2, &[])]));
}

#[test]
fn interpolation_orders_the_points() {
    let mut j = job(&[(20, 4), (5, 1), (10, 2)]);
    let t = j.interpolate(15);
    assert_eq!(t.num, 3 * t.den);
    let keys: Vec<u16> = j.points.keys().copied().collect();
    assert_eq!(keys, vec![5, 10, 20]);
}

#[test]
fn curve_quota_for_nobody_is_zero() {
    let jobs = vec![(RoleId(1), job(&[(0, 2), (10, 4)])), (RoleId(2), job(&[(0, 1)]))];
    assert_eq!(plan_curve(&jobs, 0).unwrap(), vec![0, 0]);
}
