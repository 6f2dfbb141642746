use indexmap::IndexMap;
use roleroll::assign::distinct_ids;
use roleroll::curve::Job;
use roleroll::ids::{RoleId, UserId};
use roleroll::stages::{add_stage, amount_of, remove_stage, stage_total};

fn job(points: &[(u16, u16)]) -> Job {
    let mut map = IndexMap::new();
    for (k, v) in points {
        map.insert(*k, *v);
    }
    Job { points: map }
}

fn points(j: &Job) -> Vec<(u16, u16)> {
    j.points.iter().map(|(k, v)| (*k, *v)).collect()
}

#[test]
fn stage_total_adds_amounts() {
    assert_eq!(stage_total(&vec![(RoleId(1), 3), (RoleId(2), 4)]), Some(7));
    assert_eq!(stage_total(&vec![]), Some(0));
    assert_eq!(stage_total(&vec![(RoleId(1), 65535), (RoleId(2), 1)]), None);
}

#[test]
fn amount_of_takes_last_entry() {
    let amounts = vec![(RoleId(1), 3), (RoleId(2), 4), (RoleId(1), 5)];
    assert_eq!(amount_of(&amounts, RoleId(1)), 5);
    assert_eq!(amount_of(&amounts, RoleId(9)), 0);
}

#[test]
fn add_stage_sets_every_curve() {
    let mut jobs = vec![(RoleId(1), job(&[(4, 1)])), (RoleId(2), job(&[(4, 3)])), (RoleId(3), job(&[]))];
    assert!(add_stage(&mut jobs, &vec![(RoleId(1), 2), (RoleId(2), 6)]));
    assert_eq!(points(&jobs[0].1), vec![(4, 1), (8, 2)]);
    assert_eq!(points(&jobs[1].1), vec![(4, 3), (8, 6)]);
    assert_eq!(points(&jobs[2].1), vec![(8, 0)]);
    // an existing stage keeps its place
    assert!(add_stage(&mut jobs, &vec![(RoleId(1), 4)]));
    assert_eq!(points(&jobs[0].1), vec![(4, 4), (8, 2)]);
    assert_eq!(points(&jobs[2].1), vec![(4, 0), (8, 0)]);
}

#[test]
fn add_stage_overflow_changes_nothing() {
    let mut jobs = vec![(RoleId(1), job(&[(4, 1)]))];
    assert!(!add_stage(&mut jobs, &vec![(RoleId(1), 65535), (RoleId(1), 2)]));
    assert_eq!(points(&jobs[0].1), vec![(4, 1)]);
}

#[test]
fn remove_stage_from_every_curve() {
    let mut jobs = vec![(RoleId(1), job(&[(4, 1), (8, 2), (12, 3)])), (RoleId(2), job(&[(8, 5)]))];
    remove_stage(&mut jobs, 4);
    // the other points keep their order
    assert_eq!(points(&jobs[0].1), vec![(8, 2), (12, 3)]);
    assert_eq!(points(&jobs[1].1), vec![(8, 5)]);
    remove_stage(&mut jobs, 99);
    assert_eq!(points(&jobs[1].1), vec![(8, 5)]);
}

#[test]
fn blank_like_keeps_totals() {
    let j = job(&[(8, 2), (4, 1)]);
    assert_eq!(points(&j.blank_like()), vec![(8, 0), (4, 0)]);
    assert_eq!(points(&Job::new().blank_like()), vec![]);
}

#[test]
fn set_and_remove_single_stage() {
    let mut j = Job::new();
    j.set_stage(5, 2);
    j.set_stage(5, 3);
    assert_eq!(points(&j), vec![(5, 3)]);
    j.remove_stage(5);
    assert_eq!(points(&j), vec![]);
}

#[test]
fn distinct_ids_detects_repeats() {
    let a = vec![(UserId(1), vec![]), (UserId(2), vec![RoleId(1)])];
    assert!(distinct_ids(&a));
    let b = vec![(UserId(1), vec![]), (UserId(1), vec![RoleId(1)])];
    assert!(!distinct_ids(&b));
    assert!(distinct_ids(&vec![]));
}

#[test]
fn set_stage_below_keeps_order() {
    let mut j = Job::new();
    j.set_stage(10, 2);
    j.set_stage(20, 4);
    j.set_stage(5, 1);
    assert_eq!(points(&j), vec![(5, 1), (10, 2), (20, 4)]);
    j.remove_stage(10);
    assert_eq!(points(&j), vec![(5, 1), (20, 4)]);
}

#[test]
fn from_points_sorts() {
    let mut map = IndexMap::new();
    map.insert(9u16, 3u16);
    map.insert(2, 1);
    assert_eq!(points(&Job::from_points(map)), vec![(2, 1), (9, 3)]);
}
