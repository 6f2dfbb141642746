//! Control points of a curve, held in an `IndexMap` from participant totals
//! to target counts.
use indexmap::IndexMap;
use std::collections::hash_map::RandomState;
use vstd::prelude::*;

verus! {

#[verifier::external_type_specification]
#[verifier::external_body]
#[verifier::reject_recursive_types(K)]
#[verifier::reject_recursive_types(V)]
#[verifier::reject_recursive_types(S)]
pub struct ExIndexMap<K, V, S>(IndexMap<K, V, S>);

/// The entries of a map of control points, in the map's order.
pub uninterp spec fn points_of(m: IndexMap<u16, u16, RandomState>) -> Seq<(u16, u16)>;

/// Relies on `IndexMap::new`: a new map has no entries.
#[verifier::external_body]
pub(crate) fn new_points() -> (r: IndexMap<u16, u16, RandomState>)
    ensures
        points_of(r) == Seq::<(u16, u16)>::empty(),
{
    IndexMap::new()
}

/// Relies on `IndexMap::len`: the number of entries.
#[verifier::external_body]
pub(crate) fn point_count(m: &IndexMap<u16, u16, RandomState>) -> (r: usize)
    ensures
        r == points_of(*m).len(),
{
    m.len()
}

/// Relies on `IndexMap::get_index`: the entry at a valid position; keys are
/// unique in the map, so no other position holds its key.
#[verifier::external_body]
pub(crate) fn point_at(m: &IndexMap<u16, u16, RandomState>, i: usize) -> (r: (u16, u16))
    requires
        i < points_of(*m).len(),
    ensures
        r == points_of(*m)[i as int],
        forall|j: int| 0 <= j < points_of(*m).len() && j != i ==> #[trigger] points_of(*m)[j].0 != r.0,
{
    let (k, v) = m.get_index(i).unwrap();
    (*k, *v)
}

/// Position of the entry with key `k`, or -1 where there is none.
pub open spec fn key_index(s: Seq<(u16, u16)>, k: u16) -> int
    decreases s.len(),
{
    if s.len() == 0 {
        -1
    } else {
        let j = key_index(s.drop_last(), k);
        if j < 0 && s.last().0 == k {
            s.len() - 1
        } else {
            j
        }
    }
}

/// The entries after setting key `k` to `v`.
pub open spec fn with_point(s: Seq<(u16, u16)>, k: u16, v: u16) -> Seq<(u16, u16)> {
    if key_index(s, k) >= 0 {
        s.update(key_index(s, k), (k, v))
    } else {
        s.push((k, v))
    }
}

/// The entries after removing key `k`; the others keep their order.
pub open spec fn without_point(s: Seq<(u16, u16)>, k: u16) -> Seq<(u16, u16)> {
    if key_index(s, k) >= 0 {
        s.remove(key_index(s, k))
    } else {
        s
    }
}

/// Keys strictly increasing along the entries.
pub open spec fn ascending(s: Seq<(u16, u16)>) -> bool {
    forall|i: int, j: int| 0 <= i < j < s.len() ==> s[i].0 < s[j].0
}

pub proof fn lemma_key_index(s: Seq<(u16, u16)>, k: u16)
    ensures
        -1 <= key_index(s, k) < s.len(),
        key_index(s, k) >= 0 ==> s[key_index(s, k)].0 == k,
        key_index(s, k) < 0 ==> forall|i: int| 0 <= i < s.len() ==> s[i].0 != k,
    decreases s.len(),
{
    if s.len() > 0 {
        lemma_key_index(s.drop_last(), k);
        if key_index(s, k) < 0 {
            assert forall|i: int| 0 <= i < s.len() implies s[i].0 != k by {
                if i < s.len() - 1 {
                    assert(s.drop_last()[i] == s[i]);
                }
            }
        }
    }
}

/// Relies on `IndexMap::insert`: an existing key keeps its place and takes the
/// new value; a new key is appended.
#[verifier::external_body]
pub(crate) fn put_point(m: &mut IndexMap<u16, u16, RandomState>, k: u16, v: u16)
    ensures
        points_of(*final(m)) == with_point(points_of(*old(m)), k, v),
{
    m.insert(k, v);
}

/// Relies on `IndexMap::shift_remove`: the entry with key `k` goes, and the
/// entries after it shift down, keeping their order.
#[verifier::external_body]
pub(crate) fn drop_point(m: &mut IndexMap<u16, u16, RandomState>, k: u16)
    ensures
        points_of(*final(m)) == without_point(points_of(*old(m)), k),
{
    m.shift_remove(&k);
}

/// Relies on `IndexMap::sort_keys`: the same entries, ordered by key; keys
/// are unique in the map, so they end strictly increasing.
#[verifier::external_body]
pub(crate) fn sort_points(m: &mut IndexMap<u16, u16, RandomState>)
    ensures
        points_of(*final(m)).to_multiset() == points_of(*old(m)).to_multiset(),
        ascending(points_of(*final(m))),
{
    m.sort_keys();
}

} // verus!
