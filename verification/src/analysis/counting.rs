//! The multiset of points, held in a `counter::Counter`, and the sort of
//! `itertools`: the outside calls of the analysis, each behind one trusted item.

use vstd::prelude::*;
use counter::Counter;
use itertools::Itertools;
use super::order::{Point, point_le};
use vstd::relations::sorted_by;

verus! {

/// The outside counter type; its contents are read through `counter_map`.
#[verifier::external_type_specification]
#[verifier::external_body]
#[verifier::reject_recursive_types(T)]
#[verifier::reject_recursive_types(N)]
#[verifier::reject_recursive_types(S)]
pub struct ExCounter<T, N, S>(Counter<T, N, S>);

/// What a counter of points holds: each stored point with its stored count
/// (a stored count may be zero).
pub uninterp spec fn counter_map(c: Counter<Point, usize>) -> Map<Point, usize>;

/// The count of `p` in `m`, zero where `p` is not stored.
pub open spec fn count(m: Map<Point, usize>, p: Point) -> nat {
    if m.contains_key(p) {
        m[p] as nat
    } else {
        0
    }
}

/// `Counter::new`: an empty counter.
#[verifier::external_body]
pub(crate) fn counter_new() -> (r: Counter<Point, usize>)
    ensures
        counter_map(r) =~= Map::empty(),
{
    Counter::new()
}

/// `Counter::clone`: a counter with the same contents.
#[verifier::external_body]
pub(crate) fn counter_clone(c: &Counter<Point, usize>) -> (r: Counter<Point, usize>)
    ensures
        counter_map(r) == counter_map(*c),
{
    c.clone()
}

/// `HashMap::get` through the counter's `Deref`: the stored count of `p`, if any.
#[verifier::external_body]
pub(crate) fn counter_lookup(c: &Counter<Point, usize>, p: Point) -> (r: Option<usize>)
    ensures
        r == (if counter_map(*c).contains_key(p) {
            Some(counter_map(*c)[p])
        } else {
            None
        }),
{
    c.get(&p).copied()
}

/// `HashMap::insert` through the counter's `DerefMut`: stores `v` as the count of `p`.
#[verifier::external_body]
pub(crate) fn counter_insert(c: &mut Counter<Point, usize>, p: Point, v: usize)
    ensures
        counter_map(*final(c)) == counter_map(*old(c)).insert(p, v),
{
    c.insert(p, v);
}

/// `HashMap::iter` through the counter's `Deref`: every stored point with its
/// count, once each, in an order that the counter leaves open.
#[verifier::external_body]
pub(crate) fn counter_entries(c: &Counter<Point, usize>) -> (r: Vec<(Point, usize)>)
    ensures
        r@.len() == counter_map(*c).dom().len(),
        forall|i: int|
            0 <= i < r@.len() ==> #[trigger] counter_map(*c).contains_key(r@[i].0) && counter_map(
                *c,
            )[r@[i].0] == r@[i].1,
        forall|i: int, j: int| 0 <= i < j < r@.len() ==> #[trigger] r@[i].0 != #[trigger] r@[j].0,
        forall|p: Point|
            #[trigger] counter_map(*c).contains_key(p) ==> exists|i: int|
                0 <= i < r@.len() && #[trigger] r@[i].0 == p,
{
    c.iter().map(|(p, n)| (*p, *n)).collect()
}

/// `HashMap::is_empty` through the counter's `Deref`: whether nothing is stored.
#[verifier::external_body]
pub(crate) fn counter_is_empty(c: &Counter<Point, usize>) -> (r: bool)
    ensures
        r == (counter_map(*c).dom() =~= Set::<Point>::empty()),
{
    c.is_empty()
}

/// `BitAnd` of counters: the points stored in both, each with the smaller count.
#[verifier::external_body]
pub(crate) fn counter_bitand(a: Counter<Point, usize>, b: Counter<Point, usize>) -> (r: Counter<Point, usize>)
    ensures
        counter_map(r).dom() == counter_map(a).dom().intersect(counter_map(b).dom()),
        forall|p: Point| #[trigger]
            counter_map(r).contains_key(p) ==> counter_map(r)[p] == (if counter_map(a)[p]
                <= counter_map(b)[p] {
                counter_map(a)[p]
            } else {
                counter_map(b)[p]
            }),
{
    a & b
}

/// `HashMap` equality through the counter's `PartialEq`: same stored points and counts.
#[verifier::external_body]
pub(crate) fn counter_eq(a: &Counter<Point, usize>, b: &Counter<Point, usize>) -> (r: bool)
    ensures
        r == (counter_map(*a) == counter_map(*b)),
{
    a == b
}

/// `Itertools::sorted`: the same points in ascending order.
#[verifier::external_body]
pub(crate) fn sorted_points(v: Vec<Point>) -> (r: Vec<Point>)
    ensures
        r@.to_multiset() == v@.to_multiset(),
        sorted_by(r@, |a: Point, b: Point| point_le(a, b)),
{
    v.into_iter().sorted().collect()
}

} // verus!
