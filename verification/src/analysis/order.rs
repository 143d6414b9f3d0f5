//! The time/event axes and the order in which points are visited.

use vstd::prelude::*;

verus! {

/// A time step on the plane's first axis.
pub type Tick = u32;

/// The plane's second axis: an event, identified by an integer.
pub type Event = u32;

/// A point in the TE (time/event) plane.
pub type Point = (Tick, Event);

/// The order of points: by tick, then by event.
pub open spec fn point_le(a: Point, b: Point) -> bool {
    a.0 < b.0 || (a.0 == b.0 && a.1 <= b.1)
}

/// The strict order of points: by tick, then by event.
pub open spec fn point_lt(a: Point, b: Point) -> bool {
    a.0 < b.0 || (a.0 == b.0 && a.1 < b.1)
}

/// Strictly ascending points.
pub open spec fn strictly_ascending(s: Seq<Point>) -> bool {
    forall|i: int, j: int| 0 <= i < j < s.len() ==> #[trigger] point_lt(s[i], s[j])
}

/// The points of a finite set, strictly ascending.
pub open spec fn sorted_keys(keys: Set<Point>) -> Seq<Point> {
    choose|s: Seq<Point>| s.to_set() == keys && strictly_ascending(s)
}

/// Two strictly ascending sequences with the same points are equal.
pub proof fn lemma_ascending_unique(a: Seq<Point>, b: Seq<Point>)
    requires
        strictly_ascending(a),
        strictly_ascending(b),
        a.to_set() == b.to_set(),
    ensures
        a == b,
    decreases a.len(),
{
    if a.len() == 0 {
        if b.len() > 0 {
            assert(b.to_set().contains(b[0]));
        }
        assert(a =~= b);
    } else {
        assert(a.to_set().contains(a[0]));
        assert(b.len() > 0);
        assert(b.to_set().contains(a[0]));
        let j = choose|j: int| 0 <= j < b.len() && b[j] == a[0];
        assert(a.to_set().contains(b[0]));
        let k = choose|k: int| 0 <= k < a.len() && a[k] == b[0];
        if j > 0 {
            assert(point_lt(b[0], b[j]));
            if k > 0 {
                assert(point_lt(a[0], a[k]));
            }
            assert(false);
        }
        let a1 = a.drop_first();
        let b1 = b.drop_first();
        assert forall|x: Point| a1.to_set().contains(x) implies b1.to_set().contains(x) by {
            let i = choose|i: int| 0 <= i < a1.len() && a1[i] == x;
            assert(point_lt(a[0], a[i + 1]));
            assert(b.to_set().contains(x));
            let m = choose|m: int| 0 <= m < b.len() && b[m] == x;
            if m == 0 {
                assert(false);
            }
            assert(b1[m - 1] == x);
        }
        assert forall|x: Point| b1.to_set().contains(x) implies a1.to_set().contains(x) by {
            let i = choose|i: int| 0 <= i < b1.len() && b1[i] == x;
            assert(point_lt(b[0], b[i + 1]));
            assert(a.to_set().contains(x));
            let m = choose|m: int| 0 <= m < a.len() && a[m] == x;
            if m == 0 {
                assert(false);
            }
            assert(a1[m - 1] == x);
        }
        assert(a1.to_set() =~= b1.to_set());
        lemma_ascending_unique(a1, b1);
        assert(a =~= b) by {
            assert forall|i: int| 0 <= i < a.len() implies a[i] == b[i] by {
                if i > 0 {
                    assert(a[i] == a1[i - 1]);
                }
            }
        }
    }
}

/// A strictly ascending sequence is the sorted form of its set.
pub proof fn lemma_sorted_keys(s: Seq<Point>)
    requires
        strictly_ascending(s),
    ensures
        sorted_keys(s.to_set()) == s,
{
    let t = sorted_keys(s.to_set());
    assert(t.to_set() == s.to_set() && strictly_ascending(t));
    lemma_ascending_unique(t, s);
}

} // verus!
