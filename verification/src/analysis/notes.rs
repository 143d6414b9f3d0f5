//! The plane collected into notes keyed by tick.

use vstd::prelude::*;
use super::order::{Point, Tick, Event, strictly_ascending, sorted_keys, point_lt};
use super::counting::count;
use super::plane::TePlane;
use super::bounded::sorted_keys_of;

verus! {

/// Each of `keys` repeated by its count in `m`, in order.
pub open spec fn expand_sorted(keys: Seq<Point>, m: Map<Point, usize>) -> Seq<Point>
    decreases keys.len(),
{
    if keys.len() == 0 {
        Seq::empty()
    } else {
        expand_sorted(keys.drop_last(), m) + Seq::new(count(m, keys.last()), |j: int| keys.last())
    }
}

/// The points of groups of events keyed by tick, in order.
pub open spec fn flatten_groups(g: Seq<(Tick, Seq<Event>)>) -> Seq<Point>
    decreases g.len(),
{
    if g.len() == 0 {
        Seq::empty()
    } else {
        flatten_groups(g.drop_last()) + g.last().1.map_values(|e: Event| (g.last().0, e))
    }
}

/// The mathematical value of collected notes.
pub open spec fn groups_view(r: Seq<(Tick, Vec<Event>)>) -> Seq<(Tick, Seq<Event>)> {
    r.map_values(|g: (Tick, Vec<Event>)| (g.0, g.1@))
}

impl TePlane {
    /// Collects the plane into notes keyed by ascending tick, each with its
    /// events (repeated by count) in ascending order.
    pub fn into_notes(self) -> (r: Vec<(Tick, Vec<Event>)>)
        ensures
            flatten_groups(groups_view(r@)) == expand_sorted(sorted_keys(self@.dom()), self@),
            forall|i: int, j: int| 0 <= i < j < r@.len() ==> #[trigger] r@[i].0 < #[trigger] r@[j].0,
            forall|i: int| 0 <= i < r@.len() ==> #[trigger] r@[i].1@.len() > 0,
    {
        let keys = sorted_keys_of(&self);
        let mut out: Vec<(Tick, Vec<Event>)> = Vec::new();
        let mut i: usize = 0;
        while i < keys.len()
            invariant
                0 <= i <= keys.len(),
                strictly_ascending(keys@),
                flatten_groups(groups_view(out@)) == expand_sorted(keys@.take(i as int), self@),
                forall|a: int, b: int| 0 <= a < b < out@.len() ==> #[trigger] out@[a].0 < #[trigger] out@[b].0,
                forall|a: int| 0 <= a < out@.len() ==> #[trigger] out@[a].1@.len() > 0,
                out@.len() > 0 ==> i > 0,
                out@.len() > 0 ==> out@.last().0 <= keys@[i - 1].0,
                i < keys.len() && out@.len() > 0 ==> out@.last().0 <= keys@[i as int].0,
            decreases keys.len() - i,
        {
            let p = keys[i];
            let c = self.count(p);
            let ghost before = out@;
            proof {
                assert(keys@.take(i as int + 1).drop_last() =~= keys@.take(i as int));
                if i + 1 < keys.len() {
                    assert(point_lt(keys@[i as int], keys@[i + 1]));
                }
            }
            if c > 0 {
                let n = out.len();
                if n > 0 && out[n - 1].0 == p.0 {
                    let (t, mut evs) = out.pop().unwrap();
                    let ghost evs0 = evs@;
                    let mut k: usize = 0;
                    while k < c
                        invariant
                            0 <= k <= c,
                            evs@ == evs0 + Seq::new(k as nat, |j: int| p.1),
                        decreases c - k,
                    {
                        evs.push(p.1);
                        k = k + 1;
                        proof {
                            assert(evs@ =~= evs0 + Seq::new(k as nat, |j: int| p.1));
                        }
                    }
                    out.push((t, evs));
                    proof {
                        let g0 = groups_view(before);
                        let g1 = groups_view(out@);
                        assert(g1.drop_last() =~= g0.drop_last());
                        assert(g1.last() == (t, evs0 + Seq::new(c as nat, |j: int| p.1)));
                        assert(g0.last() == (t, evs0));
                        assert((evs0 + Seq::new(c as nat, |j: int| p.1)).map_values(|e: Event| (t, e))
                            =~= evs0.map_values(|e: Event| (t, e)) + Seq::new(c as nat, |j: int| p));
                        assert(flatten_groups(g1) =~= flatten_groups(g0) + Seq::new(c as nat, |j: int| p));
                    }
                } else {
                    let mut evs: Vec<Event> = Vec::new();
                    let mut k: usize = 0;
                    while k < c
                        invariant
                            0 <= k <= c,
                            evs@ == Seq::new(k as nat, |j: int| p.1),
                        decreases c - k,
                    {
                        evs.push(p.1);
                        k = k + 1;
                        proof {
                            assert(evs@ =~= Seq::new(k as nat, |j: int| p.1));
                        }
                    }
                    out.push((p.0, evs));
                    proof {
                        let g0 = groups_view(before);
                        let g1 = groups_view(out@);
                        assert(g1.drop_last() =~= g0);
                        assert(Seq::new(c as nat, |j: int| p.1).map_values(|e: Event| (p.0, e))
                            =~= Seq::new(c as nat, |j: int| p));
                        assert(flatten_groups(g1) =~= flatten_groups(g0) + Seq::new(c as nat, |j: int| p));
                        assert forall|a: int, b: int| 0 <= a < b < out@.len() implies #[trigger] out@[a].0 < #[trigger] out@[b].0 by {
                            if b == out@.len() - 1 && a < b {
                                assert(before.last().0 <= p.0);
                                assert(before[a].0 <= before.last().0) by {
                                    if a < before.len() - 1 {
                                        assert(before[a].0 < before[before.len() - 1].0);
                                    }
                                }
                            }
                        }
                    }
                }
            } else {
                proof {
                    assert(Seq::new(0, |j: int| p) =~= Seq::<Point>::empty());
                    assert(expand_sorted(keys@.take(i as int + 1), self@) =~= expand_sorted(keys@.take(i as int), self@));
                }
            }
            i = i + 1;
        }
        proof {
            assert(keys@.take(keys@.len() as int) =~= keys@);
        }
        out
    }
}

} // verus!
