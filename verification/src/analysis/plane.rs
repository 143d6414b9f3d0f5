//! The TE (time/event) plane: a multiset of points.

use vstd::prelude::*;
use counter::Counter;
use vstd::multiset::Multiset;
use super::order::{Point, Tick};
use super::counting::{
    count, counter_map, counter_new, counter_clone, counter_lookup, counter_insert,
    counter_entries, counter_is_empty, counter_eq,
};

verus! {

broadcast use vstd::seq_lib::group_to_multiset_ensures, vstd::multiset::group_multiset_axioms;

/// The sum of the counts that the first `i` entries give to `p`.
pub open spec fn prefix_count(e: Seq<(Point, usize)>, i: int, p: Point) -> nat
    decreases i,
{
    if i <= 0 {
        0
    } else {
        prefix_count(e, i - 1, p) + if e[i - 1].0 == p {
            e[i - 1].1 as nat
        } else {
            0
        }
    }
}

/// The entries list every stored point of `m` once, with its count.
pub open spec fn enumerates(e: Seq<(Point, usize)>, m: Map<Point, usize>) -> bool {
    &&& forall|i: int| 0 <= i < e.len() ==> #[trigger] m.contains_key(e[i].0) && m[e[i].0] == e[i].1
    &&& forall|i: int, j: int| 0 <= i < j < e.len() ==> #[trigger] e[i].0 != #[trigger] e[j].0
    &&& forall|p: Point| #[trigger] m.contains_key(p) ==> exists|i: int| 0 <= i < e.len() && #[trigger] e[i].0 == p
}

/// The count at `x` of the plane `m` shifted forward by `offset` ticks.
pub open spec fn back_count(m: Map<Point, usize>, x: Point, offset: Tick) -> nat {
    if x.0 >= offset {
        count(m, ((x.0 - offset) as Tick, x.1))
    } else {
        0
    }
}

/// The first `i` entries give `p` its count if one of them is `p`, else nothing.
pub proof fn lemma_prefix_count(e: Seq<(Point, usize)>, m: Map<Point, usize>, i: int, p: Point)
    requires
        enumerates(e, m),
        0 <= i <= e.len(),
    ensures
        prefix_count(e, i, p) == (if exists|j: int| 0 <= j < i && e[j].0 == p {
            count(m, p)
        } else {
            0
        }),
    decreases i,
{
    if i > 0 {
        lemma_prefix_count(e, m, i - 1, p);
        if e[i - 1].0 == p {
            if exists|j: int| 0 <= j < i - 1 && e[j].0 == p {
                let j = choose|j: int| 0 <= j < i - 1 && e[j].0 == p;
                assert(e[j].0 != e[i - 1].0);
            }
        } else {
            if exists|j: int| 0 <= j < i && e[j].0 == p {
                let j = choose|j: int| 0 <= j < i && e[j].0 == p;
                assert(j < i - 1);
            }
        }
    }
}

/// Summed over all entries, the counts give back the plane.
pub proof fn lemma_prefix_count_full(e: Seq<(Point, usize)>, m: Map<Point, usize>, p: Point)
    requires
        enumerates(e, m),
    ensures
        prefix_count(e, e.len() as int, p) == count(m, p),
{
    lemma_prefix_count(e, m, e.len() as int, p);
    if m.contains_key(p) {
        let j = choose|j: int| 0 <= j < e.len() && #[trigger] e[j].0 == p;
        assert(0 <= j < e.len() && e[j].0 == p);
    }
}

/// TE (time/event) plane: the multiset of the points of a song.
#[derive(Debug)]
pub struct TePlane {
    counts: Counter<Point, usize>,
}

impl View for TePlane {
    type V = Map<Point, usize>;

    /// Each stored point with its stored count.
    closed spec fn view(&self) -> Map<Point, usize> {
        counter_map(self.counts)
    }
}

impl Default for TePlane {
    fn default() -> (r: Self)
        ensures
            r@ == Map::<Point, usize>::empty(),
    {
        TePlane { counts: counter_new() }
    }
}

impl Clone for TePlane {
    fn clone(&self) -> (r: Self)
        ensures
            r@ == self@,
    {
        TePlane { counts: counter_clone(&self.counts) }
    }
}

impl TePlane {
    /// An empty plane.
    pub fn new() -> (r: Self)
        ensures
            r@ == Map::<Point, usize>::empty(),
    {
        TePlane { counts: counter_new() }
    }

    /// The stored count of `p`, if `p` is stored.
    pub fn get(&self, p: Point) -> (r: Option<usize>)
        ensures
            r == (if self@.contains_key(p) {
                Some(self@[p])
            } else {
                None
            }),
    {
        counter_lookup(&self.counts, p)
    }

    /// The count of `p`: zero where it is not stored.
    pub fn count(&self, p: Point) -> (r: usize)
        ensures
            r == count(self@, p),
    {
        match counter_lookup(&self.counts, p) {
            Some(n) => n,
            None => 0,
        }
    }

    /// Stores `n` as the count of `p`.
    pub fn insert(&mut self, p: Point, n: usize)
        ensures
            final(self)@ == old(self)@.insert(p, n),
    {
        counter_insert(&mut self.counts, p, n);
    }

    /// Every stored point with its count, once each, in an order left open.
    pub fn entries(&self) -> (r: Vec<(Point, usize)>)
        ensures
            enumerates(r@, self@),
            r@.len() == self@.dom().len(),
    {
        counter_entries(&self.counts)
    }

    /// Whether no point is stored.
    pub fn is_empty(&self) -> (r: bool)
        ensures
            r == (self@.dom() =~= Set::<Point>::empty()),
    {
        counter_is_empty(&self.counts)
    }

    /// Whether both planes store the same points with the same counts.
    pub fn equals(&self, other: &Self) -> (r: bool)
        ensures
            r == (self@ == other@),
    {
        counter_eq(&self.counts, &other.counts)
    }

    /// Collects points into a plane, counting repeats.
    pub fn from_points(points: Vec<Point>) -> (r: Self)
        ensures
            r@.dom() == points@.to_set(),
            forall|p: Point| #[trigger] count(r@, p) == points@.to_multiset().count(p),
    {
        let mut plane = TePlane::new();
        let mut i: usize = 0;
        while i < points.len()
            invariant
                0 <= i <= points.len(),
                plane@.dom() == points@.take(i as int).to_set(),
                forall|p: Point| #[trigger] count(plane@, p) == points@.take(i as int).to_multiset().count(p),
            decreases points.len() - i,
        {
            let p = points[i];
            let ghost before = points@.take(i as int);
            proof {
                assert(points@.take(i as int + 1) =~= before.push(p));
                assert(before.to_multiset().len() == before.len());
                assert(before.to_multiset().count(p) <= before.to_multiset().len());
            }
            let n = plane.count(p);
            let ghost pm = plane@;
            plane.insert(p, n + 1);
            i = i + 1;
            proof {
                assert(plane@ == pm.insert(p, (n + 1) as usize));
                assert(points@.take(i as int).to_set() =~= before.to_set().insert(p)) by {
                    assert(points@.take(i as int) =~= before.push(p));
                    assert forall|x: Point| before.push(p).contains(x) <==> (before.contains(x) || x == p) by {
                        if before.push(p).contains(x) {
                            let j = choose|j: int| 0 <= j < before.len() + 1 && before.push(p)[j] == x;
                            if j < before.len() { assert(before[j] == x); }
                        }
                        if before.contains(x) {
                            let j = choose|j: int| 0 <= j < before.len() && before[j] == x;
                            assert(before.push(p)[j] == x);
                        }
                        if x == p { assert(before.push(p)[before.len() as int] == x); }
                    }
                }
                assert(plane@.dom() =~= points@.take(i as int).to_set());
                assert(points@.take(i as int).to_multiset() =~= before.to_multiset().insert(p));
                assert forall|q: Point| #[trigger] count(plane@, q) == points@.take(i as int).to_multiset().count(q) by {
                    if q != p {
                        assert(count(plane@, q) == count(pm, q));
                    }
                }
            }
        }
        proof {
            assert(points@.take(points@.len() as int) =~= points@);
        }
        plane
    }

    /// Expands into individual points, each repeated by its count, in an order left open.
    pub fn into_points(self) -> (r: Vec<Point>)
        ensures
            forall|p: Point| #[trigger] r@.to_multiset().count(p) == count(self@, p),
            r@.len() == total(self@),
    {
        let e = self.entries();
        let mut out: Vec<Point> = Vec::new();
        let mut i: usize = 0;
        while i < e.len()
            invariant
                0 <= i <= e.len(),
                enumerates(e@, self@),
                forall|p: Point| #[trigger] out@.to_multiset().count(p) == prefix_count(e@, i as int, p),
                out@.len() == prefix_sum(e@, i as int),
            decreases e.len() - i,
        {
            let (p, n) = e[i];
            let ghost base = out@;
            let mut k: usize = 0;
            while k < n
                invariant
                    0 <= k <= n,
                    out@ == base + Seq::new(k as nat, |j: int| p),
                decreases n - k,
            {
                out.push(p);
                k = k + 1;
                proof {
                    assert(out@ =~= base + Seq::new(k as nat, |j: int| p));
                }
            }
            proof {
                assert forall|q: Point| #[trigger] out@.to_multiset().count(q) == prefix_count(e@, i + 1, q) by {
                    lemma_repeat_count(base, p, n as nat, q);
                }
            }
            i = i + 1;
        }
        proof {
            assert forall|p: Point| #[trigger] out@.to_multiset().count(p) == count(self@, p) by {
                lemma_prefix_count_full(e@, self@, p);
            }
            lemma_prefix_sum_total(e@, self@);
        }
        out
    }

    /// Every point shifted forward by `offset` ticks, each repeated by its
    /// count, in an order left open.
    pub fn translated(&self, offset: Tick) -> (r: Vec<Point>)
        requires
            forall|p: Point| #[trigger] self@.contains_key(p) ==> p.0 + offset <= Tick::MAX,
        ensures
            forall|x: Point| #[trigger] r@.to_multiset().count(x) == back_count(self@, x, offset),
            r@.len() == total(self@),
    {
        let e = self.entries();
        let mut out: Vec<Point> = Vec::new();
        let mut i: usize = 0;
        while i < e.len()
            invariant
                0 <= i <= e.len(),
                enumerates(e@, self@),
                forall|p: Point| #[trigger] self@.contains_key(p) ==> p.0 + offset <= Tick::MAX,
                forall|x: Point| #[trigger] out@.to_multiset().count(x) == (if x.0 >= offset {
                    prefix_count(e@, i as int, ((x.0 - offset) as Tick, x.1))
                } else {
                    0
                }),
                out@.len() == prefix_sum(e@, i as int),
            decreases e.len() - i,
        {
            let (p, n) = e[i];
            proof {
                assert(self@.contains_key(e@[i as int].0));
            }
            let q: Point = (p.0 + offset, p.1);
            let ghost base = out@;
            let mut k: usize = 0;
            while k < n
                invariant
                    0 <= k <= n,
                    out@ == base + Seq::new(k as nat, |j: int| q),
                decreases n - k,
            {
                out.push(q);
                k = k + 1;
                proof {
                    assert(out@ =~= base + Seq::new(k as nat, |j: int| q));
                }
            }
            proof {
                assert forall|x: Point| #[trigger] out@.to_multiset().count(x) == (if x.0 >= offset {
                    prefix_count(e@, i + 1, ((x.0 - offset) as Tick, x.1))
                } else {
                    0
                }) by {
                    lemma_repeat_count(base, q, n as nat, x);
                    if x.0 >= offset {
                        assert((x == q) == (((x.0 - offset) as Tick, x.1) == p));
                    }
                }
            }
            i = i + 1;
        }
        proof {
            assert forall|x: Point| #[trigger] out@.to_multiset().count(x) == back_count(self@, x, offset) by {
                if x.0 >= offset {
                    lemma_prefix_count_full(e@, self@, ((x.0 - offset) as Tick, x.1));
                }
            }
            lemma_prefix_sum_total(e@, self@);
        }
        out
    }
}

/// Appending `n` copies of `p` adds `n` to the count of `p` only.
pub proof fn lemma_repeat_count(base: Seq<Point>, p: Point, n: nat, q: Point)
    ensures
        (base + Seq::new(n, |j: int| p)).to_multiset().count(q) == base.to_multiset().count(q) + (
        if q == p {
            n
        } else {
            0
        }),
    decreases n,
{
    if n == 0 {
        assert(base + Seq::new(0, |j: int| p) =~= base);
    } else {
        lemma_repeat_count(base, p, (n - 1) as nat, q);
        assert(base + Seq::new(n, |j: int| p) =~= (base + Seq::new((n - 1) as nat, |j: int| p)).push(
            p,
        ));
    }
}

} // verus!

verus! {

/// The multiset of points that a plane stands for (stored zeros vanish).
pub open spec fn point_multiset(m: Map<Point, usize>) -> Multiset<Point> {
    Multiset::from_map(Map::new(|p: Point| m.contains_key(p), |p: Point| m[p] as nat))
}

/// Total multiplicity: the sum of all counts.
pub open spec fn total(m: Map<Point, usize>) -> nat {
    point_multiset(m).len()
}

/// The sum of the counts of the first `i` entries.
pub open spec fn prefix_sum(e: Seq<(Point, usize)>, i: int) -> nat
    decreases i,
{
    if i <= 0 {
        0
    } else {
        prefix_sum(e, i - 1) + e[i - 1].1 as nat
    }
}

/// The multiset of the first `i` entries.
pub open spec fn prefix_multiset(e: Seq<(Point, usize)>, i: int) -> Multiset<Point>
    decreases i,
{
    if i <= 0 {
        Multiset::empty()
    } else {
        prefix_multiset(e, i - 1).add(Seq::new(e[i - 1].1 as nat, |j: int| e[i - 1].0).to_multiset())
    }
}

/// An enumerated plane stores finitely many points.
pub proof fn lemma_enumerated_finite(e: Seq<(Point, usize)>, m: Map<Point, usize>)
    requires
        enumerates(e, m),
    ensures
        m.dom().finite(),
{
    let keys = e.map_values(|x: (Point, usize)| x.0).to_set();
    assert(m.dom().subset_of(keys)) by {
        assert forall|p: Point| m.dom().contains(p) implies keys.contains(p) by {
            let i = choose|i: int| 0 <= i < e.len() && #[trigger] e[i].0 == p;
            assert(e.map_values(|x: (Point, usize)| x.0)[i] == p);
        }
    }
    vstd::set_lib::lemma_len_subset(m.dom(), keys);
}

/// The count of a point in the multiset of a finite plane.
pub proof fn lemma_point_multiset_count(m: Map<Point, usize>, p: Point)
    requires
        m.dom().finite(),
    ensures
        point_multiset(m).count(p) == count(m, p),
{
    let mm = Map::new(|p: Point| m.contains_key(p), |p: Point| m[p] as nat);
    assert(mm.dom() =~= m.dom());
}

/// The multiset of the first `i` entries counts as they do and sums their counts.
pub proof fn lemma_prefix_multiset(e: Seq<(Point, usize)>, i: int, p: Point)
    requires
        0 <= i <= e.len(),
    ensures
        prefix_multiset(e, i).count(p) == prefix_count(e, i, p),
        prefix_multiset(e, i).len() == prefix_sum(e, i),
    decreases i,
{
    if i > 0 {
        lemma_prefix_multiset(e, i - 1, p);
        let s = Seq::new(e[i - 1].1 as nat, |j: int| e[i - 1].0);
        lemma_repeat_count(Seq::empty(), e[i - 1].0, e[i - 1].1 as nat, p);
        assert(Seq::<Point>::empty() + s =~= s);
    }
}

/// Summed over an enumeration, the counts give the total.
pub proof fn lemma_prefix_sum_total(e: Seq<(Point, usize)>, m: Map<Point, usize>)
    requires
        enumerates(e, m),
    ensures
        prefix_sum(e, e.len() as int) == total(m),
{
    lemma_enumerated_finite(e, m);
    assert forall|p: Point| prefix_multiset(e, e.len() as int).count(p) == point_multiset(m).count(p) by {
        lemma_prefix_multiset(e, e.len() as int, p);
        lemma_prefix_count_full(e, m, p);
        lemma_point_multiset_count(m, p);
    }
    assert(prefix_multiset(e, e.len() as int) =~= point_multiset(m));
    lemma_prefix_multiset(e, e.len() as int, (0, 0));
}

impl TePlane {
    /// The sum of all counts.
    pub fn total(&self) -> (r: usize)
        requires
            total(self@) <= usize::MAX,
        ensures
            r == total(self@),
    {
        let e = self.entries();
        let mut sum: usize = 0;
        let mut i: usize = 0;
        proof {
            lemma_prefix_sum_total(e@, self@);
        }
        while i < e.len()
            invariant
                0 <= i <= e.len(),
                sum == prefix_sum(e@, i as int),
                prefix_sum(e@, e@.len() as int) <= usize::MAX,
            decreases e.len() - i,
        {
            proof {
                lemma_prefix_sum_mono(e@, i as int + 1, e@.len() as int);
            }
            sum = sum + e[i].1;
            i = i + 1;
        }
        sum
    }
}

/// Sums over longer prefixes are no smaller.
pub proof fn lemma_prefix_sum_mono(e: Seq<(Point, usize)>, i: int, j: int)
    requires
        0 <= i <= j <= e.len(),
    ensures
        prefix_sum(e, i) <= prefix_sum(e, j),
    decreases j - i,
{
    if i < j {
        lemma_prefix_sum_mono(e, i, j - 1);
    }
}

} // verus!

verus! {

impl TePlane {
    /// The points stored in both planes, each with the smaller count.
    pub fn intersect(self, other: Self) -> (r: Self)
        ensures
            r@.dom() == self@.dom().intersect(other@.dom()),
            forall|p: Point| #[trigger] r@.contains_key(p) ==> r@[p] == (if self@[p] <= other@[p] {
                self@[p]
            } else {
                other@[p]
            }),
    {
        TePlane { counts: super::counting::counter_bitand(self.counts, other.counts) }
    }
}

} // verus!
