//! Translation equivalence classes: a kernel plane repeated at offsets.

use vstd::prelude::*;
use super::order::{Point, Tick};
use super::counting::count;
use super::plane::{TePlane, back_count, total, point_multiset, lemma_point_multiset_count};
use super::scatter::Scatter;

verus! {

broadcast use vstd::seq_lib::group_to_multiset_ensures, vstd::multiset::group_multiset_axioms;

/// The count at `x` of `m` repeated at the offset zero and at each of `offsets`.
pub open spec fn expand_count(m: Map<Point, usize>, offsets: Seq<Tick>, x: Point) -> nat
    decreases offsets.len(),
{
    if offsets.len() == 0 {
        count(m, x)
    } else {
        expand_count(m, offsets.drop_last(), x) + back_count(m, x, offsets.last())
    }
}

/// Every stored point of `m` can be shifted by every offset without leaving the tick range.
pub open spec fn shiftable(m: Map<Point, usize>, offsets: Seq<Tick>) -> bool {
    forall|p: Point, i: int|
        #![trigger m.contains_key(p), offsets[i]]
        m.contains_key(p) && 0 <= i < offsets.len() ==> p.0 + offsets[i] <= Tick::MAX
}

/// The smallest gap between adjacent ticks of `o`; none with fewer than two.
pub open spec fn min_gap_of(o: Seq<Tick>) -> Option<int>
    decreases o.len(),
{
    if o.len() < 2 {
        None
    } else {
        let g = o.last() - o[o.len() - 2];
        match min_gap_of(o.drop_last()) {
            None => Some(g),
            Some(m) => Some(if m <= g { m } else { g }),
        }
    }
}

/// The minimum gap is the smallest of the gaps between adjacent ticks: no
/// more than any of them, and equal to one of them; there is none with fewer
/// than two ticks.
pub proof fn lemma_min_gap_is_smallest(o: Seq<Tick>)
    ensures
        o.len() < 2 ==> min_gap_of(o) is None,
        o.len() >= 2 ==> min_gap_of(o) is Some,
        min_gap_of(o) matches Some(g) ==> forall|i: int| 0 <= i < o.len() - 1 ==> g <= o[i + 1] - #[trigger] o[i],
        min_gap_of(o) matches Some(g) ==> exists|i: int| 0 <= i < o.len() - 1 && g == o[i + 1] - #[trigger] o[i],
    decreases o.len(),
{
    if o.len() >= 2 {
        let d = o.drop_last();
        lemma_min_gap_is_smallest(d);
        let n = o.len() - 1;
        let g = o[n] - o[n - 1];
        assert(o.last() == o[n]);
        assert forall|i: int| 0 <= i < d.len() implies #[trigger] d[i] == o[i] by {}
        match min_gap_of(d) {
            None => {
                assert(d.len() < 2);
                assert(n == 1);
                assert(min_gap_of(o) == Some(g));
                assert(0 <= 0int < o.len() - 1 && g == o[1] - o[0]);
            },
            Some(m) => {
                let r = if m <= g { m } else { g };
                assert(min_gap_of(o) == Some(r));
                assert forall|i: int| 0 <= i < o.len() - 1 implies r <= o[i + 1] - #[trigger] o[i] by {
                    if i < n - 1 {
                        assert(d[i] == o[i] && d[i + 1] == o[i + 1]);
                        assert(m <= d[i + 1] - d[i]);
                    }
                }
                if m <= g {
                    let i = choose|i: int| 0 <= i < d.len() - 1 && m == d[i + 1] - #[trigger] d[i];
                    assert(d[i] == o[i] && d[i + 1] == o[i + 1]);
                    assert(0 <= i < o.len() - 1 && r == o[i + 1] - o[i]);
                } else {
                    assert(0 <= n - 1 < o.len() - 1 && r == o[(n - 1) + 1] - o[n - 1]);
                }
            },
        }
    }
}

/// Translation Equivalence Class (TEC).
#[derive(Debug)]
pub struct TransEqClass {
    /// Translation offsets (scatter, ascending, excluding 0: zero is implied).
    pub scatter: Scatter,
    /// Points (multiset) that this TEC operates on.
    pub kernel: TePlane,
}

impl TransEqClass {
    /// The scatter is well formed.
    pub open spec fn wf(&self) -> bool {
        self.scatter.wf()
    }

    pub fn new(scatter: Scatter, kernel: TePlane) -> (r: Self)
        ensures
            r.scatter == scatter,
            r.kernel == kernel,
    {
        TransEqClass { scatter, kernel }
    }

    /// Offsets including the implied zero, ascending.
    pub fn offsets(&self) -> (r: Vec<Tick>)
        ensures
            r@ == seq![0 as Tick] + self.scatter@,
    {
        let mut out: Vec<Tick> = Vec::new();
        out.push(0);
        let n = self.scatter.len();
        let mut i: usize = 0;
        while i < n
            invariant
                0 <= i <= n,
                n == self.scatter@.len(),
                out@ == seq![0 as Tick] + self.scatter@.take(i as int),
            decreases n - i,
        {
            out.push(self.scatter.get(i));
            i = i + 1;
            proof {
                assert(out@ =~= seq![0 as Tick] + self.scatter@.take(i as int));
            }
        }
        proof {
            assert(self.scatter@.take(n as int) =~= self.scatter@);
        }
        out
    }

    /// Number of offsets, including the implied zero.
    pub fn arity(&self) -> (r: usize)
        requires
            self.scatter@.len() < usize::MAX,
        ensures
            r == self.scatter@.len() + 1,
    {
        self.scatter.len() + 1
    }

    /// Reuse gain: `sum(kernel) * scatter.len()`. The scatter excludes the
    /// implied zero offset, so its length is `|S| - 1`.
    pub fn reuse(&self) -> (r: usize)
        requires
            total(self.kernel@) <= usize::MAX,
            total(self.kernel@) * self.scatter@.len() <= usize::MAX,
        ensures
            r == total(self.kernel@) * self.scatter@.len(),
    {
        let sum = self.kernel.total();
        sum * self.scatter.len()
    }

    /// Total covered multiplicity: `sum(kernel) * (scatter.len() + 1)`.
    pub fn coverage(&self) -> (r: usize)
        requires
            self.scatter@.len() < usize::MAX,
            total(self.kernel@) <= usize::MAX,
            total(self.kernel@) * (self.scatter@.len() + 1) <= usize::MAX,
        ensures
            r == total(self.kernel@) * (self.scatter@.len() + 1),
    {
        let sum = self.kernel.total();
        sum * self.arity()
    }

    /// Expand `kernel (+) scatter` into a plane, including the implied zero offset.
    pub fn expand(&self) -> (r: TePlane)
        requires
            shiftable(self.kernel@, self.scatter@),
        ensures
            forall|x: Point| #[trigger] count(r@, x) == expand_count(self.kernel@, self.scatter@, x),
            forall|x: Point| #[trigger] r@.contains_key(x) <==> expand_count(self.kernel@, self.scatter@, x) > 0,
            total(r@) == total(self.kernel@) * (self.scatter@.len() + 1),
    {
        let k = &self.kernel;
        let s = &self.scatter;
        let mut points = k.translated(0);
        proof {
            assert forall|x: Point| #[trigger] points@.to_multiset().count(x) == expand_count(k@, s@.take(0), x) by {
                assert(s@.take(0).len() == 0);
            }
        }
        let n = s.len();
        let mut i: usize = 0;
        while i < n
            invariant
                0 <= i <= n,
                n == s@.len(),
                shiftable(k@, s@),
                forall|x: Point| #[trigger] points@.to_multiset().count(x) == expand_count(k@, s@.take(i as int), x),
                points@.len() == total(k@) * (i + 1),
            decreases n - i,
        {
            let o = s.get(i);
            proof {
                assert forall|p: Point| #[trigger] k@.contains_key(p) implies p.0 + o <= Tick::MAX by {
                    assert(s@[i as int] == o);
                }
            }
            let more = k.translated(o);
            let ghost prev = points@;
            let mut j: usize = 0;
            while j < more.len()
                invariant
                    0 <= j <= more.len(),
                    points@ == prev + more@.take(j as int),
                decreases more.len() - j,
            {
                points.push(more[j]);
                j = j + 1;
                proof {
                    assert(points@ =~= prev + more@.take(j as int));
                }
            }
            proof {
                assert(more@.take(more@.len() as int) =~= more@);
                vstd::seq_lib::lemma_multiset_commutative(prev, more@);
                assert(s@.take(i as int + 1).drop_last() =~= s@.take(i as int));
                assert forall|x: Point| #[trigger] points@.to_multiset().count(x) == expand_count(k@, s@.take(i as int + 1), x) by {
                    assert(points@.to_multiset() =~= prev.to_multiset().add(more@.to_multiset()));
                }
                let tk = total(k@);
                assert(tk * (i + 1) + tk == tk * (i + 2)) by (nonlinear_arith);
            }
            i = i + 1;
        }
        proof {
            assert(s@.take(n as int) =~= s@);
        }
        let r = TePlane::from_points(points);
        proof {
            assert forall|x: Point| #[trigger] r@.contains_key(x) <==> expand_count(k@, s@, x) > 0 by {
                if r@.contains_key(x) {
                    assert(r@.dom().contains(x));
                    assert(points@.contains(x));
                }
                if expand_count(k@, s@, x) > 0 {
                    assert(points@.to_multiset().count(x) > 0);
                    assert(points@.to_set().contains(x));
                }
            }
            assert forall|x: Point| #[trigger] point_multiset(r@).count(x) == points@.to_multiset().count(x) by {
                lemma_point_multiset_count(r@, x);
            }
            assert(point_multiset(r@) =~= points@.to_multiset());
        }
        r
    }

    /// Minimum gap between adjacent offsets, including the implied zero.
    pub fn min_gap(&self) -> (r: Option<Tick>)
        requires
            self.wf(),
        ensures
            r.is_none() <==> min_gap_of(seq![0 as Tick] + self.scatter@).is_none(),
            r matches Some(g) ==> min_gap_of(seq![0 as Tick] + self.scatter@) == Some(g as int),
    {
        let o = self.offsets();
        proof {
            self.scatter.lemma_wf();
            assert forall|a: int, b: int| 0 <= a < b < o@.len() implies #[trigger] o@[a] < #[trigger] o@[b] by {
                if a > 0 {
                    assert(o@[a] == self.scatter@[a - 1]);
                }
                assert(o@[b] == self.scatter@[b - 1]);
            }
        }
        let mut best: Option<Tick> = None;
        let mut i: usize = 1;
        while i < o.len()
            invariant
                1 <= i <= o.len(),
                forall|a: int, b: int| 0 <= a < b < o@.len() ==> #[trigger] o@[a] < #[trigger] o@[b],
                best.is_none() <==> min_gap_of(o@.take(i as int)).is_none(),
                best matches Some(g) ==> min_gap_of(o@.take(i as int)) == Some(g as int),
            decreases o.len() - i,
        {
            let g = o[i] - o[i - 1];
            best = match best {
                None => Some(g),
                Some(m) => Some(if m <= g { m } else { g }),
            };
            proof {
                assert(o@.take(i as int + 1).drop_last() =~= o@.take(i as int));
            }
            i = i + 1;
        }
        proof {
            assert(o@.take(o@.len() as int) =~= o@);
        }
        best
    }

    /// Translate the kernel along the time axis; the scatter is unchanged.
    pub fn translate(self, tick: Tick) -> (r: Self)
        requires
            forall|p: Point| #[trigger] self.kernel@.contains_key(p) ==> p.0 + tick <= Tick::MAX,
        ensures
            r.scatter == self.scatter,
            forall|x: Point| #[trigger] count(r.kernel@, x) == back_count(self.kernel@, x, tick),
            forall|x: Point| #[trigger] r.kernel@.contains_key(x) <==> back_count(self.kernel@, x, tick) > 0,
    {
        let TransEqClass { scatter, kernel } = self;
        let points = kernel.translated(tick);
        let kernel2 = TePlane::from_points(points);
        proof {
            assert forall|x: Point| #[trigger] kernel2@.contains_key(x) <==> back_count(kernel@, x, tick) > 0 by {
                if kernel2@.contains_key(x) {
                    assert(kernel2@.dom().contains(x));
                    assert(points@.contains(x));
                }
                if back_count(kernel@, x, tick) > 0 {
                    assert(points@.to_multiset().count(x) > 0);
                    assert(points@.to_set().contains(x));
                }
            }
        }
        TransEqClass { kernel: kernel2, scatter }
    }

    /// Offsets of both, kernels intersected: each point stored in both kernels,
    /// with the smaller count.
    pub fn bitand(self, rhs: Self) -> (r: Self)
        requires
            self.wf(),
            rhs.wf(),
        ensures
            r.wf(),
            r.scatter@.to_set() == self.scatter@.to_set() + rhs.scatter@.to_set(),
            r.kernel@.dom() == self.kernel@.dom().intersect(rhs.kernel@.dom()),
            forall|p: Point| #[trigger] r.kernel@.contains_key(p) ==> r.kernel@[p] == (if self.kernel@[p] <= rhs.kernel@[p] {
                self.kernel@[p]
            } else {
                rhs.kernel@[p]
            }),
    {
        let scatter = self.scatter.union(&rhs.scatter);
        let kernel = self.kernel.intersect(rhs.kernel);
        TransEqClass { scatter, kernel }
    }
}

} // verus!
