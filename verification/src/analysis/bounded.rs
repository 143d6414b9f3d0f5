//! Bounded TECs: kernels whose expansion stays within the points they came from.

use vstd::prelude::*;
use vstd::relations::sorted_by;
use super::order::{Point, Tick, point_le, point_lt, strictly_ascending, sorted_keys, lemma_sorted_keys};
use super::counting::{count, sorted_points};
use super::plane::{TePlane, enumerates, back_count};
use super::scatter::{Scatter, valid_scatter};
use super::tec::{TransEqClass, shiftable, expand_count};

verus! {

broadcast use vstd::seq_lib::group_to_multiset_ensures, vstd::multiset::group_multiset_axioms;

/// `p` shifted forward by `o` ticks.
pub open spec fn shift(p: Point, o: Tick) -> Point {
    ((p.0 + o) as Tick, p.1)
}

/// The smaller of two naturals.
pub open spec fn min_nat(a: nat, b: nat) -> nat {
    if a <= b {
        a
    } else {
        b
    }
}

// Pruning
//
// ++++++++++++============++++++++++++============++++++++++++============

/// Deducts the anchor's count from its copy at offset `o`, if that copy is stored.
pub open spec fn prune_step(m: Map<Point, usize>, p: Point, o: Tick) -> Map<Point, usize> {
    let s = shift(p, o);
    if m.contains_key(s) {
        m.insert(s, (m[s] - min_nat(count(m, p), m[s] as nat)) as usize)
    } else {
        m
    }
}

/// `prune_step` at every offset, in order.
pub open spec fn prune_point(m: Map<Point, usize>, p: Point, offsets: Seq<Tick>) -> Map<Point, usize>
    decreases offsets.len(),
{
    if offsets.len() == 0 {
        m
    } else {
        prune_step(prune_point(m, p, offsets.drop_last()), p, offsets.last())
    }
}

/// `prune_point` at every key, in order.
pub open spec fn prune(m: Map<Point, usize>, keys: Seq<Point>, offsets: Seq<Tick>) -> Map<Point, usize>
    decreases keys.len(),
{
    if keys.len() == 0 {
        m
    } else {
        prune_point(prune(m, keys.drop_last(), offsets), keys.last(), offsets)
    }
}

// Extraction
//
// ++++++++++++============++++++++++++============++++++++++++============

/// The smaller of `c` and the capacities at `p`'s copies.
pub open spec fn base_of(cap: Map<Point, usize>, p: Point, c: nat, offsets: Seq<Tick>) -> nat
    decreases offsets.len(),
{
    if offsets.len() == 0 {
        c
    } else {
        min_nat(base_of(cap, p, c, offsets.drop_last()), count(cap, shift(p, offsets.last())))
    }
}

/// Deducts `b` from the capacity at each of `p`'s copies.
pub open spec fn deduct(cap: Map<Point, usize>, p: Point, offsets: Seq<Tick>, b: nat) -> Map<Point, usize>
    decreases offsets.len(),
{
    if offsets.len() == 0 {
        cap
    } else {
        let c1 = deduct(cap, p, offsets.drop_last(), b);
        let s = shift(p, offsets.last());
        c1.insert(s, (c1[s] - b) as usize)
    }
}

/// Capacities, kernel and residual after visiting `keys` in order.
pub open spec fn extract_state(m: Map<Point, usize>, keys: Seq<Point>, offsets: Seq<Tick>) -> (
    Map<Point, usize>,
    Map<Point, usize>,
    Map<Point, usize>,
)
    decreases keys.len(),
{
    if keys.len() == 0 {
        (m, Map::empty(), Map::empty())
    } else {
        let (cap, k, r) = extract_state(m, keys.drop_last(), offsets);
        let p = keys.last();
        let c = count(cap, p);
        let b = base_of(cap, p, c, offsets);
        let r1 = if c > b {
            r.insert(p, (c - b) as usize)
        } else {
            r
        };
        if b == 0 {
            (cap, k, r1)
        } else {
            (deduct(cap, p, offsets, b), k.insert(p, b as usize), r1)
        }
    }
}

/// A bounded TEC: the kernel came from pruning or extraction.
#[derive(Debug)]
pub struct BoundedTec(TransEqClass);

impl BoundedTec {
    /// The underlying TEC.
    pub closed spec fn tec(&self) -> TransEqClass {
        self.0
    }

    /// Deducts each point's covered multiplicity from its shifted copies,
    /// visiting points in ascending order and offsets in ascending order.
    ///
    /// The pruning is lossy: it trades precision for performance.
    pub fn new(tec: TransEqClass) -> (r: Self)
        requires
            shiftable(tec.kernel@, tec.scatter@),
        ensures
            r.tec().scatter == tec.scatter,
            r.tec().kernel@ == prune(tec.kernel@, sorted_keys(tec.kernel@.dom()), tec.scatter@),
            r.tec().kernel@.dom() == tec.kernel@.dom(),
            forall|p: Point| #[trigger] tec.kernel@.contains_key(p) ==> r.tec().kernel@[p] <= tec.kernel@[p],
    {
        let TransEqClass { scatter, mut kernel } = tec;
        let ghost m0 = kernel@;
        let keys = sorted_keys_of(&kernel);
        let n = scatter.len();
        let mut i: usize = 0;
        while i < keys.len()
            invariant
                0 <= i <= keys.len(),
                n == scatter@.len(),
                keys@.to_set() == m0.dom(),
                shiftable(m0, scatter@),
                kernel@ == prune(m0, keys@.take(i as int), scatter@),
            decreases keys.len() - i,
        {
            let p = keys[i];
            proof {
                assert(keys@.to_set().contains(keys@[i as int]));
            }
            let ghost start = kernel@;
            let mut j: usize = 0;
            while j < n
                invariant
                    0 <= j <= n,
                    n == scatter@.len(),
                    i < keys.len(),
                    p == keys@[i as int],
                    m0.contains_key(p),
                    shiftable(m0, scatter@),
                    kernel@ == prune_point(start, p, scatter@.take(j as int)),
                decreases n - j,
            {
                let o = scatter.get(j);
                proof {
                    assert(p.0 + scatter@[j as int] <= Tick::MAX);
                }
                let anchor = kernel.count(p);
                let s: Point = (p.0 + o, p.1);
                match kernel.get(s) {
                    Some(c) => {
                        let d = if anchor <= c { anchor } else { c };
                        kernel.insert(s, c - d);
                    },
                    None => {},
                }
                proof {
                    assert(scatter@.take(j as int + 1).drop_last() =~= scatter@.take(j as int));
                }
                j = j + 1;
            }
            proof {
                assert(scatter@.take(n as int) =~= scatter@);
                assert(keys@.take(i as int + 1).drop_last() =~= keys@.take(i as int));
            }
            i = i + 1;
        }
        proof {
            assert(keys@.take(keys@.len() as int) =~= keys@);
            lemma_prune_shrinks(m0, keys@, scatter@);
        }
        BoundedTec(TransEqClass { scatter, kernel })
    }

    /// Unwrap into the underlying (already bounded) TEC.
    pub fn into_inner(self) -> (r: TransEqClass)
        ensures
            r == self.tec(),
    {
        self.0
    }

    /// The underlying TEC.
    pub fn inner(&self) -> (r: &TransEqClass)
        ensures
            *r == self.tec(),
    {
        &self.0
    }
}

/// The stored points of a plane, strictly ascending.
pub fn sorted_keys_of(plane: &TePlane) -> (r: Vec<Point>)
    ensures
        strictly_ascending(r@),
        r@.to_set() == plane@.dom(),
        r@ == sorted_keys(plane@.dom()),
{
    let e = plane.entries();
    let mut ks: Vec<Point> = Vec::new();
    let mut i: usize = 0;
    while i < e.len()
        invariant
            0 <= i <= e.len(),
            enumerates(e@, plane@),
            ks@.len() == i,
            forall|j: int| 0 <= j < i ==> #[trigger] ks@[j] == e@[j].0,
        decreases e.len() - i,
    {
        ks.push(e[i].0);
        i = i + 1;
    }
    proof {
        assert(ks@.no_duplicates()) by {
            assert forall|a: int, b: int| 0 <= a < ks@.len() && 0 <= b < ks@.len() && a != b implies ks@[a] != ks@[b] by {
                if a < b {
                    assert(e@[a].0 != e@[b].0);
                } else {
                    assert(e@[b].0 != e@[a].0);
                }
            }
        }
        assert forall|p: Point| ks@.to_set().contains(p) <==> plane@.dom().contains(p) by {
            if plane@.dom().contains(p) {
                let j = choose|j: int| 0 <= j < e@.len() && #[trigger] e@[j].0 == p;
                assert(ks@[j] == p);
            }
            if ks@.to_set().contains(p) {
                let j = choose|j: int| 0 <= j < ks@.len() && ks@[j] == p;
                assert(plane@.contains_key(e@[j].0));
            }
        }
        assert(ks@.to_set() =~= plane@.dom());
        ks@.lemma_multiset_has_no_duplicates();
    }
    let ghost input = ks@;
    let r = sorted_points(ks);
    proof {
        assert forall|x: Point| r@.to_multiset().contains(x) implies r@.to_multiset().count(x) == 1 by {
        }
        r@.lemma_multiset_has_no_duplicates_conv();
        assert forall|a: int, b: int| 0 <= a < b < r@.len() implies #[trigger] point_lt(r@[a], r@[b]) by {
            let le = |x: Point, y: Point| point_le(x, y);
            assert(sorted_by(r@, le));
            assert(le(r@[a], r@[b]));
            assert(r@[a] != r@[b]);
        }
        assert forall|p: Point| r@.to_set().contains(p) <==> input.to_set().contains(p) by {
            assert(r@.contains(p) <==> r@.to_multiset().count(p) > 0);
            assert(input.contains(p) <==> input.to_multiset().count(p) > 0);
        }
        assert(r@.to_set() =~= plane@.dom());
        lemma_sorted_keys(r@);
    }
    r
}

} // verus!

verus! {

/// The smaller capacity bounds the base.
pub proof fn lemma_base_le(cap: Map<Point, usize>, p: Point, c: nat, offsets: Seq<Tick>)
    ensures
        base_of(cap, p, c, offsets) <= c,
        forall|i: int|
            0 <= i < offsets.len() ==> base_of(cap, p, c, offsets) <= count(cap, #[trigger] shift(p, offsets[i])),
    decreases offsets.len(),
{
    if offsets.len() > 0 {
        lemma_base_le(cap, p, c, offsets.drop_last());
        assert forall|i: int| 0 <= i < offsets.len() implies base_of(cap, p, c, offsets) <= count(
            cap,
            #[trigger] shift(p, offsets[i]),
        ) by {
            if i < offsets.len() - 1 {
                assert(offsets.drop_last()[i] == offsets[i]);
            }
        }
    }
}

/// Deducting leaves the points that are no copy of `p` alone.
pub proof fn lemma_deduct_frame(cap: Map<Point, usize>, p: Point, offsets: Seq<Tick>, b: nat, x: Point)
    requires
        forall|i: int| 0 <= i < offsets.len() ==> #[trigger] shift(p, offsets[i]) != x,
    ensures
        deduct(cap, p, offsets, b).contains_key(x) == cap.contains_key(x),
        deduct(cap, p, offsets, b)[x] == cap[x],
    decreases offsets.len(),
{
    if offsets.len() > 0 {
        assert forall|i: int| 0 <= i < offsets.drop_last().len() implies #[trigger] shift(p, offsets.drop_last()[i]) != x by {
            assert(offsets.drop_last()[i] == offsets[i]);
        }
        assert(shift(p, offsets[offsets.len() - 1]) != x);
        lemma_deduct_frame(cap, p, offsets.drop_last(), b, x);
    }
}

/// Distinct offsets give distinct copies.
pub proof fn lemma_shift_distinct(p: Point, offsets: Seq<Tick>, i: int, j: int)
    requires
        valid_scatter(offsets),
        0 <= i < offsets.len(),
        0 <= j < offsets.len(),
        i != j,
        p.0 + offsets[i] <= Tick::MAX,
        p.0 + offsets[j] <= Tick::MAX,
    ensures
        shift(p, offsets[i]) != shift(p, offsets[j]),
{
    if i < j {
        assert(offsets[i] < offsets[j]);
    } else {
        assert(offsets[j] < offsets[i]);
    }
}

/// Each copy of `p` loses `b`.
pub proof fn lemma_deduct_hit(cap: Map<Point, usize>, p: Point, offsets: Seq<Tick>, b: nat, i: int)
    requires
        valid_scatter(offsets),
        0 <= i < offsets.len(),
        forall|k: int| 0 <= k < offsets.len() ==> p.0 + #[trigger] offsets[k] <= Tick::MAX,
    ensures
        deduct(cap, p, offsets, b).contains_key(shift(p, offsets[i])),
        deduct(cap, p, offsets, b)[shift(p, offsets[i])] == (cap[shift(p, offsets[i])] - b) as usize,
    decreases offsets.len(),
{
    let last = offsets.len() - 1;
    let s = shift(p, offsets[i]);
    if i == last {
        assert forall|k: int| 0 <= k < offsets.drop_last().len() implies #[trigger] shift(
            p,
            offsets.drop_last()[k],
        ) != s by {
            assert(offsets.drop_last()[k] == offsets[k]);
            lemma_shift_distinct(p, offsets, k, i);
        }
        lemma_deduct_frame(cap, p, offsets.drop_last(), b, s);
    } else {
        let d = offsets.drop_last();
        assert(valid_scatter(d));
        assert forall|k: int| 0 <= k < d.len() implies p.0 + #[trigger] d[k] <= Tick::MAX by {
            assert(d[k] == offsets[k]);
        }
        assert(d[i] == offsets[i]);
        lemma_deduct_hit(cap, p, d, b, i);
        lemma_shift_distinct(p, offsets, i, last);
    }
}

impl BoundedTec {
    /// Extract a bounded TEC from `source` under `scatter` by directed
    /// stepwise deconvolution, leaving the residual in `source`.
    ///
    /// Points are visited in ascending order; each takes as its kernel count
    /// the smallest capacity among itself and its copies at the offsets,
    /// deducts it from the copies, and leaves the rest of its own capacity in
    /// the residual. Assumes a linear time axis: offsets never shift backward.
    pub fn extract_from(source: &mut TePlane, scatter: Scatter) -> (r: Self)
        requires
            scatter.wf(),
            shiftable(old(source)@, scatter@),
        ensures
            r.tec().scatter == scatter,
            r.tec().kernel@ == extract_state(old(source)@, sorted_keys(old(source)@.dom()), scatter@).1,
            final(source)@ == extract_state(old(source)@, sorted_keys(old(source)@.dom()), scatter@).2,
            forall|x: Point|
                #[trigger] count(old(source)@, x) == expand_count(r.tec().kernel@, scatter@, x) + count(
                    final(source)@,
                    x,
                ),
            forall|x: Point| #[trigger] expand_count(r.tec().kernel@, scatter@, x) <= count(old(source)@, x),
            forall|x: Point| #[trigger] r.tec().kernel@.contains_key(x) ==> r.tec().kernel@[x] > 0,
            forall|x: Point| #[trigger] final(source)@.contains_key(x) ==> final(source)@[x] > 0,
            forall|x: Point| #[trigger] final(source)@.contains_key(x) ==> exists|i: int|
                0 <= i < scatter@.len() && count(final(source)@, #[trigger] shift(x, scatter@[i])) == 0,
    {
        let ghost m0 = source@;
        let keys = sorted_keys_of(source);
        let mut plane = TePlane::new();
        std::mem::swap(&mut plane, source);
        let n = scatter.len();
        let mut kernel = TePlane::new();
        proof {
            scatter.lemma_wf();
        }
        let mut i: usize = 0;
        while i < keys.len()
            invariant
                0 <= i <= keys.len(),
                n == scatter@.len(),
                valid_scatter(scatter@),
                keys@.to_set() == m0.dom(),
                shiftable(m0, scatter@),
                (plane@, kernel@, source@) == extract_state(m0, keys@.take(i as int), scatter@),
            decreases keys.len() - i,
        {
            let p = keys[i];
            proof {
                assert(keys@.to_set().contains(keys@[i as int]));
                assert(keys@.take(i as int + 1).drop_last() =~= keys@.take(i as int));
                assert forall|k: int| 0 <= k < scatter@.len() implies p.0 + #[trigger] scatter@[k] <= Tick::MAX by {
                }
            }
            let ghost cap = plane@;
            let c = plane.count(p);
            let mut b = c;
            let mut j: usize = 0;
            while j < n
                invariant
                    0 <= j <= n,
                    n == scatter@.len(),
                    plane@ == cap,
                    c == count(cap, p),
                    forall|k: int| 0 <= k < scatter@.len() ==> p.0 + #[trigger] scatter@[k] <= Tick::MAX,
                    b == base_of(cap, p, c as nat, scatter@.take(j as int)),
                decreases n - j,
            {
                let o = scatter.get(j);
                let s: Point = (p.0 + o, p.1);
                let cs = plane.count(s);
                if cs < b {
                    b = cs;
                }
                proof {
                    assert(scatter@.take(j as int + 1).drop_last() =~= scatter@.take(j as int));
                }
                j = j + 1;
            }
            proof {
                assert(scatter@.take(n as int) =~= scatter@);
                lemma_base_le(cap, p, c as nat, scatter@);
            }
            if c > b {
                source.insert(p, c - b);
            }
            if b > 0 {
                let mut j: usize = 0;
                while j < n
                    invariant
                        0 <= j <= n,
                        n == scatter@.len(),
                        valid_scatter(scatter@),
                        0 < b,
                        b == base_of(cap, p, c as nat, scatter@),
                        forall|k: int| 0 <= k < scatter@.len() ==> p.0 + #[trigger] scatter@[k] <= Tick::MAX,
                        forall|k: int| 0 <= k < scatter@.len() ==> b <= count(cap, #[trigger] shift(p, scatter@[k])),
                        plane@ == deduct(cap, p, scatter@.take(j as int), b as nat),
                    decreases n - j,
                {
                    let o = scatter.get(j);
                    let s: Point = (p.0 + o, p.1);
                    proof {
                        let t = scatter@.take(j as int);
                        assert forall|k: int| 0 <= k < t.len() implies #[trigger] shift(p, t[k]) != s by {
                            assert(t[k] == scatter@[k]);
                            lemma_shift_distinct(p, scatter@, k, j as int);
                        }
                        lemma_deduct_frame(cap, p, t, b as nat, s);
                        assert(shift(p, scatter@[j as int]) == s);
                    }
                    let cs = plane.count(s);
                    plane.insert(s, cs - b);
                    proof {
                        assert(scatter@.take(j as int + 1).drop_last() =~= scatter@.take(j as int));
                    }
                    j = j + 1;
                }
                proof {
                    assert(scatter@.take(n as int) =~= scatter@);
                }
                kernel.insert(p, b);
            }
            i = i + 1;
        }
        proof {
            assert(keys@.take(keys@.len() as int) =~= keys@);
            lemma_extract_invariant(m0, keys@, scatter@, keys@.len() as int);
            assert forall|x: Point| #[trigger] count(m0, x) == expand_count(kernel@, scatter@, x) + count(source@, x) by {
                assert(pending(plane@, keys@, keys@.len() as int, x) == 0);
            }
            let st = extract_state(m0, keys@.take(keys@.len() as int), scatter@);
            assert(source@ == st.2);
            assert forall|x: Point| #[trigger] source@.contains_key(x) implies source@[x] > 0 by {
                assert(st.2.contains_key(x));
            }
            lemma_residual_no_copy(m0, keys@, scatter@, keys@.len() as int);
            assert forall|x: Point| #[trigger] source@.contains_key(x) implies exists|i: int|
                0 <= i < scatter@.len() && count(source@, #[trigger] shift(x, scatter@[i])) == 0 by {
                let i = choose|i: int| 0 <= i < scatter@.len() && count(st.0, #[trigger] shift(x, scatter@[i])) == 0
                    && !st.2.contains_key(shift(x, scatter@[i]));
                assert(count(source@, shift(x, scatter@[i])) == 0);
            }
        }
        BoundedTec(TransEqClass { scatter, kernel })
    }

    /// Non-consuming `extract_from`: the extracted TEC of a copy of `source`.
    pub fn extract(source: &TePlane, scatter: Scatter) -> (r: Self)
        requires
            scatter.wf(),
            shiftable(source@, scatter@),
        ensures
            r.tec().scatter == scatter,
            r.tec().kernel@ == extract_state(source@, sorted_keys(source@.dom()), scatter@).1,
            forall|x: Point| #[trigger] expand_count(r.tec().kernel@, scatter@, x) <= count(source@, x),
    {
        let mut copy = source.clone();
        Self::extract_from(&mut copy, scatter)
    }
}

} // verus!

verus! {

/// `x` is one of `p`'s copies at `offsets`.
pub open spec fn is_copy(p: Point, offsets: Seq<Tick>, x: Point) -> bool {
    exists|i: int| 0 <= i < offsets.len() && #[trigger] shift(p, offsets[i]) == x
}

/// `x` is still to be visited after the first `n` keys.
pub open spec fn unvisited(keys: Seq<Point>, n: int, x: Point) -> bool {
    exists|j: int| n <= j < keys.len() && keys[j] == x
}

/// `x` is among the first `n` keys.
pub open spec fn visited(keys: Seq<Point>, n: int, x: Point) -> bool {
    exists|j: int| 0 <= j < n && keys[j] == x
}

/// The capacity still pending at `x` after the first `n` keys.
pub open spec fn pending(cap: Map<Point, usize>, keys: Seq<Point>, n: int, x: Point) -> nat {
    if unvisited(keys, n, x) {
        count(cap, x)
    } else {
        0
    }
}

/// Adding `b` at a fresh point `p` adds `b` at `p` and at each copy of `p`.
pub proof fn lemma_expand_insert(k: Map<Point, usize>, p: Point, b: usize, offsets: Seq<Tick>, x: Point)
    requires
        !k.contains_key(p),
        valid_scatter(offsets),
        forall|i: int| 0 <= i < offsets.len() ==> p.0 + #[trigger] offsets[i] <= Tick::MAX,
    ensures
        expand_count(k.insert(p, b), offsets, x) == expand_count(k, offsets, x) + (if x == p {
            b as nat
        } else {
            0
        }) + (if is_copy(p, offsets, x) {
            b as nat
        } else {
            0
        }),
    decreases offsets.len(),
{
    let k1 = k.insert(p, b);
    if offsets.len() == 0 {
        if x == p {
            assert(count(k1, x) == b);
        } else {
            assert(count(k1, x) == count(k, x));
        }
    } else {
        let d = offsets.drop_last();
        let o = offsets.last();
        let last = offsets.len() - 1;
        assert(valid_scatter(d));
        assert forall|i: int| 0 <= i < d.len() implies p.0 + #[trigger] d[i] <= Tick::MAX by {
            assert(d[i] == offsets[i]);
        }
        lemma_expand_insert(k, p, b, d, x);
        assert(p.0 + offsets[last] <= Tick::MAX);
        // the last offset's term
        if x.0 >= o && ((x.0 - o) as Tick, x.1) == p {
            assert(shift(p, offsets[last]) == x);
            assert(back_count(k1, x, o) == back_count(k, x, o) + b);
            assert(!is_copy(p, d, x)) by {
                if is_copy(p, d, x) {
                    let i = choose|i: int| 0 <= i < d.len() && #[trigger] shift(p, d[i]) == x;
                    assert(d[i] == offsets[i]);
                    lemma_shift_distinct(p, offsets, i, last);
                }
            }
            assert(is_copy(p, offsets, x));
            assert(x != p);
        } else {
            assert(back_count(k1, x, o) == back_count(k, x, o));
            assert(is_copy(p, offsets, x) == is_copy(p, d, x)) by {
                if is_copy(p, offsets, x) {
                    let i = choose|i: int| 0 <= i < offsets.len() && #[trigger] shift(p, offsets[i]) == x;
                    if i == last {
                        assert(x.0 >= o);
                        assert(false);
                    }
                    assert(d[i] == offsets[i]);
                    assert(shift(p, d[i]) == x);
                }
                if is_copy(p, d, x) {
                    let i = choose|i: int| 0 <= i < d.len() && #[trigger] shift(p, d[i]) == x;
                    assert(d[i] == offsets[i]);
                    assert(shift(p, offsets[i]) == x);
                }
            }
        }
    }
}

/// Deducting `b` at the copies of `p` lowers each copy by `b`.
pub proof fn lemma_deduct_count(cap: Map<Point, usize>, p: Point, offsets: Seq<Tick>, b: nat, x: Point)
    requires
        valid_scatter(offsets),
        forall|i: int| 0 <= i < offsets.len() ==> p.0 + #[trigger] offsets[i] <= Tick::MAX,
        forall|i: int| 0 <= i < offsets.len() ==> b <= count(cap, #[trigger] shift(p, offsets[i])),
        b > 0,
    ensures
        deduct(cap, p, offsets, b).dom() == cap.dom(),
        count(deduct(cap, p, offsets, b), x) == count(cap, x) - (if is_copy(p, offsets, x) {
            b
        } else {
            0
        }),
{
    if is_copy(p, offsets, x) {
        let i = choose|i: int| 0 <= i < offsets.len() && #[trigger] shift(p, offsets[i]) == x;
        lemma_deduct_hit(cap, p, offsets, b, i);
        assert(count(cap, shift(p, offsets[i])) >= b);
    } else {
        lemma_deduct_frame(cap, p, offsets, b, x);
    }
    assert forall|y: Point| deduct(cap, p, offsets, b).dom().contains(y) <==> cap.dom().contains(y) by {
        if is_copy(p, offsets, y) {
            let i = choose|i: int| 0 <= i < offsets.len() && #[trigger] shift(p, offsets[i]) == y;
            lemma_deduct_hit(cap, p, offsets, b, i);
            assert(count(cap, shift(p, offsets[i])) >= b);
        } else {
            lemma_deduct_frame(cap, p, offsets, b, y);
        }
    }
    assert(deduct(cap, p, offsets, b).dom() =~= cap.dom());
}

/// What stays true after visiting the first `n` keys: every point's count is
/// split between the kernel's expansion, the residual and what is still pending.
pub proof fn lemma_extract_invariant(m0: Map<Point, usize>, keys: Seq<Point>, offsets: Seq<Tick>, n: int)
    requires
        strictly_ascending(keys),
        keys.to_set() == m0.dom(),
        valid_scatter(offsets),
        shiftable(m0, offsets),
        0 <= n <= keys.len(),
    ensures
        ({
            let (cap, k, r) = extract_state(m0, keys.take(n), offsets);
            &&& cap.dom() == m0.dom()
            &&& forall|x: Point| #[trigger] k.contains_key(x) ==> visited(keys, n, x) && k[x] > 0
            &&& forall|x: Point| #[trigger] r.contains_key(x) ==> visited(keys, n, x) && r[x] > 0
            &&& forall|x: Point|
                #[trigger] count(m0, x) == expand_count(k, offsets, x) + count(r, x) + pending(cap, keys, n, x)
        }),
    decreases n,
{
    if n == 0 {
        let (cap, k, r) = extract_state(m0, keys.take(0), offsets);
        assert(keys.take(0).len() == 0);
        assert forall|x: Point| #[trigger] count(m0, x) == expand_count(k, offsets, x) + count(r, x) + pending(cap, keys, 0, x) by {
            lemma_expand_empty(offsets, x);
            if m0.contains_key(x) {
                assert(keys.to_set().contains(x));
                let j = choose|j: int| 0 <= j < keys.len() && keys[j] == x;
                assert(unvisited(keys, 0, x));
            }
        }
    } else {
        lemma_extract_invariant(m0, keys, offsets, n - 1);
        let t = keys.take(n);
        assert(t.drop_last() =~= keys.take(n - 1));
        let (cap, k, r) = extract_state(m0, keys.take(n - 1), offsets);
        let p = keys[n - 1];
        assert(t.last() == p);
        let c = count(cap, p);
        let b = base_of(cap, p, c, offsets);
        lemma_base_le(cap, p, c, offsets);
        let (cap1, k1, r1) = extract_state(m0, t, offsets);
        assert(keys.to_set().contains(p));
        assert(m0.contains_key(p));
        assert forall|i: int| 0 <= i < offsets.len() implies p.0 + #[trigger] offsets[i] <= Tick::MAX by {
        }
        // p is fresh in the kernel and the residual
        assert(!k.contains_key(p)) by {
            if k.contains_key(p) {
                let j = choose|j: int| 0 <= j < n - 1 && keys[j] == p;
                assert(point_lt(keys[j], keys[n - 1]));
            }
        }
        assert(!r.contains_key(p)) by {
            if r.contains_key(p) {
                let j = choose|j: int| 0 <= j < n - 1 && keys[j] == p;
                assert(point_lt(keys[j], keys[n - 1]));
            }
        }
        assert(unvisited(keys, n - 1, p));
        assert forall|x: Point| unvisited(keys, n, x) <==> (unvisited(keys, n - 1, x) && x != p) by {
            if unvisited(keys, n - 1, x) && x != p {
                let j = choose|j: int| n - 1 <= j < keys.len() && keys[j] == x;
                assert(j != n - 1);
            }
            if unvisited(keys, n, x) {
                let j = choose|j: int| n <= j < keys.len() && keys[j] == x;
                assert(point_lt(keys[n - 1], keys[j]));
            }
        }
        assert forall|x: Point| visited(keys, n, x) <==> (visited(keys, n - 1, x) || x == p) by {
            if visited(keys, n, x) {
                let j = choose|j: int| 0 <= j < n && keys[j] == x;
                if j < n - 1 {
                    assert(visited(keys, n - 1, x));
                }
            }
            if visited(keys, n - 1, x) {
                let j = choose|j: int| 0 <= j < n - 1 && keys[j] == x;
                assert(visited(keys, n, x));
            }
        }
        if b == 0 {
            assert forall|x: Point| #[trigger] count(m0, x) == expand_count(k1, offsets, x) + count(r1, x) + pending(cap1, keys, n, x) by {
                if x == p {
                } else {
                }
            }
        } else {
            assert forall|i: int| 0 <= i < offsets.len() implies b <= count(cap, #[trigger] shift(p, offsets[i])) by {
            }
            lemma_deduct_count(cap, p, offsets, b, p);
            assert forall|x: Point| #[trigger] count(m0, x) == expand_count(k1, offsets, x) + count(r1, x) + pending(cap1, keys, n, x) by {
                lemma_expand_insert(k, p, b as usize, offsets, x);
                lemma_deduct_count(cap, p, offsets, b, x);
                if is_copy(p, offsets, x) {
                    let i = choose|i: int| 0 <= i < offsets.len() && #[trigger] shift(p, offsets[i]) == x;
                    assert(offsets[i] > 0);
                    assert(x != p);
                    assert(count(cap, x) >= b);
                    assert(cap.contains_key(x));
                    assert(keys.to_set().contains(x));
                    let j = choose|j: int| 0 <= j < keys.len() && keys[j] == x;
                    assert(point_lt(p, x));
                    if j <= n - 1 {
                        if j < n - 1 {
                            assert(point_lt(keys[j], keys[n - 1]));
                        }
                        assert(false);
                    }
                    assert(unvisited(keys, n, x));
                } else if x == p {
                    assert(!is_copy(p, offsets, x));
                } else {
                }
            }
        }
    }
}

/// Where the base falls short of the anchor's capacity, it is the capacity
/// of one of the copies.
proof fn lemma_base_witness(cap: Map<Point, usize>, p: Point, c: nat, offsets: Seq<Tick>)
    ensures
        base_of(cap, p, c, offsets) < c ==> exists|i: int|
            0 <= i < offsets.len() && base_of(cap, p, c, offsets) == count(cap, #[trigger] shift(p, offsets[i])),
    decreases offsets.len(),
{
    if offsets.len() > 0 {
        let d = offsets.drop_last();
        lemma_base_witness(cap, p, c, d);
        let last = offsets.len() - 1;
        if base_of(cap, p, c, offsets) < c {
            if base_of(cap, p, c, offsets) == count(cap, shift(p, offsets[last])) {
                assert(0 <= last < offsets.len());
            } else {
                assert(base_of(cap, p, c, offsets) == base_of(cap, p, c, d));
                let i = choose|i: int| 0 <= i < d.len() && base_of(cap, p, c, d) == count(cap, #[trigger] shift(p, d[i]));
                assert(d[i] == offsets[i]);
                assert(0 <= i < offsets.len() && base_of(cap, p, c, offsets) == count(cap, shift(p, offsets[i])));
            }
        }
    }
}

/// After visiting the first `n` keys, every point of the residual has a copy
/// whose capacity is spent and which the residual does not hold.
pub proof fn lemma_residual_no_copy(m0: Map<Point, usize>, keys: Seq<Point>, offsets: Seq<Tick>, n: int)
    requires
        strictly_ascending(keys),
        keys.to_set() == m0.dom(),
        valid_scatter(offsets),
        shiftable(m0, offsets),
        0 <= n <= keys.len(),
    ensures
        ({
            let (cap, k, r) = extract_state(m0, keys.take(n), offsets);
            forall|x: Point| #[trigger] r.contains_key(x) ==> exists|i: int|
                0 <= i < offsets.len() && count(cap, #[trigger] shift(x, offsets[i])) == 0
                    && !r.contains_key(shift(x, offsets[i]))
        }),
    decreases n,
{
    if n > 0 {
        lemma_residual_no_copy(m0, keys, offsets, n - 1);
        lemma_extract_invariant(m0, keys, offsets, n - 1);
        let t = keys.take(n);
        assert(t.drop_last() =~= keys.take(n - 1));
        let (cap, k, r) = extract_state(m0, keys.take(n - 1), offsets);
        let p = keys[n - 1];
        assert(t.last() == p);
        let c = count(cap, p);
        let b = base_of(cap, p, c, offsets);
        lemma_base_le(cap, p, c, offsets);
        lemma_base_witness(cap, p, c, offsets);
        let (cap1, k1, r1) = extract_state(m0, t, offsets);
        assert(keys.to_set().contains(p));
        assert(m0.contains_key(p));
        assert forall|i: int| 0 <= i < offsets.len() implies p.0 + #[trigger] offsets[i] <= Tick::MAX by {}
        assert forall|i: int| 0 <= i < offsets.len() implies b <= count(cap, #[trigger] shift(p, offsets[i])) by {}
        assert forall|x: Point| #[trigger] r1.contains_key(x) implies exists|i: int|
            0 <= i < offsets.len() && count(cap1, #[trigger] shift(x, offsets[i])) == 0
                && !r1.contains_key(shift(x, offsets[i])) by {
            if r.contains_key(x) {
                let i = choose|i: int| 0 <= i < offsets.len() && count(cap, #[trigger] shift(x, offsets[i])) == 0
                    && !r.contains_key(shift(x, offsets[i]));
                let y = shift(x, offsets[i]);
                if b > 0 {
                    lemma_deduct_count(cap, p, offsets, b, y);
                    if is_copy(p, offsets, y) {
                        let j = choose|j: int| 0 <= j < offsets.len() && #[trigger] shift(p, offsets[j]) == y;
                        assert(b <= count(cap, shift(p, offsets[j])));
                    }
                }
                assert(count(cap1, y) == 0);
                assert(y != p || c == 0);
                assert(!r1.contains_key(y));
                assert(0 <= i < offsets.len() && count(cap1, shift(x, offsets[i])) == 0 && !r1.contains_key(shift(x, offsets[i])));
            } else {
                assert(x == p && c > b);
                let i = choose|i: int| 0 <= i < offsets.len() && b == count(cap, #[trigger] shift(p, offsets[i]));
                let y = shift(p, offsets[i]);
                assert(offsets[i] > 0);
                if b > 0 {
                    lemma_deduct_count(cap, p, offsets, b, y);
                    assert(is_copy(p, offsets, y));
                }
                assert(count(cap1, y) == 0);
                assert(!r.contains_key(y)) by {
                    if r.contains_key(y) {
                        let j = choose|j: int| 0 <= j < n - 1 && keys[j] == y;
                        assert(point_lt(keys[j], keys[n - 1]));
                    }
                }
                assert(y != p);
                assert(!r1.contains_key(y));
            }
        }
    }
}

/// Extracting without changing the source gives the TEC that extracting from
/// a copy of it gives: whatever [`BoundedTec::extract`] returns for a plane
/// and a scatter equals what [`BoundedTec::extract_from`] returns for a plane
/// with the same view and the same scatter.
pub proof fn lemma_extract_matches_extract_from(m: Map<Point, usize>, scatter: Scatter, a: BoundedTec, b: BoundedTec)
    requires
        a.tec().scatter == scatter,
        a.tec().kernel@ == extract_state(m, sorted_keys(m.dom()), scatter@).1,
        b.tec().scatter == scatter,
        b.tec().kernel@ == extract_state(m, sorted_keys(m.dom()), scatter@).1,
    ensures
        a.tec().scatter == b.tec().scatter,
        a.tec().kernel@ == b.tec().kernel@,
{
}

/// An empty kernel expands to nothing.
pub proof fn lemma_expand_empty(offsets: Seq<Tick>, x: Point)
    ensures
        expand_count(Map::<Point, usize>::empty(), offsets, x) == 0,
    decreases offsets.len(),
{
    if offsets.len() > 0 {
        lemma_expand_empty(offsets.drop_last(), x);
    }
}

} // verus!

verus! {

/// Pruning at one point lowers each stored copy of it by the count the
/// point holds, stopping at zero, and leaves every other point as it was.
pub proof fn lemma_prune_point_deducts(m: Map<Point, usize>, p: Point, offsets: Seq<Tick>, x: Point)
    requires
        valid_scatter(offsets),
        forall|i: int| 0 <= i < offsets.len() ==> p.0 + #[trigger] offsets[i] <= Tick::MAX,
    ensures
        prune_point(m, p, offsets).contains_key(x) == m.contains_key(x),
        is_copy(p, offsets, x) && m.contains_key(x) ==> prune_point(m, p, offsets)[x] == (if m[x] >= count(m, p) {
            m[x] - count(m, p)
        } else {
            0
        }),
        !is_copy(p, offsets, x) ==> prune_point(m, p, offsets)[x] == m[x],
    decreases offsets.len(),
{
    if offsets.len() > 0 {
        let d = offsets.drop_last();
        let last = offsets.len() - 1;
        let o = offsets[last];
        assert(valid_scatter(d));
        assert forall|i: int| 0 <= i < d.len() implies p.0 + #[trigger] d[i] <= Tick::MAX by {
            assert(d[i] == offsets[i]);
        }
        let m1 = prune_point(m, p, d);
        lemma_prune_point_deducts(m, p, d, x);
        lemma_prune_point_deducts(m, p, d, p);
        let s = shift(p, o);
        lemma_prune_point_deducts(m, p, d, s);
        assert(o > 0 && p.0 + o <= Tick::MAX);
        // p is no copy of itself
        assert(!is_copy(p, d, p)) by {
            if is_copy(p, d, p) {
                let i = choose|i: int| 0 <= i < d.len() && #[trigger] shift(p, d[i]) == p;
                assert(d[i] == offsets[i] && offsets[i] > 0);
            }
        }
        assert(count(m1, p) == count(m, p));
        // the last copy is no copy under the other offsets
        assert(!is_copy(p, d, s)) by {
            if is_copy(p, d, s) {
                let i = choose|i: int| 0 <= i < d.len() && #[trigger] shift(p, d[i]) == s;
                assert(d[i] == offsets[i]);
                lemma_shift_distinct(p, offsets, i, last);
            }
        }
        assert(is_copy(p, offsets, x) == (is_copy(p, d, x) || x == s)) by {
            if is_copy(p, offsets, x) {
                let i = choose|i: int| 0 <= i < offsets.len() && #[trigger] shift(p, offsets[i]) == x;
                if i < last {
                    assert(d[i] == offsets[i]);
                    assert(shift(p, d[i]) == x);
                }
            }
            if is_copy(p, d, x) {
                let i = choose|i: int| 0 <= i < d.len() && #[trigger] shift(p, d[i]) == x;
                assert(d[i] == offsets[i]);
                assert(shift(p, offsets[i]) == x);
            }
            if x == s {
                assert(shift(p, offsets[last]) == x);
            }
        }
    }
}

/// Each visit of the pruning lowers every stored copy of the visited key by
/// the count that key holds at its visit, stopping at zero, and leaves all
/// other points alone.
pub proof fn lemma_prune_visit(m: Map<Point, usize>, keys: Seq<Point>, offsets: Seq<Tick>, j: int, x: Point)
    requires
        valid_scatter(offsets),
        0 <= j < keys.len(),
        forall|i: int| 0 <= i < offsets.len() ==> keys[j].0 + #[trigger] offsets[i] <= Tick::MAX,
    ensures
        ({
            let before = prune(m, keys.take(j), offsets);
            let after = prune(m, keys.take(j + 1), offsets);
            let p = keys[j];
            &&& after.contains_key(x) == before.contains_key(x)
            &&& is_copy(p, offsets, x) && before.contains_key(x) ==> after[x] == (if before[x] >= count(before, p) {
                before[x] - count(before, p)
            } else {
                0
            })
            &&& !is_copy(p, offsets, x) ==> after[x] == before[x]
        }),
{
    assert(keys.take(j + 1).drop_last() =~= keys.take(j));
    assert(keys.take(j + 1).last() == keys[j]);
    lemma_prune_point_deducts(prune(m, keys.take(j), offsets), keys[j], offsets, x);
}

/// Pruning keeps the stored points and never raises a count.
pub proof fn lemma_prune_shrinks(m: Map<Point, usize>, keys: Seq<Point>, offsets: Seq<Tick>)
    ensures
        prune(m, keys, offsets).dom() == m.dom(),
        forall|p: Point| #[trigger] m.contains_key(p) ==> prune(m, keys, offsets)[p] <= m[p],
    decreases keys.len(),
{
    if keys.len() > 0 {
        lemma_prune_shrinks(m, keys.drop_last(), offsets);
        lemma_prune_point_shrinks(prune(m, keys.drop_last(), offsets), keys.last(), offsets);
    }
}

/// Pruning at one point keeps the stored points and never raises a count.
pub proof fn lemma_prune_point_shrinks(m: Map<Point, usize>, p: Point, offsets: Seq<Tick>)
    ensures
        prune_point(m, p, offsets).dom() == m.dom(),
        forall|q: Point| #[trigger] m.contains_key(q) ==> prune_point(m, p, offsets)[q] <= m[q],
    decreases offsets.len(),
{
    if offsets.len() > 0 {
        lemma_prune_point_shrinks(m, p, offsets.drop_last());
        let m1 = prune_point(m, p, offsets.drop_last());
        let s = shift(p, offsets.last());
        if m1.contains_key(s) {
            assert(prune_step(m1, p, offsets.last()).dom() =~= m1.dom());
        }
    }
}

} // verus!
