//! Translation offsets: a set of positive ticks, kept ascending.

use vstd::prelude::*;
use super::order::Tick;

verus! {

/// Strictly ascending positive offsets.
pub open spec fn valid_scatter(s: Seq<Tick>) -> bool {
    &&& forall|i: int, j: int| 0 <= i < j < s.len() ==> #[trigger] s[i] < #[trigger] s[j]
    &&& forall|i: int| 0 <= i < s.len() ==> #[trigger] s[i] > 0
}

/// Translation offsets (ascending, excluding 0: zero is implied).
#[derive(Clone, Debug)]
pub struct Scatter {
    offsets: Vec<Tick>,
}

impl View for Scatter {
    type V = Seq<Tick>;

    closed spec fn view(&self) -> Seq<Tick> {
        self.offsets@
    }
}

impl Scatter {
    /// The offsets are strictly ascending and positive.
    pub closed spec fn wf(&self) -> bool {
        valid_scatter(self.offsets@)
    }

    pub proof fn lemma_wf(&self)
        requires
            self.wf(),
        ensures
            valid_scatter(self@),
    {
    }

    /// No offsets.
    pub fn new() -> (r: Self)
        ensures
            r.wf(),
            r@ == Seq::<Tick>::empty(),
    {
        Scatter { offsets: Vec::new() }
    }

    /// The set of the positive offsets among `ticks`; zeros and repeats are dropped.
    pub fn from_offsets(ticks: Vec<Tick>) -> (r: Self)
        ensures
            r.wf(),
            r@.to_set() == ticks@.to_set().filter(|t: Tick| t > 0),
    {
        let mut out: Vec<Tick> = Vec::new();
        let mut i: usize = 0;
        while i < ticks.len()
            invariant
                0 <= i <= ticks.len(),
                valid_scatter(out@),
                out@.to_set() == ticks@.take(i as int).to_set().filter(|t: Tick| t > 0),
            decreases ticks.len() - i,
        {
            let t = ticks[i];
            let ghost prev = out@;
            proof {
                assert(ticks@.take(i as int + 1) =~= ticks@.take(i as int).push(t));
                ticks@.take(i as int).lemma_push_to_set_commute(t);
            }
            if t > 0 {
                let pos = Self::position(&out, t);
                if pos < out.len() && out[pos] == t {
                    proof {
                        assert(out@.to_set().contains(t));
                        assert(out@.to_set() =~= ticks@.take(i as int + 1).to_set().filter(|t: Tick| t > 0));
                    }
                } else {
                    out.insert(pos, t);
                    proof {
                        assert(out@ == prev.insert(pos as int, t));
                        assert forall|a: int, b: int| 0 <= a < b < out@.len() implies #[trigger] out@[a] < #[trigger] out@[b] by {
                            if a < pos && b > pos {
                                assert(out@[b] == prev[b - 1]);
                            }
                            if a > pos {
                                assert(out@[a] == prev[a - 1]);
                                assert(out@[b] == prev[b - 1]);
                            }
                            if a == pos && b > pos {
                                assert(out@[b] == prev[b - 1]);
                                assert(prev[b - 1] >= t);
                            }
                        }
                        assert forall|x: Tick| out@.to_set().contains(x) <==> (prev.to_set().contains(x) || x == t) by {
                            if out@.to_set().contains(x) {
                                let k = choose|k: int| 0 <= k < out@.len() && out@[k] == x;
                                if k < pos { assert(prev[k] == x); }
                                if k > pos { assert(prev[k - 1] == x); }
                            }
                            if prev.to_set().contains(x) {
                                let k = choose|k: int| 0 <= k < prev.len() && prev[k] == x;
                                if k < pos { assert(out@[k] == x); } else { assert(out@[k + 1] == x); }
                            }
                            if x == t { assert(out@[pos as int] == x); }
                        }
                        let ghost lhs = ticks@.take(i as int + 1).to_set().filter(|t: Tick| t > 0);
                        assert forall|x: Tick| lhs.contains(x) <==> out@.to_set().contains(x) by {
                            assert(ticks@.take(i as int + 1).to_set().contains(x) <==> (ticks@.take(i as int).to_set().contains(x) || x == t));
                            assert(prev.to_set().contains(x) <==> (ticks@.take(i as int).to_set().contains(x) && x > 0));
                        }
                        assert(out@.to_set() =~= lhs);
                    }
                }
            } else {
                proof {
                    assert(out@.to_set() =~= ticks@.take(i as int + 1).to_set().filter(|t: Tick| t > 0));
                }
            }
            i = i + 1;
        }
        proof {
            assert(ticks@.take(ticks@.len() as int) =~= ticks@);
        }
        Scatter { offsets: out }
    }

    /// The first index at which `t` belongs in the ascending `v`.
    fn position(v: &Vec<Tick>, t: Tick) -> (r: usize)
        requires
            valid_scatter(v@),
        ensures
            r <= v.len(),
            forall|k: int| 0 <= k < r ==> #[trigger] v@[k] < t,
            r < v.len() ==> v@[r as int] >= t,
    {
        let mut k: usize = 0;
        while k < v.len() && v[k] < t
            invariant
                0 <= k <= v.len(),
                forall|j: int| 0 <= j < k ==> #[trigger] v@[j] < t,
            decreases v.len() - k,
        {
            k = k + 1;
        }
        k
    }

    /// The offsets, ascending.
    pub fn offsets(&self) -> (r: Vec<Tick>)
        ensures
            r@ == self@,
    {
        let mut out: Vec<Tick> = Vec::new();
        let mut i: usize = 0;
        while i < self.offsets.len()
            invariant
                0 <= i <= self.offsets.len(),
                out@ == self.offsets@.take(i as int),
            decreases self.offsets.len() - i,
        {
            out.push(self.offsets[i]);
            i = i + 1;
            proof {
                assert(out@ =~= self.offsets@.take(i as int));
            }
        }
        proof {
            assert(self.offsets@.take(self.offsets@.len() as int) =~= self.offsets@);
        }
        out
    }

    /// The offset at index `i`.
    pub fn get(&self, i: usize) -> (r: Tick)
        requires
            i < self@.len(),
        ensures
            r == self@[i as int],
    {
        self.offsets[i]
    }

    /// Number of offsets.
    pub fn len(&self) -> (r: usize)
        ensures
            r == self@.len(),
    {
        self.offsets.len()
    }

    /// The offsets of both, ascending.
    pub fn union(&self, other: &Self) -> (r: Self)
        requires
            self.wf(),
            other.wf(),
        ensures
            r.wf(),
            r@.to_set() == self@.to_set() + other@.to_set(),
    {
        let a = &self.offsets;
        let b = &other.offsets;
        let mut out: Vec<Tick> = Vec::new();
        let mut i: usize = 0;
        let mut j: usize = 0;
        while i < a.len() || j < b.len()
            invariant
                valid_scatter(a@),
                valid_scatter(b@),
                0 <= i <= a.len(),
                0 <= j <= b.len(),
                valid_scatter(out@),
                out@.to_set() == a@.take(i as int).to_set() + b@.take(j as int).to_set(),
                out@.len() > 0 ==> (i < a.len() ==> out@.last() < a@[i as int]),
                out@.len() > 0 ==> (j < b.len() ==> out@.last() < b@[j as int]),
            decreases a.len() + b.len() - i - j,
        {
            let ghost prev = out@;
            let ghost (pi, pj) = (i, j);
            let x: Tick;
            if j >= b.len() || (i < a.len() && a[i] < b[j]) {
                x = a[i];
                i = i + 1;
            } else if i >= a.len() || b[j] < a[i] {
                x = b[j];
                j = j + 1;
            } else {
                x = a[i];
                i = i + 1;
                j = j + 1;
            }
            out.push(x);
            proof {
                assert(a@.take(i as int).to_set() =~= a@.take(pi as int).to_set() + (if i > pi { set![a@[pi as int]] } else { Set::empty() })) by {
                    if i > pi {
                        assert(a@.take(i as int) =~= a@.take(pi as int).push(a@[pi as int]));
                        a@.take(pi as int).lemma_push_to_set_commute(a@[pi as int]);
                    } else {
                        assert(a@.take(i as int) =~= a@.take(pi as int));
                    }
                }
                assert(b@.take(j as int).to_set() =~= b@.take(pj as int).to_set() + (if j > pj { set![b@[pj as int]] } else { Set::empty() })) by {
                    if j > pj {
                        assert(b@.take(j as int) =~= b@.take(pj as int).push(b@[pj as int]));
                        b@.take(pj as int).lemma_push_to_set_commute(b@[pj as int]);
                    } else {
                        assert(b@.take(j as int) =~= b@.take(pj as int));
                    }
                }
                assert(out@ =~= prev.push(x));
                prev.lemma_push_to_set_commute(x);
                assert(out@.to_set() =~= a@.take(i as int).to_set() + b@.take(j as int).to_set());
            }
        }
        proof {
            assert(a@.take(a@.len() as int) =~= a@);
            assert(b@.take(b@.len() as int) =~= b@);
        }
        Scatter { offsets: out }
    }
}

} // verus!
