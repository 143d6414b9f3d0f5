//! Decomposition of a plane under given rules: one bounded TEC per rule,
//! each extracted from what the earlier ones left, and the rest kept.

use vstd::prelude::*;
use super::order::{Point, Tick, sorted_keys};
use super::counting::count;
use super::plane::TePlane;
use super::scatter::Scatter;
use super::tec::{TransEqClass, expand_count, shiftable};
use super::bounded::{BoundedTec, extract_state, prune, prune_point};
use vstd::string::StrSliceExecFns;
use vstd::string::StringExecFns;

verus! {

/// What is left of `m` after extracting under the first `i` scatters in turn.
pub open spec fn residual_after(m: Map<Point, usize>, scatters: Seq<Seq<Tick>>, i: int) -> Map<Point, usize>
    decreases i,
{
    if i <= 0 {
        m
    } else {
        let prev = residual_after(m, scatters, i - 1);
        extract_state(prev, sorted_keys(prev.dom()), scatters[i - 1]).2
    }
}

/// The multiplicity at `x` of all the TECs' expansions together.
pub open spec fn tecs_count(tecs: Seq<BoundedTec>, x: Point) -> nat
    decreases tecs.len(),
{
    if tecs.len() == 0 {
        0
    } else {
        tecs_count(tecs.drop_last(), x) + expand_count(tecs.last().tec().kernel@, tecs.last().tec().scatter@, x)
    }
}

/// Every point of `m` can be shifted by every offset of every rule.
pub open spec fn rules_fit(m: Map<Point, usize>, rules: Seq<Vec<Tick>>) -> bool {
    forall|p: Point, i: int, j: int|
        #![trigger m.contains_key(p), rules[i]@[j]]
        m.contains_key(p) && 0 <= i < rules.len() && 0 <= j < rules[i]@.len() ==> p.0 + rules[i]@[j] <= Tick::MAX
}

/// The scatters of the first `n` TECs.
pub open spec fn scatters_of(tecs: Seq<BoundedTec>, n: int) -> Seq<Seq<Tick>> {
    Seq::new(n as nat, |i: int| tecs[i].tec().scatter@)
}

/// Pruning under no offsets changes nothing.
proof fn lemma_prune_no_offsets(m: Map<Point, usize>, keys: Seq<Point>)
    ensures
        prune(m, keys, Seq::empty()) == m,
    decreases keys.len(),
{
    if keys.len() > 0 {
        lemma_prune_no_offsets(m, keys.drop_last());
        assert(prune_point(m, keys.last(), Seq::<Tick>::empty()) == m);
    }
}

/// The residuals depend on the first `i` scatters only.
proof fn lemma_residual_prefix(m: Map<Point, usize>, a: Seq<Seq<Tick>>, b: Seq<Seq<Tick>>, i: int)
    requires
        0 <= i <= a.len(),
        0 <= i <= b.len(),
        forall|k: int| 0 <= k < i ==> #[trigger] a[k] == b[k],
    ensures
        residual_after(m, a, i) == residual_after(m, b, i),
    decreases i,
{
    if i > 0 {
        lemma_residual_prefix(m, a, b, i - 1);
        assert(a[i - 1] == b[i - 1]);
    }
}

/// Extracts one bounded TEC per rule, in order, each from what the earlier
/// ones left (a rule's offsets taken as a set, zero dropped); what is left
/// at the end, if anything, becomes a last TEC without offsets.
pub fn match_rules(plane: TePlane, rules: Vec<Vec<Tick>>) -> (r: Vec<BoundedTec>)
    requires
        rules_fit(plane@, rules@),
    ensures
        r@.len() == rules@.len() || r@.len() == rules@.len() + 1,
        forall|i: int| 0 <= i < rules@.len() ==> (#[trigger] r@[i]).tec().scatter.wf()
            && r@[i].tec().scatter@.to_set() == rules@[i]@.to_set().filter(|t: Tick| t > 0),
        forall|i: int| 0 <= i < rules@.len() ==> (#[trigger] r@[i]).tec().kernel@ == ({
            let prev = residual_after(plane@, scatters_of(r@, rules@.len() as int), i);
            extract_state(prev, sorted_keys(prev.dom()), r@[i].tec().scatter@).1
        }),
        (r@.len() == rules@.len() + 1) == (residual_after(plane@, scatters_of(r@, rules@.len() as int), rules@.len() as int).dom()
            != Set::<Point>::empty()),
        r@.len() == rules@.len() + 1 ==> r@[rules@.len() as int].tec().scatter@ == Seq::<Tick>::empty()
            && r@[rules@.len() as int].tec().kernel@ == residual_after(plane@, scatters_of(r@, rules@.len() as int), rules@.len() as int),
        forall|x: Point| #[trigger] count(plane@, x) == tecs_count(r@, x),
{
    let ghost m0 = plane@;
    let ghost rs = rules@;
    let n = rules.len();
    let mut residual = plane;
    let mut tecs: Vec<BoundedTec> = Vec::new();
    let mut i: usize = 0;
    while i < n
        invariant
            0 <= i <= n,
            n == rs.len(),
            rs == rules@,
            rules_fit(m0, rs),
            tecs@.len() == i,
            residual@ == residual_after(m0, scatters_of(tecs@, i as int), i as int),
            forall|p: Point| #[trigger] residual@.contains_key(p) ==> m0.contains_key(p) && residual@[p] > 0 || i == 0,
            forall|k: int| 0 <= k < i ==> (#[trigger] tecs@[k]).tec().scatter.wf()
                && tecs@[k].tec().scatter@.to_set() == rs[k]@.to_set().filter(|t: Tick| t > 0),
            forall|k: int| 0 <= k < i ==> (#[trigger] tecs@[k]).tec().kernel@ == ({
                let prev = residual_after(m0, scatters_of(tecs@, i as int), k);
                extract_state(prev, sorted_keys(prev.dom()), tecs@[k].tec().scatter@).1
            }),
            forall|x: Point| #[trigger] count(m0, x) == tecs_count(tecs@, x) + count(residual@, x),
        decreases n - i,
    {
        let mut offsets: Vec<Tick> = Vec::new();
        let mut j: usize = 0;
        while j < rules[i].len()
            invariant
                0 <= j <= rules@[i as int]@.len(),
                i < rules@.len(),
                offsets@ == rules@[i as int]@.take(j as int),
            decreases rules@[i as int]@.len() - j,
        {
            offsets.push(rules[i][j]);
            j = j + 1;
            proof {
                assert(offsets@ =~= rules@[i as int]@.take(j as int));
            }
        }
        proof {
            assert(offsets@ =~= rules@[i as int]@);
        }
        let scatter = Scatter::from_offsets(offsets);
        let ghost before = residual@;
        let ghost prev_tecs = tecs@;
        proof {
            scatter.lemma_wf();
            assert forall|p: Point, k: int| #![trigger before.contains_key(p), scatter@[k]]
                before.contains_key(p) && 0 <= k < scatter@.len() implies p.0 + scatter@[k] <= Tick::MAX by {
                let t = scatter@[k];
                assert(scatter@.to_set().contains(t));
                assert(rs[i as int]@.to_set().contains(t));
                let j0 = choose|j0: int| 0 <= j0 < rs[i as int]@.len() && rs[i as int]@[j0] == t;
                if i > 0 {
                    assert(m0.contains_key(p));
                }
                assert(m0.contains_key(p));
                assert(p.0 + rs[i as int]@[j0] <= Tick::MAX);
            }
            assert(shiftable(before, scatter@));
        }
        let tec = BoundedTec::extract_from(&mut residual, scatter);
        tecs.push(tec);
        proof {
            let sc = scatters_of(tecs@, i + 1);
            let sp = scatters_of(prev_tecs, i as int);
            assert forall|k: int| 0 <= k < i implies #[trigger] sc[k] == sp[k] by {
                assert(tecs@[k] == prev_tecs[k]);
            }
            lemma_residual_prefix(m0, sc, sp, i as int);
            assert(sc[i as int] == tecs@[i as int].tec().scatter@);
            assert(residual@ == residual_after(m0, sc, i + 1));
            assert forall|k: int| 0 <= k < i + 1 implies (#[trigger] tecs@[k]).tec().kernel@ == ({
                let prev = residual_after(m0, scatters_of(tecs@, i + 1), k);
                extract_state(prev, sorted_keys(prev.dom()), tecs@[k].tec().scatter@).1
            }) by {
                lemma_residual_prefix(m0, sc, sp, k);
                if k < i {
                    assert(tecs@[k] == prev_tecs[k]);
                    lemma_residual_prefix(m0, scatters_of(prev_tecs, i as int), sp, k);
                }
            }
            assert(tecs@.drop_last() =~= prev_tecs);
            assert forall|x: Point| #[trigger] count(m0, x) == tecs_count(tecs@, x) + count(residual@, x) by {
                assert(count(before, x) == expand_count(tec.tec().kernel@, tec.tec().scatter@, x) + count(residual@, x));
            }
            assert forall|p: Point| #[trigger] residual@.contains_key(p) implies m0.contains_key(p) && residual@[p] > 0 by {
                assert(count(before, p) >= count(residual@, p));
                if i > 0 {
                    assert(before.contains_key(p));
                } else {
                    assert(before == m0);
                }
            }
        }
        i = i + 1;
    }
    let ghost sc = scatters_of(tecs@, n as int);
    if !residual.is_empty() {
        let ghost rest = residual@;
        let ghost before_push = tecs@;
        let tec = BoundedTec::new(TransEqClass::new(Scatter::new(), residual));
        tecs.push(tec);
        proof {
            lemma_prune_no_offsets(rest, sorted_keys(rest.dom()));
            assert(tecs@.drop_last() =~= before_push);
            assert(tec.tec().kernel@ == rest);
            assert(tec.tec().scatter@ == Seq::<Tick>::empty());
            assert forall|x: Point| #[trigger] expand_count(tec.tec().kernel@, tec.tec().scatter@, x) == count(rest, x) by {}
            assert(tecs@.drop_last() =~= tecs@.take(n as int));
            let sc2 = scatters_of(tecs@, n as int);
            assert forall|k: int| 0 <= k < n implies #[trigger] sc2[k] == sc[k] by {}
            assert forall|k: int| 0 <= k <= n implies residual_after(m0, sc2, k) == residual_after(m0, sc, k) by {
                lemma_residual_prefix(m0, sc2, sc, k);
            }
            assert forall|x: Point| #[trigger] count(m0, x) == tecs_count(tecs@, x) by {
                assert(tecs_count(tecs@, x) == tecs_count(before_push, x) + expand_count(tec.tec().kernel@, tec.tec().scatter@, x));
            }
            assert(rest.dom() != Set::<Point>::empty());
        }
    } else {
        proof {
            assert forall|x: Point| #[trigger] count(m0, x) == tecs_count(tecs@, x) by {
                assert(!residual@.contains_key(x));
            }
        }
    }
    tecs
}

} // verus!

verus! {

/// Characters that separate the offsets of a rule.
pub open spec fn is_separator(c: char) -> bool {
    c == '/' || c == ',' || c == ' '
}

/// The tokens of `s` after the token `cur` already begun: the runs of
/// characters between separators, empty runs dropped.
pub open spec fn split_tokens(s: Seq<char>, cur: Seq<char>) -> Seq<Seq<char>>
    decreases s.len(),
{
    if s.len() == 0 {
        if cur.len() == 0 { Seq::empty() } else { seq![cur] }
    } else if is_separator(s[0]) {
        (if cur.len() == 0 { Seq::empty() } else { seq![cur] }) + split_tokens(s.drop_first(), Seq::empty())
    } else {
        split_tokens(s.drop_first(), cur.push(s[0]))
    }
}

/// The tokens of a rule's text.
pub open spec fn rule_tokens(s: Seq<char>) -> Seq<Seq<char>> {
    split_tokens(s, Seq::empty())
}

/// Every character is an ASCII digit.
pub open spec fn all_digits(d: Seq<char>) -> bool {
    forall|i: int| 0 <= i < d.len() ==> '0' <= #[trigger] d[i] <= '9'
}

/// The decimal value of digits.
pub open spec fn digits_value(d: Seq<char>) -> int
    decreases d.len(),
{
    if d.len() == 0 {
        0
    } else {
        digits_value(d.drop_last()) * 10 + (d.last() as int - '0' as int)
    }
}

/// The tick a token reads as: an optional `+` and at least one decimal
/// digit, with a value that fits a tick.
pub open spec fn tick_of(t: Seq<char>) -> Option<Tick> {
    let d = if t.len() > 0 && t[0] == '+' { t.drop_first() } else { t };
    if d.len() > 0 && all_digits(d) && digits_value(d) <= Tick::MAX {
        Some(digits_value(d) as Tick)
    } else {
        None
    }
}

/// The ticks of the tokens, or the first token that reads as none.
pub open spec fn token_ticks(toks: Seq<Seq<char>>) -> Result<Seq<Tick>, Seq<char>>
    decreases toks.len(),
{
    if toks.len() == 0 {
        Ok(Seq::empty())
    } else {
        match tick_of(toks[0]) {
            None => Err(toks[0]),
            Some(t) => match token_ticks(toks.drop_first()) {
                Ok(v) => Ok(seq![t] + v),
                Err(e) => Err(e),
            },
        }
    }
}

/// `r` with `prefix` before its ticks.
pub open spec fn after(prefix: Seq<Tick>, r: Result<Seq<Tick>, Seq<char>>) -> Result<Seq<Tick>, Seq<char>> {
    match r {
        Ok(v) => Ok(prefix + v),
        Err(e) => Err(e),
    }
}

proof fn lemma_digits_nonneg(d: Seq<char>)
    requires
        all_digits(d),
    ensures
        digits_value(d) >= 0,
    decreases d.len(),
{
    if d.len() > 0 {
        assert(all_digits(d.drop_last()));
        lemma_digits_nonneg(d.drop_last());
        assert('0' <= d[d.len() - 1] <= '9');
    }
}

/// The message for a token that is not a tick.
fn invalid_tick_message(token: &str) -> (r: String)
    ensures
        r@ == "invalid tick: "@ + token@,
{
    String::from_str("invalid tick: ").concat(token)
}

/// The digits of `s` from `from` to `to`, read as a tick.
fn read_tick(s: &str, from: usize, to: usize) -> (r: Option<Tick>)
    requires
        from <= to <= s@.len(),
    ensures
        r == tick_of(s@.subrange(from as int, to as int)),
{
    let ghost t = s@.subrange(from as int, to as int);
    let mut start = from;
    if from < to && s.get_char(from) == '+' {
        start = from + 1;
    }
    let ghost d = s@.subrange(start as int, to as int);
    proof {
        assert(d == (if t.len() > 0 && t[0] == '+' { t.drop_first() } else { t })) by {
            if from < to && t[0] == '+' {
                assert(t.drop_first() =~= d);
            } else {
                assert(t =~= d);
            }
        }
        if from < to && t[0] == '+' {
            assert(t.drop_first() =~= d);
        } else {
            assert(t =~= d);
        }
    }
    if start == to {
        return None;
    }
    let mut value: u64 = 0;
    let mut over = false;
    let mut i = start;
    while i < to
        invariant
            start <= i <= to <= s@.len(),
            d == s@.subrange(start as int, to as int),
            t == s@.subrange(from as int, to as int),
            d == (if t.len() > 0 && t[0] == '+' { t.drop_first() } else { t }),
            all_digits(s@.subrange(start as int, i as int)),
            over == (digits_value(s@.subrange(start as int, i as int)) > Tick::MAX),
            !over ==> value == digits_value(s@.subrange(start as int, i as int)),
        decreases to - i,
    {
        let c = s.get_char(i);
        let ghost p = s@.subrange(start as int, i as int);
        let ghost q = s@.subrange(start as int, i as int + 1);
        proof {
            assert(q.drop_last() =~= p);
            assert(q.last() == c);
        }
        if !('0' <= c && c <= '9') {
            proof {
                assert(d[i - start] == c);
                assert(!all_digits(d));
            }
            return None;
        }
        proof {
            assert(all_digits(q));
            lemma_digits_nonneg(p);
        }
        if !over {
            value = value * 10 + (c as u64 - '0' as u64);
            if value > 0xffff_ffff {
                over = true;
            }
        }
        i = i + 1;
    }
    proof {
        assert(s@.subrange(start as int, i as int) =~= d);
    }
    if over {
        None
    } else {
        Some(value as Tick)
    }
}

/// Reads a match rule: its offsets as ticks, separated by `/`, `,` or
/// spaces; the first token that is no tick gives the error.
pub fn parse_rule(s: &str) -> (r: Result<Vec<Tick>, String>)
    ensures
        match r {
            Ok(v) => token_ticks(rule_tokens(s@)) == Ok::<Seq<Tick>, Seq<char>>(v@),
            Err(e) => token_ticks(rule_tokens(s@)) matches Err(t) && e@ == "invalid tick: "@ + t,
        },
{
    let n = s.unicode_len();
    let mut out: Vec<Tick> = Vec::new();
    let mut start: usize = 0;
    let mut i: usize = 0;
    proof {
        assert(s@.subrange(0, n as int) =~= s@);
        assert(s@.subrange(0, 0) =~= Seq::<char>::empty());
    }
    while i < n
        invariant
            0 <= start <= i <= n,
            n == s@.len(),
            token_ticks(rule_tokens(s@)) == after(out@, token_ticks(split_tokens(
                s@.subrange(i as int, n as int),
                s@.subrange(start as int, i as int),
            ))),
        decreases n - i,
    {
        let c = s.get_char(i);
        let ghost rest = s@.subrange(i as int, n as int);
        let ghost cur = s@.subrange(start as int, i as int);
        proof {
            assert(rest[0] == c);
            assert(rest.drop_first() =~= s@.subrange(i as int + 1, n as int));
        }
        if c == '/' || c == ',' || c == ' ' {
            let ghost tail = split_tokens(s@.subrange(i as int + 1, n as int), Seq::empty());
            if start < i {
                let t = read_tick(s, start, i);
                proof {
                    let toks = seq![cur] + tail;
                    assert(toks[0] == cur);
                    assert(toks.drop_first() =~= tail);
                }
                match t {
                    None => {
                        let token = s.substring_char(start, i);
                        return Err(invalid_tick_message(token));
                    },
                    Some(v) => {
                        let ghost before = out@;
                        out.push(v);
                        proof {
                            assert(before + seq![v] =~= out@);
                            match token_ticks(tail) {
                                Ok(w) => {
                                    assert(before + (seq![v] + w) =~= out@ + w);
                                },
                                Err(_) => {},
                            }
                        }
                    },
                }
            } else {
                proof {
                    assert(cur.len() == 0);
                    assert(Seq::<Seq<char>>::empty() + tail =~= tail);
                }
            }
            start = i + 1;
            i = i + 1;
            proof {
                assert(s@.subrange(start as int, i as int) =~= Seq::<char>::empty());
            }
        } else {
            proof {
                assert(cur.push(c) =~= s@.subrange(start as int, i as int + 1));
            }
            i = i + 1;
        }
    }
    proof {
        assert(s@.subrange(n as int, n as int) =~= Seq::<char>::empty());
    }
    let ghost empty = s@.subrange(n as int, n as int);
    if start < n {
        let t = read_tick(s, start, n);
        let ghost cur = s@.subrange(start as int, n as int);
        proof {
            let toks = seq![cur];
            assert(split_tokens(empty, cur) == toks);
            assert(toks[0] == cur);
            assert(toks.drop_first() =~= Seq::<Seq<char>>::empty());
            assert(token_ticks(Seq::<Seq<char>>::empty()) == Ok::<Seq<Tick>, Seq<char>>(Seq::empty()));
        }
        match t {
            None => {
                let token = s.substring_char(start, n);
                Err(invalid_tick_message(token))
            },
            Some(v) => {
                let ghost before = out@;
                out.push(v);
                proof {
                    assert(before + (seq![v] + Seq::<Tick>::empty()) =~= out@);
                }
                Ok(out)
            },
        }
    } else {
        proof {
            assert(s@.subrange(start as int, n as int) =~= Seq::<char>::empty());
            assert(split_tokens(empty, Seq::<char>::empty()) == Seq::<Seq<char>>::empty());
            assert(token_ticks(Seq::<Seq<char>>::empty()) == Ok::<Seq<Tick>, Seq<char>>(Seq::empty()));
            assert(out@ + Seq::<Tick>::empty() =~= out@);
        }
        Ok(out)
    }
}

} // verus!
