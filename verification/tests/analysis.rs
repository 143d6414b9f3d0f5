use nbs_fractal::analysis::bounded::BoundedTec;
use nbs_fractal::analysis::plane::TePlane;
use nbs_fractal::analysis::rules::{match_rules, parse_rule};
use nbs_fractal::analysis::scatter::Scatter;
use nbs_fractal::analysis::tec::TransEqClass;
use nbs_fractal::note::{ImitateInstrument, Instrument, Tone, minecraft_note};

fn plane(points: &[(u32, u32)]) -> TePlane {
    TePlane::from_points(points.to_vec())
}

fn sorted_points(p: TePlane) -> Vec<(u32, u32)> {
    let mut v = p.into_points();
    v.sort();
    v
}

#[test]
fn plane_counts_repeated_points() {
    let p = plane(&[(0, 1), (4, 1), (0, 1), (8, 2)]);
    assert_eq!(p.count((0, 1)), 2);
    assert_eq!(p.count((4, 1)), 1);
    assert_eq!(p.count((8, 2)), 1);
    assert_eq!(p.count((8, 1)), 0);
    assert_eq!(p.get((5, 5)), None);
    assert_eq!(p.get((0, 1)), Some(2));
    assert_eq!(p.total(), 4);
    assert!(!p.is_empty());
    assert!(TePlane::new().is_empty());
}

#[test]
fn plane_insert_replaces_count() {
    let mut p = TePlane::new();
    p.insert((3, 7), 5);
    p.insert((3, 7), 2);
    assert_eq!(p.count((3, 7)), 2);
    assert_eq!(p.total(), 2);
}

#[test]
fn plane_round_trips_points() {
    let p = plane(&[(2, 1), (0, 3), (2, 1)]);
    assert_eq!(sorted_points(p), vec![(0, 3), (2, 1), (2, 1)]);
}

#[test]
fn plane_translates_along_time() {
    let p = plane(&[(0, 1), (4, 2), (4, 2)]);
    let mut moved = p.translated(10);
    moved.sort();
    assert_eq!(moved, vec![(10, 1), (14, 2), (14, 2)]);
}

#[test]
fn plane_intersection_keeps_smaller_counts() {
    let a = plane(&[(0, 1), (0, 1), (4, 1), (8, 1)]);
    let b = plane(&[(0, 1), (4, 1), (4, 1), (12, 1)]);
    let c = a.intersect(b);
    assert_eq!(c.count((0, 1)), 1);
    assert_eq!(c.count((4, 1)), 1);
    assert_eq!(c.count((8, 1)), 0);
    assert_eq!(c.count((12, 1)), 0);
}

#[test]
fn plane_equality_is_by_counts() {
    let a = plane(&[(0, 1), (4, 1)]);
    let b = plane(&[(4, 1), (0, 1)]);
    let c = plane(&[(4, 1), (0, 1), (0, 1)]);
    assert!(a.equals(&b));
    assert!(!a.equals(&c));
}

#[test]
fn plane_into_notes_groups_by_tick() {
    let p = plane(&[(4, 9), (0, 3), (4, 1), (4, 1)]);
    let notes = p.into_notes();
    assert_eq!(notes, vec![(0, vec![3]), (4, vec![1, 1, 9])]);
}

#[test]
fn scatter_drops_zero_and_repeats() {
    let s = Scatter::from_offsets(vec![8, 0, 4, 8]);
    assert_eq!(s.offsets(), vec![4, 8]);
    assert_eq!(s.len(), 2);
    assert_eq!(s.get(1), 8);
    let u = s.union(&Scatter::from_offsets(vec![2, 4]));
    assert_eq!(u.offsets(), vec![2, 4, 8]);
}

#[test]
fn tec_offsets_include_zero() {
    let tec = TransEqClass::new(Scatter::from_offsets(vec![4, 8]), plane(&[(0, 1), (1, 2)]));
    assert_eq!(tec.offsets(), vec![0, 4, 8]);
    assert_eq!(tec.arity(), 3);
    assert_eq!(tec.reuse(), 4);
    assert_eq!(tec.coverage(), 6);
    assert_eq!(tec.min_gap(), Some(4));
}

#[test]
fn tec_min_gap_of_bare_kernel_is_none() {
    let tec = TransEqClass::new(Scatter::new(), plane(&[(0, 1)]));
    assert_eq!(tec.min_gap(), None);
    let tec = TransEqClass::new(Scatter::from_offsets(vec![3, 10]), plane(&[(0, 1)]));
    assert_eq!(tec.min_gap(), Some(3));
}

#[test]
fn tec_expands_kernel_at_every_offset() {
    let tec = TransEqClass::new(Scatter::from_offsets(vec![4]), plane(&[(0, 1), (1, 2), (1, 2)]));
    let e = tec.expand();
    assert_eq!(sorted_points(e), vec![(0, 1), (1, 2), (1, 2), (4, 1), (5, 2), (5, 2)]);
}

#[test]
fn tec_translate_moves_kernel_only() {
    let tec = TransEqClass::new(Scatter::from_offsets(vec![4]), plane(&[(0, 1)]));
    let moved = tec.translate(3);
    assert_eq!(moved.scatter.offsets(), vec![4]);
    assert_eq!(sorted_points(moved.kernel), vec![(3, 1)]);
}

#[test]
fn tec_bitand_unions_offsets_and_intersects_kernels() {
    let a = TransEqClass::new(Scatter::from_offsets(vec![4]), plane(&[(0, 1), (0, 1), (2, 2)]));
    let b = TransEqClass::new(Scatter::from_offsets(vec![8]), plane(&[(0, 1), (5, 5)]));
    let c = a.bitand(b);
    assert_eq!(c.scatter.offsets(), vec![4, 8]);
    assert_eq!(sorted_points(c.kernel), vec![(0, 1)]);
}

#[test]
fn extract_from_splits_into_kernel_and_residual() {
    // A motif at 0 and 4, repeated at offset 4, plus a stray note.
    let mut source = plane(&[(0, 1), (4, 1), (8, 1), (9, 5)]);
    let tec = BoundedTec::extract_from(&mut source, Scatter::from_offsets(vec![4]));
    let inner = tec.into_inner();
    assert_eq!(inner.scatter.offsets(), vec![4]);
    // visiting (0,1): its copy (4,1) is there, so it becomes a kernel point;
    // (4,1) was used up; (8,1) has no copy at 12 and stays; so does (9,5)
    assert_eq!(sorted_points(inner.kernel), vec![(0, 1)]);
    assert_eq!(sorted_points(source), vec![(8, 1), (9, 5)]);
}

#[test]
fn extract_from_conserves_every_point() {
    let points = [(0, 1), (0, 1), (3, 2), (4, 1), (7, 2), (8, 1), (8, 1)];
    let mut source = plane(&points);
    let tec = BoundedTec::extract_from(&mut source, Scatter::from_offsets(vec![4])).into_inner();
    let expanded = tec.expand();
    let mut all = sorted_points(expanded);
    all.extend(sorted_points(source));
    all.sort();
    let mut want = points.to_vec();
    want.sort();
    assert_eq!(all, want);
}

#[test]
fn extract_keeps_the_source() {
    let source = plane(&[(0, 1), (4, 1)]);
    let tec = BoundedTec::extract(&source, Scatter::from_offsets(vec![4]));
    assert_eq!(sorted_points(tec.into_inner().kernel), vec![(0, 1)]);
    assert_eq!(source.count((0, 1)), 1);
    assert_eq!(source.count((4, 1)), 1);
}

#[test]
fn bounded_new_prunes_repeated_copies() {
    // Points 0, 4, 8 under offset 4: visiting 0 deducts its copy at 4,
    // visiting 4 (now absent) deducts nothing, 8 stays.
    let tec = TransEqClass::new(Scatter::from_offsets(vec![4]), plane(&[(0, 1), (4, 1), (8, 1)]));
    let bounded = BoundedTec::new(tec);
    assert_eq!(sorted_points(bounded.into_inner().kernel), vec![(0, 1), (8, 1)]);
}

#[test]
fn bounded_new_counterexample_expansion_exceeds_points() {
    // The pruned kernel {0, 8} expands under offset 4 to {0, 4, 8, 12}:
    // 12 was never among the points.
    let tec = TransEqClass::new(Scatter::from_offsets(vec![4]), plane(&[(0, 1), (4, 1), (8, 1)]));
    let bounded = BoundedTec::new(tec).into_inner();
    let expanded = sorted_points(bounded.expand());
    assert_eq!(expanded, vec![(0, 1), (4, 1), (8, 1), (12, 1)]);
}

#[test]
fn tone_events_round_trip() {
    let tones = [
        Tone { instrument: Instrument::Harp, key: 45 },
        Tone { instrument: Instrument::Banjo, key: 33 },
        Tone { instrument: Instrument::Imitate(ImitateInstrument::Zombie), key: 57 },
        Tone { instrument: Instrument::Custom(3), key: 0 },
    ];
    for t in tones {
        assert_eq!(Tone::from_event(t.event()), Some(t));
    }
    assert_eq!(Tone { instrument: Instrument::Harp, key: 45 }.event(), 45);
    assert_eq!(Tone { instrument: Instrument::DoubleBass, key: 1 }.event(), 257);
    assert_eq!(Tone::from_event((27 + 256) * 256), None);
}

#[test]
fn minecraft_notes_span_two_octaves() {
    assert_eq!(minecraft_note(33), Some(0));
    assert_eq!(minecraft_note(57), Some(24));
    assert_eq!(minecraft_note(32), None);
    assert_eq!(minecraft_note(58), None);
}

#[test]
fn match_rules_extracts_in_order_and_keeps_the_rest() {
    let source = plane(&[(0, 1), (4, 1), (8, 1), (9, 5)]);
    let tecs = match_rules(source, vec![vec![4, 0, 4]]);
    assert_eq!(tecs.len(), 2);
    let first = tecs[0].inner();
    assert_eq!(first.scatter.offsets(), vec![4]);
    assert_eq!(first.kernel.count((0, 1)), 1);
    assert_eq!(first.kernel.total(), 1);
    let rest = tecs[1].inner();
    assert_eq!(rest.scatter.len(), 0);
    assert_eq!(rest.kernel.count((8, 1)), 1);
    assert_eq!(rest.kernel.count((9, 5)), 1);
    assert_eq!(rest.kernel.total(), 2);
}

#[test]
fn match_rules_reexpands_to_the_song() {
    let points = [(0, 1), (2, 3), (4, 1), (6, 3), (8, 1), (10, 3), (12, 2)];
    let tecs = match_rules(plane(&points), vec![vec![4], vec![8]]);
    let mut all: Vec<(u32, u32)> = Vec::new();
    for tec in tecs {
        all.extend(sorted_points(tec.into_inner().expand()));
    }
    all.sort();
    let mut want = points.to_vec();
    want.sort();
    assert_eq!(all, want);
}

#[test]
fn match_rules_without_rest() {
    let tecs = match_rules(plane(&[(0, 1), (4, 1)]), vec![vec![4]]);
    assert_eq!(tecs.len(), 1);
    let tecs = match_rules(plane(&[(0, 1)]), vec![]);
    assert_eq!(tecs.len(), 1);
    assert_eq!(tecs[0].inner().kernel.count((0, 1)), 1);
}

#[test]
fn extract_from_leaves_no_whole_copy() {
    let mut source = plane(&[(0, 1), (0, 1), (4, 1), (5, 2), (9, 2), (13, 2)]);
    let _ = BoundedTec::extract_from(&mut source, Scatter::from_offsets(vec![4, 8]));
    for (x, _) in source.entries() {
        assert!([4, 8].iter().any(|&o| source.count((x.0 + o, x.1)) == 0));
    }
    assert_eq!(sorted_points(source), vec![(0, 1), (0, 1), (4, 1)]);
}

#[test]
fn plane_lengths_and_expansion_total() {
    let p = plane(&[(0, 1), (0, 1), (3, 2)]);
    assert_eq!(p.translated(5).len(), 3);
    assert_eq!(p.total(), 3);
    let tec = TransEqClass::new(Scatter::from_offsets(vec![2, 7]), p);
    assert_eq!(tec.coverage(), 9);
    assert_eq!(tec.expand().total(), tec.coverage());
}

#[test]
fn parse_rule_reads_offsets() {
    assert_eq!(parse_rule("4/8"), Ok(vec![4, 8]));
    assert_eq!(parse_rule("4, 8 12"), Ok(vec![4, 8, 12]));
    assert_eq!(parse_rule(""), Ok(vec![]));
    assert_eq!(parse_rule("+5//"), Ok(vec![5]));
    assert_eq!(parse_rule("4294967295"), Ok(vec![u32::MAX]));
}

#[test]
fn parse_rule_names_the_bad_token() {
    assert_eq!(parse_rule("4/x"), Err("invalid tick: x".to_string()));
    assert_eq!(parse_rule("4294967296"), Err("invalid tick: 4294967296".to_string()));
    assert_eq!(parse_rule("-1"), Err("invalid tick: -1".to_string()));
    assert_eq!(parse_rule("8 + 3"), Err("invalid tick: +".to_string()));
}

#[test]
fn extract_matches_extract_from_on_a_copy() {
    let points = [(0, 1), (4, 1), (4, 1), (8, 1), (9, 3)];
    let source = plane(&points);
    let kept = BoundedTec::extract(&source, Scatter::from_offsets(vec![4])).into_inner();
    let mut copy = plane(&points);
    let taken = BoundedTec::extract_from(&mut copy, Scatter::from_offsets(vec![4])).into_inner();
    assert_eq!(kept.scatter.offsets(), taken.scatter.offsets());
    assert_eq!(sorted_points(kept.kernel), sorted_points(taken.kernel));
    assert_eq!(sorted_points(source), points.to_vec());
}
