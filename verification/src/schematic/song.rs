//! From a song's notes to linear layouts: the notes grouped into tracks by
//! the gaps between their layers, the song's length, and the choice between
//! stacked and side-by-side lanes.

use vstd::prelude::*;
use rsnbs::note::Notes;
use rsnbs::types::{LayerAnchor, Position, TimeAnchor};
use crate::note::Tone;
use crate::analysis::order::Tick;
use super::linear::{
    MultiLinearLayout, StackedLinearLayout, side_by_side_fits, stacked_fits, side_by_side_built, stacked_built,
    side_by_side_fit_check, stacked_fit_check,
};

verus! {

/// What `Notes::split_by_layer_gaps` gives for notes at the given
/// `(tick, layer)` positions, each note standing for its index: for each
/// group of layers without a gap, its notes in position order as
/// `(tick, layer within the group, index)`.
pub uninterp spec fn layer_gap_split(positions: Seq<(Tick, u32)>) -> Seq<Seq<(Tick, u32, usize)>>;

/// The mathematical value of nested vectors.
pub open spec fn nested_view<T>(v: Seq<Vec<T>>) -> Seq<Seq<T>> {
    v.map_values(|g: Vec<T>| g@)
}

/// `rsnbs::note::Notes::split_by_layer_gaps` on notes at `positions`, each
/// carrying its index: the groups it returns, with each note's position and
/// index read back. Every index it hands back is one that went in.
#[verifier::external_body]
fn split_positions(positions: &Vec<(Tick, u32)>) -> (r: Vec<Vec<(Tick, u32, usize)>>)
    ensures
        nested_view(r@) == layer_gap_split(positions@),
        forall|g: int, k: int| 0 <= g < r@.len() && 0 <= k < r@[g]@.len() ==> #[trigger] r@[g]@[k].2 < positions@.len(),
{
    let notes: Notes<Position, usize> = positions.iter().enumerate().map(|(i, &(t, l))| (Position::new(t, l), i)).collect();
    let groups = notes.split_by_layer_gaps();
    groups.into_iter().map(|g| g.iter().map(|(p, &i)| (p.into_tick(), p.into_layer(), i)).collect()).collect()
}

/// The positions of notes given as `(tick, layer, tone)`.
pub open spec fn positions_of(notes: Seq<(Tick, u32, Tone)>) -> Seq<(Tick, u32)> {
    notes.map_values(|n: (Tick, u32, Tone)| (n.0, n.1))
}

/// Groups of `(tick, layer, index)` with each index replaced by the tone of
/// that note.
pub open spec fn groups_tones(notes: Seq<(Tick, u32, Tone)>, groups: Seq<Seq<(Tick, u32, usize)>>) -> Seq<Seq<(Tick, Tone)>> {
    groups.map_values(|g: Seq<(Tick, u32, usize)>| g.map_values(|e: (Tick, u32, usize)| (e.0, notes[e.2 as int].2)))
}

/// The tracks of a song: each group of layers without a gap between them,
/// its notes as `(tick, tone)` in position order.
pub open spec fn gap_tracks(notes: Seq<(Tick, u32, Tone)>) -> Seq<Seq<(Tick, Tone)>> {
    groups_tones(notes, layer_gap_split(positions_of(notes)))
}

/// Each group's notes as `(tick, tone)`: the tick kept, the index replaced
/// by the tone of that note.
pub fn tones_of_groups(notes: &Vec<(Tick, u32, Tone)>, groups: &Vec<Vec<(Tick, u32, usize)>>) -> (r: Vec<Vec<(Tick, Tone)>>)
    requires
        forall|a: int, k: int| 0 <= a < groups@.len() && 0 <= k < groups@[a]@.len() ==> #[trigger] groups@[a]@[k].2 < notes@.len(),
    ensures
        nested_view(r@) == groups_tones(notes@, nested_view(groups@)),
{
    let ghost want = groups_tones(notes@, nested_view(groups@));
    let mut out: Vec<Vec<(Tick, Tone)>> = Vec::new();
    let mut g: usize = 0;
    while g < groups.len()
        invariant
            0 <= g <= groups@.len(),
            forall|a: int, k: int| 0 <= a < groups@.len() && 0 <= k < groups@[a]@.len() ==> #[trigger] groups@[a]@[k].2 < notes@.len(),
            want == groups_tones(notes@, nested_view(groups@)),
            want.len() == groups@.len(),
            out@.len() == g,
            forall|a: int| 0 <= a < g ==> (#[trigger] out@[a])@ == want[a],
        decreases groups@.len() - g,
    {
        let group = &groups[g];
        let ghost w = want[g as int];
        proof {
            assert(nested_view(groups@)[g as int] == group@);
            assert(w == group@.map_values(|e: (Tick, u32, usize)| (e.0, notes@[e.2 as int].2)));
        }
        let mut track: Vec<(Tick, Tone)> = Vec::new();
        let mut k: usize = 0;
        while k < group.len()
            invariant
                0 <= k <= group@.len(),
                g < groups@.len(),
                *group == groups@[g as int],
                forall|a: int, j: int| 0 <= a < groups@.len() && 0 <= j < groups@[a]@.len() ==> #[trigger] groups@[a]@[j].2 < notes@.len(),
                w == group@.map_values(|e: (Tick, u32, usize)| (e.0, notes@[e.2 as int].2)),
                track@ == w.take(k as int),
            decreases group@.len() - k,
        {
            let (t, _, idx) = group[k];
            proof {
                assert(groups@[g as int]@[k as int].2 < notes@.len());
            }
            track.push((t, notes[idx].2));
            k = k + 1;
            proof {
                assert(track@ =~= w.take(k as int));
            }
        }
        proof {
            assert(track@ =~= w);
        }
        out.push(track);
        g = g + 1;
    }
    proof {
        assert(nested_view(out@) =~= want);
    }
    out
}

/// Splits notes given as `(tick, layer, tone)` into tracks where the
/// occupied layers have a gap.
pub fn split_by_layer_gaps(notes: &Vec<(Tick, u32, Tone)>) -> (r: Vec<Vec<(Tick, Tone)>>)
    ensures
        nested_view(r@) == gap_tracks(notes@),
{
    let mut positions: Vec<(Tick, u32)> = Vec::new();
    let mut i: usize = 0;
    while i < notes.len()
        invariant
            0 <= i <= notes@.len(),
            positions@ == positions_of(notes@).take(i as int),
        decreases notes@.len() - i,
    {
        positions.push((notes[i].0, notes[i].1));
        i = i + 1;
        proof {
            assert(positions@ =~= positions_of(notes@).take(i as int));
        }
    }
    proof {
        assert(positions@ =~= positions_of(notes@));
    }
    let groups = split_positions(&positions);
    tones_of_groups(notes, &groups)
}

/// The length of a song in ticks: one past its last note's tick, or zero
/// without notes.
pub open spec fn song_length_spec(notes: Seq<(Tick, u32, Tone)>) -> int
    decreases notes.len(),
{
    if notes.len() == 0 {
        0
    } else {
        let rest = song_length_spec(notes.drop_last());
        let end = notes.last().0 + 1;
        if rest >= end {
            rest
        } else {
            end
        }
    }
}

/// The tracks of a song, split where its occupied layers have a gap, and
/// its length in ticks.
pub fn linear_tracks(notes: &Vec<(Tick, u32, Tone)>) -> (r: (Vec<Vec<(Tick, Tone)>>, Tick))
    requires
        forall|i: int| 0 <= i < notes@.len() ==> #[trigger] notes@[i].0 < Tick::MAX,
    ensures
        nested_view(r.0@) == gap_tracks(notes@),
        r.1 == song_length_spec(notes@),
{
    let mut length: Tick = 0;
    let mut i: usize = 0;
    while i < notes.len()
        invariant
            0 <= i <= notes@.len(),
            forall|j: int| 0 <= j < notes@.len() ==> #[trigger] notes@[j].0 < Tick::MAX,
            length == song_length_spec(notes@.take(i as int)),
        decreases notes@.len() - i,
    {
        proof {
            assert(notes@.take(i + 1).drop_last() =~= notes@.take(i as int));
            assert(notes@.take(i + 1).last() == notes@[i as int]);
        }
        let end = notes[i].0 + 1;
        if end > length {
            length = end;
        }
        i = i + 1;
    }
    proof {
        assert(notes@.take(i as int) =~= notes@);
    }
    (split_by_layer_gaps(notes), length)
}

/// Linear lanes of a song, stacked or side by side.
pub enum LinearLayouts {
    /// Wrapped lanes, each on its floor, stacked.
    Stacked(StackedLinearLayout),
    /// Unwrapped lanes side by side.
    SideBySide(MultiLinearLayout),
}

/// Lays out a song's tracks: stacked lanes wrapped every `wrap` cells when
/// `wrap` is positive, else unwrapped lanes side by side; `None` when the
/// lanes do not fit the coordinate range.
pub fn build_linear(tracks: &Vec<Vec<(Tick, Tone)>>, wrap: Tick, gap: u32, full: bool, song_length: Tick) -> (r: Option<LinearLayouts>)
    ensures
        wrap > 0 ==> (r is Some <==> stacked_fits(tracks@, song_length, Some(wrap), gap)),
        wrap > 0 ==> (r matches Some(l) ==> l matches LinearLayouts::Stacked(s)
            && stacked_built(s, tracks@, Some(wrap), gap, full, song_length)),
        wrap == 0 ==> (r is Some <==> side_by_side_fits(tracks@, song_length, gap)),
        wrap == 0 ==> (r matches Some(l) ==> l matches LinearLayouts::SideBySide(m)
            && side_by_side_built(m, tracks@, gap, song_length)),
{
    if wrap > 0 {
        if stacked_fit_check(tracks, song_length, Some(wrap), gap) {
            Some(LinearLayouts::Stacked(StackedLinearLayout::new(tracks, Some(wrap), gap, full, song_length)))
        } else {
            None
        }
    } else {
        if side_by_side_fit_check(tracks, song_length, gap) {
            Some(LinearLayouts::SideBySide(MultiLinearLayout::new(tracks, gap, song_length)))
        } else {
            None
        }
    }
}

} // verus!
