//! Compact note block layouts: one redstone sub-track per layout, in a
//! three-high zigzag of tooth-interlocked rows.

use vstd::prelude::*;
use vstd::multiset::Multiset;
use crate::note::Tone;
use crate::analysis::order::Tick;
use super::blocks::{
    BlockState, BlockView, opt_view, Facing, chain_block, chain_block_spec, air, air_spec, inst_block,
    inst_block_spec, note_block, note_block_spec, redstone_wire, redstone_wire_spec, repeater,
    repeater_spec,
};
use super::layout::{BlockPos, Layout, in_box, nonneg, Arranged, Axis, arranged_offset, arranged_block, arranged_size};

verus! {

// Tile
//
// ++++++++++++============++++++++++++============++++++++++++============

/// A stem or canopy tile.
#[derive(Clone, Copy, Debug, PartialEq, Eq, Structural)]
pub enum Tile {
    Delay(Tick),
    Link,
    Terminal(Option<Tone>, Option<Tone>, Option<Tone>),
    Node(Option<Tone>, Option<Tone>),
    TurningDelay(Tick),
    TurningLink,
    TurningTerminal(Option<Tone>, Option<Tone>),
    TurningNode(Option<Tone>),
}

pub open spec fn stem_spec(delay: Tick, is_turning: bool) -> Tile {
    if delay == 0 {
        if is_turning { Tile::TurningLink } else { Tile::Link }
    } else {
        if is_turning { Tile::TurningDelay(delay) } else { Tile::Delay(delay) }
    }
}

/// Takes the last note, if any.
pub open spec fn pop_spec(s: Seq<Tone>) -> (Option<Tone>, Seq<Tone>) {
    if s.len() == 0 {
        (None, s)
    } else {
        (Some(s.last()), s.drop_last())
    }
}

/// A canopy tile taking its notes from the end of `s`, and what is left of `s`.
pub open spec fn canopy_spec(s: Seq<Tone>, is_turning: bool, is_terminal: bool) -> (Tile, Seq<Tone>) {
    let (a, s1) = pop_spec(s);
    let (b, s2) = pop_spec(s1);
    let (c, s3) = pop_spec(s2);
    if is_turning {
        if is_terminal { (Tile::TurningTerminal(a, b), s2) } else { (Tile::TurningNode(a), s1) }
    } else {
        if is_terminal { (Tile::Terminal(a, b, c), s3) } else { (Tile::Node(a, b), s2) }
    }
}

impl Tile {
    /// A stem tile: a plain link where there is no delay.
    pub fn stem(delay: Tick, is_turning: bool) -> (r: Tile)
        ensures
            r == stem_spec(delay, is_turning),
    {
        if delay == 0 {
            if is_turning { Tile::TurningLink } else { Tile::Link }
        } else {
            if is_turning { Tile::TurningDelay(delay) } else { Tile::Delay(delay) }
        }
    }

    /// A canopy tile; its notes are taken from the end of `notes`.
    pub fn canopy(notes: &mut Vec<Tone>, is_turning: bool, is_terminal: bool) -> (r: Tile)
        ensures
            (r, final(notes)@) == canopy_spec(old(notes)@, is_turning, is_terminal),
    {
        if is_turning {
            if is_terminal {
                let a = notes.pop();
                let b = notes.pop();
                Tile::TurningTerminal(a, b)
            } else {
                let a = notes.pop();
                Tile::TurningNode(a)
            }
        } else {
            if is_terminal {
                let a = notes.pop();
                let b = notes.pop();
                let c = notes.pop();
                Tile::Terminal(a, b, c)
            } else {
                let a = notes.pop();
                let b = notes.pop();
                Tile::Node(a, b)
            }
        }
    }

    pub open spec fn block_spec(self, layout_index: u8, facing: Facing) -> Option<BlockView> {
        match (self, layout_index) {
            (Tile::Delay(_), 0) => Some(chain_block_spec()),
            (Tile::Delay(delay), 1) => Some(repeater_spec(delay, facing, false, false)),
            (Tile::Link, 0) => Some(chain_block_spec()),
            (Tile::Link, 1) => Some(redstone_wire_spec()),
            (Tile::Terminal(center, _, _), 0) => Some(inst_block_spec(center, chain_block_spec())),
            (Tile::Terminal(center, _, _), 1) => Some(note_block_spec(center, chain_block_spec())),
            (Tile::Terminal(_, left, _), 3) => Some(inst_block_spec(left, air_spec())),
            (Tile::Terminal(_, left, _), 4) => Some(note_block_spec(left, air_spec())),
            (Tile::Terminal(_, _, right), 6) => Some(inst_block_spec(right, air_spec())),
            (Tile::Terminal(_, _, right), 7) => Some(note_block_spec(right, air_spec())),
            (Tile::Node(_, _), 0) => Some(chain_block_spec()),
            (Tile::Node(_, _), 1) => Some(chain_block_spec()),
            (Tile::Node(_, _), 2) => Some(redstone_wire_spec()),
            (Tile::Node(left, _), 3) => Some(inst_block_spec(left, air_spec())),
            (Tile::Node(left, _), 4) => Some(note_block_spec(left, air_spec())),
            (Tile::Node(_, right), 6) => Some(inst_block_spec(right, air_spec())),
            (Tile::Node(_, right), 7) => Some(note_block_spec(right, air_spec())),
            (Tile::TurningDelay(_), 0) => Some(chain_block_spec()),
            (Tile::TurningDelay(_), 3) => Some(chain_block_spec()),
            (Tile::TurningDelay(_), 1) => Some(redstone_wire_spec()),
            (Tile::TurningDelay(delay), 4) => Some(repeater_spec(delay, facing, false, false)),
            (Tile::TurningLink, 0) => Some(chain_block_spec()),
            (Tile::TurningLink, 3) => Some(chain_block_spec()),
            (Tile::TurningLink, 1) => Some(redstone_wire_spec()),
            (Tile::TurningLink, 4) => Some(redstone_wire_spec()),
            (Tile::TurningTerminal(center, _), 0) => Some(inst_block_spec(center, chain_block_spec())),
            (Tile::TurningTerminal(center, _), 1) => Some(note_block_spec(center, chain_block_spec())),
            (Tile::TurningTerminal(_, side), 3) => Some(inst_block_spec(side, air_spec())),
            (Tile::TurningTerminal(_, side), 4) => Some(note_block_spec(side, air_spec())),
            (Tile::TurningNode(_), 0) => Some(chain_block_spec()),
            (Tile::TurningNode(_), 1) => Some(chain_block_spec()),
            (Tile::TurningNode(_), 2) => Some(redstone_wire_spec()),
            (Tile::TurningNode(side), 3) => Some(inst_block_spec(side, air_spec())),
            (Tile::TurningNode(side), 4) => Some(note_block_spec(side, air_spec())),
            _ => None,
        }
    }

    /// The block at `layout_index` of this tile; repeaters face `facing`.
    pub fn get_block(&self, layout_index: u8, facing: Facing) -> (r: Option<BlockState>)
        ensures
            opt_view(r) == self.block_spec(layout_index, facing),
    {
        match (self, layout_index) {
            (Tile::Delay(_), 0) => Some(chain_block()),
            (Tile::Delay(delay), 1) => Some(repeater(*delay, facing, false, false)),
            (Tile::Link, 0) => Some(chain_block()),
            (Tile::Link, 1) => Some(redstone_wire()),
            (Tile::Terminal(center, _, _), 0) => Some(inst_block(*center, chain_block())),
            (Tile::Terminal(center, _, _), 1) => Some(note_block(*center, chain_block())),
            (Tile::Terminal(_, left, _), 3) => Some(inst_block(*left, air())),
            (Tile::Terminal(_, left, _), 4) => Some(note_block(*left, air())),
            (Tile::Terminal(_, _, right), 6) => Some(inst_block(*right, air())),
            (Tile::Terminal(_, _, right), 7) => Some(note_block(*right, air())),
            (Tile::Node(_, _), 0) => Some(chain_block()),
            (Tile::Node(_, _), 1) => Some(chain_block()),
            (Tile::Node(_, _), 2) => Some(redstone_wire()),
            (Tile::Node(left, _), 3) => Some(inst_block(*left, air())),
            (Tile::Node(left, _), 4) => Some(note_block(*left, air())),
            (Tile::Node(_, right), 6) => Some(inst_block(*right, air())),
            (Tile::Node(_, right), 7) => Some(note_block(*right, air())),
            (Tile::TurningDelay(_), 0) => Some(chain_block()),
            (Tile::TurningDelay(_), 3) => Some(chain_block()),
            (Tile::TurningDelay(_), 1) => Some(redstone_wire()),
            (Tile::TurningDelay(delay), 4) => Some(repeater(*delay, facing, false, false)),
            (Tile::TurningLink, 0) => Some(chain_block()),
            (Tile::TurningLink, 3) => Some(chain_block()),
            (Tile::TurningLink, 1) => Some(redstone_wire()),
            (Tile::TurningLink, 4) => Some(redstone_wire()),
            (Tile::TurningTerminal(center, _), 0) => Some(inst_block(*center, chain_block())),
            (Tile::TurningTerminal(center, _), 1) => Some(note_block(*center, chain_block())),
            (Tile::TurningTerminal(_, side), 3) => Some(inst_block(*side, air())),
            (Tile::TurningTerminal(_, side), 4) => Some(note_block(*side, air())),
            (Tile::TurningNode(_), 0) => Some(chain_block()),
            (Tile::TurningNode(_), 1) => Some(chain_block()),
            (Tile::TurningNode(_), 2) => Some(redstone_wire()),
            (Tile::TurningNode(side), 3) => Some(inst_block(*side, air())),
            (Tile::TurningNode(side), 4) => Some(note_block(*side, air())),
            _ => None,
        }
    }
}

} // verus!

verus! {

// Track
//
// ++++++++++++============++++++++++++============++++++++++++============

/// Whether the next tile pair starts a row.
pub open spec fn at_row_start_spec(len: nat, cols: Option<usize>) -> bool {
    match cols {
        Some(c) => len % (c as nat) == 0,
        None => len < 2,
    }
}

/// Whether the next tile pair ends a row.
pub open spec fn at_row_end_spec(len: nat, cols: Option<usize>) -> bool {
    match cols {
        Some(c) => (len + 2) % (c as nat) == 0,
        None => false,
    }
}

/// A stem and a canopy for a delay of `stem_delay + canopy_delay`.
pub open spec fn place_delay_spec(stem_delay: Tick, canopy_delay: Tick, at_start: bool, at_end: bool) -> (Tile, Tile, Tick) {
    (
        stem_spec(stem_delay, at_start),
        if canopy_delay == 0 {
            canopy_spec(Seq::empty(), at_start, !at_end).0
        } else {
            stem_spec(canopy_delay, false)
        },
        (stem_delay + canopy_delay) as Tick,
    )
}

/// The next delay tile pair before a note, if the remaining delay needs one.
pub open spec fn pop_delay_spec(delay: Tick, coarse: Tick, tiles: Seq<Tile>, cols: Option<usize>) -> Option<(Tile, Tile, Tick)> {
    let chain = tiles.len() > 0 && tiles.last() == Tile::Delay(coarse);
    let at_start = at_row_start_spec(tiles.len(), cols);
    let at_end = at_row_end_spec(tiles.len(), cols);
    let micro = 2 <= coarse <= 4;
    if micro && !chain && !at_start && delay == coarse * 3 {
        Some(place_delay_spec(coarse, 0, at_start, at_end))
    } else if micro && !at_start && !at_end && delay > coarse * 2 {
        Some(place_delay_spec(coarse, coarse, at_start, at_end))
    } else if micro && chain && !at_start && delay == coarse * 2 {
        Some(place_delay_spec(coarse, 1, at_start, at_end))
    } else if micro && chain && !at_start && delay >= coarse {
        Some(place_delay_spec((coarse - 1) as Tick, 0, at_start, at_end))
    } else if micro && !chain && !at_start && delay > coarse {
        Some(place_delay_spec(coarse, 0, at_start, at_end))
    } else if micro && !chain && at_start && delay > coarse {
        Some(place_delay_spec(coarse, 0, at_start, at_end))
    } else if coarse == 1 && !chain && at_start && delay > 1 {
        Some(place_delay_spec(coarse, 0, at_start, at_end))
    } else if coarse == 1 && !chain && !at_start && delay > 1 {
        Some(place_delay_spec(coarse, 0, at_start, at_end))
    } else if at_start && delay > 4 {
        Some(place_delay_spec(4, 0, at_start, at_end))
    } else if !at_start && delay > 8 {
        Some(place_delay_spec(4, 4, at_start, at_end))
    } else if !at_start && delay > 4 {
        Some(place_delay_spec(4, 0, at_start, at_end))
    } else {
        None
    }
}

/// Delay tile pairs until what remains of the delay fits in one stem.
pub open spec fn emit_delays(tiles: Seq<Tile>, delay: Tick, coarse: Tick, cols: Option<usize>) -> (Seq<Tile>, Tick)
    decreases delay,
{
    match pop_delay_spec(delay, coarse, tiles, cols) {
        Some((stem, canopy, consume)) => if 0 < consume <= delay {
            emit_delays(tiles.push(stem).push(canopy), (delay - consume) as Tick, coarse, cols)
        } else {
            (tiles, delay)
        },
        None => (tiles, delay),
    }
}

/// Link-and-canopy pairs until no note is left.
pub open spec fn emit_rest(tiles: Seq<Tile>, notes: Seq<Tone>, cols: Option<usize>) -> Seq<Tile>
    decreases notes.len(),
{
    if notes.len() == 0 {
        tiles
    } else {
        let at_start = at_row_start_spec(tiles.len(), cols);
        let at_end = at_row_end_spec(tiles.len(), cols);
        let is_terminal = !at_end && notes.len() <= (if at_start { 2nat } else { 3nat });
        let (canopy, rest) = canopy_spec(notes, at_start, is_terminal);
        emit_rest(tiles.push(stem_spec(0, at_start)).push(canopy), rest, cols)
    }
}

/// The tiles of one chord, played `delay` redstone ticks after the previous one.
pub open spec fn emit_chord(tiles: Seq<Tile>, delay: Tick, notes: Seq<Tone>, coarse: Tick, cols: Option<usize>) -> Seq<Tile> {
    let (t1, d) = emit_delays(tiles, delay, coarse, cols);
    let at_start = at_row_start_spec(t1.len(), cols);
    let at_end = at_row_end_spec(t1.len(), cols);
    let (canopy, n1) = canopy_spec(notes, at_start, !at_end);
    let t2 = t1.push(stem_spec(d, at_start)).push(canopy);
    if n1.len() > 0 {
        let at_start2 = at_row_start_spec(t2.len(), cols);
        let at_end2 = at_row_end_spec(t2.len(), cols);
        let is_terminal = !at_end2 && at_start2 && n1.len() <= 2;
        let (canopy2, n2) = canopy_spec(n1, at_start2, is_terminal);
        emit_rest(t2.push(stem_spec(0, at_start2)).push(canopy2), n2, cols)
    } else {
        t2
    }
}

/// `a - b` wrapping around the tick range.
pub open spec fn wrapping_sub_spec(a: Tick, b: Tick) -> Tick {
    if a >= b {
        (a - b) as Tick
    } else {
        (a + 0x1_0000_0000 - b) as Tick
    }
}

/// The tick of the last chord, or the largest tick before any chord.
pub open spec fn last_tick(groups: Seq<(Tick, Seq<Tone>)>) -> Tick {
    if groups.len() == 0 {
        Tick::MAX
    } else {
        groups.last().0
    }
}

/// The tiles of a track of chords.
pub open spec fn track_tiles(groups: Seq<(Tick, Seq<Tone>)>, coarse: Tick, cols: Option<usize>) -> Seq<Tile>
    decreases groups.len(),
{
    if groups.len() == 0 {
        Seq::empty()
    } else {
        let prev = groups.drop_last();
        emit_chord(
            track_tiles(prev, coarse, cols),
            wrapping_sub_spec(groups.last().0, last_tick(prev)),
            groups.last().1,
            coarse,
            cols,
        )
    }
}

/// The notes an optional slot holds.
pub open spec fn slot_notes(o: Option<Tone>) -> Seq<Tone> {
    match o {
        Some(t) => seq![t],
        None => Seq::empty(),
    }
}

/// The notes a tile places.
pub open spec fn tile_notes(t: Tile) -> Seq<Tone> {
    match t {
        Tile::Terminal(a, b, c) => slot_notes(a) + slot_notes(b) + slot_notes(c),
        Tile::Node(a, b) => slot_notes(a) + slot_notes(b),
        Tile::TurningTerminal(a, b) => slot_notes(a) + slot_notes(b),
        Tile::TurningNode(a) => slot_notes(a),
        _ => Seq::empty(),
    }
}

/// The notes the tiles place, as a multiset.
pub open spec fn tiles_notes(tiles: Seq<Tile>) -> Multiset<Tone>
    decreases tiles.len(),
{
    if tiles.len() == 0 {
        Multiset::empty()
    } else {
        tiles_notes(tiles.drop_last()).add(tile_notes(tiles.last()).to_multiset())
    }
}

/// The notes of all chords, as a multiset.
pub open spec fn chords_notes(groups: Seq<(Tick, Seq<Tone>)>) -> Multiset<Tone>
    decreases groups.len(),
{
    if groups.len() == 0 {
        Multiset::empty()
    } else {
        chords_notes(groups.drop_last()).add(groups.last().1.to_multiset())
    }
}

proof fn lemma_tiles_notes_push(tiles: Seq<Tile>, t: Tile)
    ensures
        tiles_notes(tiles.push(t)) == tiles_notes(tiles).add(tile_notes(t).to_multiset()),
{
    assert(tiles.push(t).drop_last() =~= tiles);
}

proof fn lemma_pop_notes(s: Seq<Tone>)
    ensures
        slot_notes(pop_spec(s).0).to_multiset().add(pop_spec(s).1.to_multiset()) == s.to_multiset(),
{
    broadcast use vstd::seq_lib::group_to_multiset_ensures, vstd::multiset::group_multiset_axioms;
    if s.len() > 0 {
        assert(s =~= s.drop_last().push(s.last()));
        assert(seq![s.last()].to_multiset() =~= Multiset::<Tone>::empty().insert(s.last())) by {
            assert(seq![s.last()] =~= Seq::<Tone>::empty().push(s.last()));
        }
        assert(slot_notes(pop_spec(s).0).to_multiset().add(pop_spec(s).1.to_multiset()) =~= s.to_multiset());
    } else {
        assert(slot_notes(pop_spec(s).0).to_multiset().add(pop_spec(s).1.to_multiset()) =~= s.to_multiset());
    }
}

/// A canopy places exactly the notes it takes.
proof fn lemma_canopy_notes(s: Seq<Tone>, is_turning: bool, is_terminal: bool)
    ensures
        tile_notes(canopy_spec(s, is_turning, is_terminal).0).to_multiset().add(canopy_spec(s, is_turning, is_terminal).1.to_multiset())
            == s.to_multiset(),
{
    broadcast use vstd::seq_lib::group_to_multiset_ensures, vstd::multiset::group_multiset_axioms;
    let (a, s1) = pop_spec(s);
    let (b, s2) = pop_spec(s1);
    let (c, s3) = pop_spec(s2);
    lemma_pop_notes(s);
    lemma_pop_notes(s1);
    lemma_pop_notes(s2);
    vstd::seq_lib::lemma_multiset_commutative(slot_notes(a), slot_notes(b));
    vstd::seq_lib::lemma_multiset_commutative(slot_notes(a) + slot_notes(b), slot_notes(c));
    let (t, rest) = canopy_spec(s, is_turning, is_terminal);
    assert(tile_notes(t).to_multiset().add(rest.to_multiset()) =~= s.to_multiset());
}

/// Delay tiles place no notes.
proof fn lemma_delays_notes(tiles: Seq<Tile>, delay: Tick, coarse: Tick, cols: Option<usize>)
    ensures
        tiles_notes(emit_delays(tiles, delay, coarse, cols).0) == tiles_notes(tiles),
    decreases delay,
{
    broadcast use vstd::seq_lib::group_to_multiset_ensures, vstd::multiset::group_multiset_axioms;
    match pop_delay_spec(delay, coarse, tiles, cols) {
        Some((stem, canopy, consume)) => if 0 < consume <= delay {
            lemma_delays_notes(tiles.push(stem).push(canopy), (delay - consume) as Tick, coarse, cols);
            lemma_tiles_notes_push(tiles, stem);
            lemma_tiles_notes_push(tiles.push(stem), canopy);
            assert(tile_notes(stem) =~= Seq::<Tone>::empty());
            assert(tile_notes(canopy) =~= Seq::<Tone>::empty());
            assert(tiles_notes(tiles.push(stem).push(canopy)) =~= tiles_notes(tiles));
        } else {
        },
        None => {},
    }
}

/// Link-and-canopy pairs place exactly the remaining notes.
proof fn lemma_rest_notes(tiles: Seq<Tile>, notes: Seq<Tone>, cols: Option<usize>)
    ensures
        tiles_notes(emit_rest(tiles, notes, cols)) == tiles_notes(tiles).add(notes.to_multiset()),
    decreases notes.len(),
{
    broadcast use vstd::seq_lib::group_to_multiset_ensures, vstd::multiset::group_multiset_axioms;
    if notes.len() == 0 {
        assert(tiles_notes(tiles).add(notes.to_multiset()) =~= tiles_notes(tiles));
    } else {
        let at_start = at_row_start_spec(tiles.len(), cols);
        let at_end = at_row_end_spec(tiles.len(), cols);
        let is_terminal = !at_end && notes.len() <= (if at_start { 2nat } else { 3nat });
        let (canopy, rest) = canopy_spec(notes, at_start, is_terminal);
        let stem = stem_spec(0, at_start);
        lemma_canopy_notes(notes, at_start, is_terminal);
        lemma_tiles_notes_push(tiles, stem);
        lemma_tiles_notes_push(tiles.push(stem), canopy);
        assert(tile_notes(stem) =~= Seq::<Tone>::empty());
        assert(rest.len() < notes.len());
        lemma_rest_notes(tiles.push(stem).push(canopy), rest, cols);
        assert(tiles_notes(emit_rest(tiles, notes, cols)) =~= tiles_notes(tiles).add(notes.to_multiset()));
    }
}

/// The tiles of a chord place exactly its notes.
proof fn lemma_chord_notes(tiles: Seq<Tile>, delay: Tick, notes: Seq<Tone>, coarse: Tick, cols: Option<usize>)
    ensures
        tiles_notes(emit_chord(tiles, delay, notes, coarse, cols)) == tiles_notes(tiles).add(notes.to_multiset()),
{
    broadcast use vstd::seq_lib::group_to_multiset_ensures, vstd::multiset::group_multiset_axioms;
    let (t1, d) = emit_delays(tiles, delay, coarse, cols);
    lemma_delays_notes(tiles, delay, coarse, cols);
    let at_start = at_row_start_spec(t1.len(), cols);
    let at_end = at_row_end_spec(t1.len(), cols);
    let (canopy, n1) = canopy_spec(notes, at_start, !at_end);
    let stem = stem_spec(d, at_start);
    let t2 = t1.push(stem).push(canopy);
    lemma_canopy_notes(notes, at_start, !at_end);
    lemma_tiles_notes_push(t1, stem);
    lemma_tiles_notes_push(t1.push(stem), canopy);
    assert(tile_notes(stem) =~= Seq::<Tone>::empty());
    if n1.len() > 0 {
        let at_start2 = at_row_start_spec(t2.len(), cols);
        let at_end2 = at_row_end_spec(t2.len(), cols);
        let is_terminal = !at_end2 && at_start2 && n1.len() <= 2;
        let (canopy2, n2) = canopy_spec(n1, at_start2, is_terminal);
        let stem2 = stem_spec(0, at_start2);
        lemma_canopy_notes(n1, at_start2, is_terminal);
        lemma_tiles_notes_push(t2, stem2);
        lemma_tiles_notes_push(t2.push(stem2), canopy2);
        assert(tile_notes(stem2) =~= Seq::<Tone>::empty());
        lemma_rest_notes(t2.push(stem2).push(canopy2), n2, cols);
        assert(tiles_notes(emit_chord(tiles, delay, notes, coarse, cols)) =~= tiles_notes(tiles).add(notes.to_multiset()));
    } else {
        assert(n1.to_multiset() =~= Multiset::<Tone>::empty());
        assert(tiles_notes(emit_chord(tiles, delay, notes, coarse, cols)) =~= tiles_notes(tiles).add(notes.to_multiset()));
    }
}

/// A compact track places every note of every chord exactly once: the notes
/// of its tiles are the notes of its chords.
pub proof fn lemma_track_places_every_note(groups: Seq<(Tick, Seq<Tone>)>, coarse: Tick, cols: Option<usize>)
    ensures
        tiles_notes(track_tiles(groups, coarse, cols)) == chords_notes(groups),
    decreases groups.len(),
{
    if groups.len() > 0 {
        let prev = groups.drop_last();
        lemma_track_places_every_note(prev, coarse, cols);
        lemma_chord_notes(
            track_tiles(prev, coarse, cols),
            wrapping_sub_spec(groups.last().0, last_tick(prev)),
            groups.last().1,
            coarse,
            cols,
        );
    }
}

/// The `k`-th note taken from the end of `s`, if `s` has one.
pub open spec fn taken_note(s: Seq<Tone>, k: int) -> Option<Tone> {
    if 0 <= k < s.len() {
        Some(s[s.len() - 1 - k])
    } else {
        None
    }
}

/// A canopy plays the notes it takes, each note block over the instrument
/// block of the same note: the first note taken sits in the centre slot
/// (blocks 0 and 1) of a terminal, the next ones in the left (3 and 4) and
/// right (6 and 7) slots; a node has no centre note, and a turning canopy
/// has only its centre and one side slot.
pub proof fn lemma_canopy_sounds_its_notes(s: Seq<Tone>, turning: bool, terminal: bool, facing: Facing)
    ensures
        ({
            let t = canopy_spec(s, turning, terminal).0;
            &&& !turning && terminal ==> {
                &&& t.block_spec(0, facing) == Some(inst_block_spec(taken_note(s, 0), chain_block_spec()))
                &&& t.block_spec(1, facing) == Some(note_block_spec(taken_note(s, 0), chain_block_spec()))
                &&& t.block_spec(3, facing) == Some(inst_block_spec(taken_note(s, 1), air_spec()))
                &&& t.block_spec(4, facing) == Some(note_block_spec(taken_note(s, 1), air_spec()))
                &&& t.block_spec(6, facing) == Some(inst_block_spec(taken_note(s, 2), air_spec()))
                &&& t.block_spec(7, facing) == Some(note_block_spec(taken_note(s, 2), air_spec()))
            }
            &&& !turning && !terminal ==> {
                &&& t.block_spec(1, facing) == Some(chain_block_spec())
                &&& t.block_spec(3, facing) == Some(inst_block_spec(taken_note(s, 0), air_spec()))
                &&& t.block_spec(4, facing) == Some(note_block_spec(taken_note(s, 0), air_spec()))
                &&& t.block_spec(6, facing) == Some(inst_block_spec(taken_note(s, 1), air_spec()))
                &&& t.block_spec(7, facing) == Some(note_block_spec(taken_note(s, 1), air_spec()))
            }
            &&& turning && terminal ==> {
                &&& t.block_spec(0, facing) == Some(inst_block_spec(taken_note(s, 0), chain_block_spec()))
                &&& t.block_spec(1, facing) == Some(note_block_spec(taken_note(s, 0), chain_block_spec()))
                &&& t.block_spec(3, facing) == Some(inst_block_spec(taken_note(s, 1), air_spec()))
                &&& t.block_spec(4, facing) == Some(note_block_spec(taken_note(s, 1), air_spec()))
                &&& t.block_spec(7, facing) is None
            }
            &&& turning && !terminal ==> {
                &&& t.block_spec(1, facing) == Some(chain_block_spec())
                &&& t.block_spec(3, facing) == Some(inst_block_spec(taken_note(s, 0), air_spec()))
                &&& t.block_spec(4, facing) == Some(note_block_spec(taken_note(s, 0), air_spec()))
                &&& t.block_spec(7, facing) is None
            }
        }),
{
    let (a, s1) = pop_spec(s);
    let (b, s2) = pop_spec(s1);
    let (c, s3) = pop_spec(s2);
    assert(a == taken_note(s, 0));
    if s.len() > 0 {
        assert(s1 =~= s.drop_last());
        assert(b == taken_note(s, 1)) by {
            if s.len() > 1 {
                assert(s1.last() == s[s.len() - 2]);
            }
        }
        if s.len() > 1 {
            assert(s2 =~= s.drop_last().drop_last());
            assert(c == taken_note(s, 2)) by {
                if s.len() > 2 {
                    assert(s2.last() == s[s.len() - 3]);
                }
            }
        } else {
            assert(c == taken_note(s, 2));
        }
    } else {
        assert(b == taken_note(s, 1));
        assert(c == taken_note(s, 2));
    }
}

/// The repeater delay a tile adds, in redstone ticks.
pub open spec fn tile_delay(t: Tile) -> nat {
    match t {
        Tile::Delay(d) => d as nat,
        Tile::TurningDelay(d) => d as nat,
        _ => 0,
    }
}

/// The delays of the tiles added up.
pub open spec fn tiles_delay(tiles: Seq<Tile>) -> nat
    decreases tiles.len(),
{
    if tiles.len() == 0 {
        0
    } else {
        tiles_delay(tiles.drop_last()) + tile_delay(tiles.last())
    }
}

proof fn lemma_tiles_delay_push(tiles: Seq<Tile>, t: Tile)
    ensures
        tiles_delay(tiles.push(t)) == tiles_delay(tiles) + tile_delay(t),
{
    assert(tiles.push(t).drop_last() =~= tiles);
}

/// The delay pairs add up, with what is left over, to the delay asked for.
proof fn lemma_emit_delays_timing(tiles: Seq<Tile>, delay: Tick, coarse: Tick, cols: Option<usize>)
    ensures
        tiles_delay(emit_delays(tiles, delay, coarse, cols).0) + emit_delays(tiles, delay, coarse, cols).1
            == tiles_delay(tiles) + delay,
    decreases delay,
{
    match pop_delay_spec(delay, coarse, tiles, cols) {
        Some((stem, canopy, consume)) => {
            if 0 < consume <= delay {
                let at_start = at_row_start_spec(tiles.len(), cols);
                let at_end = at_row_end_spec(tiles.len(), cols);
                assert(tile_delay(stem) + tile_delay(canopy) == consume);
                lemma_tiles_delay_push(tiles, stem);
                lemma_tiles_delay_push(tiles.push(stem), canopy);
                lemma_emit_delays_timing(tiles.push(stem).push(canopy), (delay - consume) as Tick, coarse, cols);
            }
        },
        None => {},
    }
}

/// Links and canopies add no delay.
proof fn lemma_emit_rest_timing(tiles: Seq<Tile>, notes: Seq<Tone>, cols: Option<usize>)
    ensures
        tiles_delay(emit_rest(tiles, notes, cols)) == tiles_delay(tiles),
    decreases notes.len(),
{
    if notes.len() > 0 {
        let at_start = at_row_start_spec(tiles.len(), cols);
        let at_end = at_row_end_spec(tiles.len(), cols);
        let is_terminal = !at_end && notes.len() <= (if at_start { 2nat } else { 3nat });
        let (canopy, rest) = canopy_spec(notes, at_start, is_terminal);
        lemma_canopy_notes(notes, at_start, is_terminal);
        assert(rest.len() < notes.len()) by {
            assert(notes.len() > 0);
        }
        lemma_tiles_delay_push(tiles, stem_spec(0, at_start));
        lemma_tiles_delay_push(tiles.push(stem_spec(0, at_start)), canopy);
        lemma_emit_rest_timing(tiles.push(stem_spec(0, at_start)).push(canopy), rest, cols);
    }
}

/// The tiles of a chord delay it by exactly the redstone ticks asked for.
proof fn lemma_emit_chord_timing(tiles: Seq<Tile>, delay: Tick, notes: Seq<Tone>, coarse: Tick, cols: Option<usize>)
    ensures
        tiles_delay(emit_chord(tiles, delay, notes, coarse, cols)) == tiles_delay(tiles) + delay,
{
    let (t1, d) = emit_delays(tiles, delay, coarse, cols);
    lemma_emit_delays_timing(tiles, delay, coarse, cols);
    let at_start = at_row_start_spec(t1.len(), cols);
    let at_end = at_row_end_spec(t1.len(), cols);
    let (canopy, n1) = canopy_spec(notes, at_start, !at_end);
    lemma_tiles_delay_push(t1, stem_spec(d, at_start));
    lemma_tiles_delay_push(t1.push(stem_spec(d, at_start)), canopy);
    let t2 = t1.push(stem_spec(d, at_start)).push(canopy);
    if n1.len() > 0 {
        let at_start2 = at_row_start_spec(t2.len(), cols);
        let at_end2 = at_row_end_spec(t2.len(), cols);
        let is_terminal = !at_end2 && at_start2 && n1.len() <= 2;
        let (canopy2, n2) = canopy_spec(n1, at_start2, is_terminal);
        lemma_tiles_delay_push(t2, stem_spec(0, at_start2));
        lemma_tiles_delay_push(t2.push(stem_spec(0, at_start2)), canopy2);
        lemma_emit_rest_timing(t2.push(stem_spec(0, at_start2)).push(canopy2), n2, cols);
    }
}

/// A compact track keeps the timing of its chords: for chords at strictly
/// ascending redstone ticks, the delays up to and including those before
/// chord `k` add up to its tick plus one (the first counted from tick -1),
/// when the first chord is not at the last tick.
pub proof fn lemma_track_keeps_timing(groups: Seq<(Tick, Seq<Tone>)>, coarse: Tick, cols: Option<usize>, k: int)
    requires
        0 <= k < groups.len(),
        groups[0].0 < Tick::MAX,
        forall|i: int, j: int| 0 <= i < j < groups.len() ==> #[trigger] groups[i].0 < #[trigger] groups[j].0,
    ensures
        tiles_delay(track_tiles(groups.take(k + 1), coarse, cols)) == groups[k].0 + 1,
    decreases k,
{
    let g = groups.take(k + 1);
    let prev = g.drop_last();
    assert(g.last() == groups[k]);
    assert(track_tiles(g, coarse, cols) == emit_chord(
        track_tiles(prev, coarse, cols),
        wrapping_sub_spec(groups[k].0, last_tick(prev)),
        groups[k].1,
        coarse,
        cols,
    ));
    lemma_emit_chord_timing(track_tiles(prev, coarse, cols), wrapping_sub_spec(groups[k].0, last_tick(prev)), groups[k].1, coarse, cols);
    if k == 0 {
        assert(prev.len() == 0);
        assert(track_tiles(prev, coarse, cols) == Seq::<Tile>::empty());
        assert(tiles_delay(Seq::<Tile>::empty()) == 0);
        assert(wrapping_sub_spec(groups[k].0, Tick::MAX) == groups[k].0 + 1);
    } else {
        assert(prev =~= groups.take(k));
        lemma_track_keeps_timing(groups, coarse, cols, k - 1);
        assert(last_tick(prev) == groups[k - 1].0);
        assert(groups[k - 1].0 < groups[k].0);
        assert(wrapping_sub_spec(groups[k].0, groups[k - 1].0) == groups[k].0 - groups[k - 1].0);
    }
}

/// A repeater delay in `1..=4` and within the coarseness; other tiles pass.
pub open spec fn delay_ok(t: Tile, coarse: Tick) -> bool {
    match t {
        Tile::Delay(d) => 1 <= d <= 4 && d <= coarse,
        Tile::TurningDelay(d) => 1 <= d <= 4 && d <= coarse,
        _ => true,
    }
}

/// Every repeater delay of the tiles is in `1..=4` and within the coarseness.
pub open spec fn delays_ok(tiles: Seq<Tile>, coarse: Tick) -> bool {
    forall|i: int| 0 <= i < tiles.len() ==> #[trigger] delay_ok(tiles[i], coarse)
}

/// Tiles ending in a repeater at the coarseness end mid-row, and only under
/// a micro-timing coarseness.
spec fn chain_ok(tiles: Seq<Tile>, coarse: Tick, cols: Option<usize>) -> bool {
    tiles.len() > 0 && tiles.last() == Tile::Delay(coarse) ==> 2 <= coarse <= 4 && !at_row_start_spec(tiles.len(), cols)
}

proof fn lemma_delays_ok_push(tiles: Seq<Tile>, t: Tile, coarse: Tick)
    requires
        delays_ok(tiles, coarse),
        delay_ok(t, coarse),
    ensures
        delays_ok(tiles.push(t), coarse),
{
    assert forall|i: int| 0 <= i < tiles.push(t).len() implies #[trigger] delay_ok(tiles.push(t)[i], coarse) by {
        if i < tiles.len() {
            assert(tiles.push(t)[i] == tiles[i]);
        }
    }
}

/// A delay pair keeps the delays in range and ends mid-row when it ends in
/// a repeater at the coarseness; without a pair the delay left fits one stem.
proof fn lemma_pop_delay_ok(delay: Tick, coarse: Tick, tiles: Seq<Tile>, cols: Option<usize>)
    requires
        coarse > 0,
        cols matches Some(c) ==> c > 0,
        chain_ok(tiles, coarse, cols),
    ensures
        pop_delay_spec(delay, coarse, tiles, cols) matches Some((stem, canopy, consume)) ==> {
            &&& delay_ok(stem, coarse)
            &&& delay_ok(canopy, coarse)
            &&& 0 < consume <= delay
            &&& chain_ok(tiles.push(stem).push(canopy), coarse, cols)
        },
        pop_delay_spec(delay, coarse, tiles, cols) is None ==> delay <= 4 && delay <= coarse,
{
    let n = tiles.len();
    let pushed_len = n + 2;
    match cols {
        Some(c) => {
            assert(at_row_start_spec(pushed_len, cols) == at_row_end_spec(n, cols));
        },
        None => {},
    }
    match pop_delay_spec(delay, coarse, tiles, cols) {
        Some((stem, canopy, consume)) => {
            let t = tiles.push(stem).push(canopy);
            assert(t.len() == pushed_len);
            assert(t.last() == canopy);
        },
        None => {},
    }
}

proof fn lemma_emit_delays_ok(tiles: Seq<Tile>, delay: Tick, coarse: Tick, cols: Option<usize>)
    requires
        coarse > 0,
        cols matches Some(c) ==> c > 0,
        delays_ok(tiles, coarse),
        chain_ok(tiles, coarse, cols),
    ensures
        delays_ok(emit_delays(tiles, delay, coarse, cols).0, coarse),
        chain_ok(emit_delays(tiles, delay, coarse, cols).0, coarse, cols),
        emit_delays(tiles, delay, coarse, cols).1 <= 4,
        emit_delays(tiles, delay, coarse, cols).1 <= coarse,
    decreases delay,
{
    lemma_pop_delay_ok(delay, coarse, tiles, cols);
    match pop_delay_spec(delay, coarse, tiles, cols) {
        Some((stem, canopy, consume)) => {
            lemma_delays_ok_push(tiles, stem, coarse);
            lemma_delays_ok_push(tiles.push(stem), canopy, coarse);
            lemma_emit_delays_ok(tiles.push(stem).push(canopy), (delay - consume) as Tick, coarse, cols);
        },
        None => {},
    }
}

proof fn lemma_emit_rest_ok(tiles: Seq<Tile>, notes: Seq<Tone>, coarse: Tick, cols: Option<usize>)
    requires
        delays_ok(tiles, coarse),
        chain_ok(tiles, coarse, cols),
    ensures
        delays_ok(emit_rest(tiles, notes, cols), coarse),
        chain_ok(emit_rest(tiles, notes, cols), coarse, cols),
    decreases notes.len(),
{
    if notes.len() > 0 {
        let at_start = at_row_start_spec(tiles.len(), cols);
        let at_end = at_row_end_spec(tiles.len(), cols);
        let is_terminal = !at_end && notes.len() <= (if at_start { 2nat } else { 3nat });
        let (canopy, rest) = canopy_spec(notes, at_start, is_terminal);
        lemma_canopy_notes(notes, at_start, is_terminal);
        lemma_delays_ok_push(tiles, stem_spec(0, at_start), coarse);
        lemma_delays_ok_push(tiles.push(stem_spec(0, at_start)), canopy, coarse);
        let t = tiles.push(stem_spec(0, at_start)).push(canopy);
        assert(t.last() == canopy);
        lemma_emit_rest_ok(t, rest, coarse, cols);
    }
}

proof fn lemma_emit_chord_ok(tiles: Seq<Tile>, delay: Tick, notes: Seq<Tone>, coarse: Tick, cols: Option<usize>)
    requires
        coarse > 0,
        cols matches Some(c) ==> c > 0,
        delays_ok(tiles, coarse),
        chain_ok(tiles, coarse, cols),
    ensures
        delays_ok(emit_chord(tiles, delay, notes, coarse, cols), coarse),
        chain_ok(emit_chord(tiles, delay, notes, coarse, cols), coarse, cols),
{
    let (t1, d) = emit_delays(tiles, delay, coarse, cols);
    lemma_emit_delays_ok(tiles, delay, coarse, cols);
    let at_start = at_row_start_spec(t1.len(), cols);
    let at_end = at_row_end_spec(t1.len(), cols);
    let (canopy, n1) = canopy_spec(notes, at_start, !at_end);
    lemma_delays_ok_push(t1, stem_spec(d, at_start), coarse);
    lemma_delays_ok_push(t1.push(stem_spec(d, at_start)), canopy, coarse);
    let t2 = t1.push(stem_spec(d, at_start)).push(canopy);
    assert(t2.last() == canopy);
    if n1.len() > 0 {
        let at_start2 = at_row_start_spec(t2.len(), cols);
        let at_end2 = at_row_end_spec(t2.len(), cols);
        let is_terminal = !at_end2 && at_start2 && n1.len() <= 2;
        let (canopy2, n2) = canopy_spec(n1, at_start2, is_terminal);
        lemma_delays_ok_push(t2, stem_spec(0, at_start2), coarse);
        lemma_delays_ok_push(t2.push(stem_spec(0, at_start2)), canopy2, coarse);
        let t3 = t2.push(stem_spec(0, at_start2)).push(canopy2);
        assert(t3.last() == canopy2);
        lemma_emit_rest_ok(t3, n2, coarse, cols);
    }
}

/// Every repeater of a compact track has a delay in `1..=4` that is at most
/// the coarseness.
pub proof fn lemma_track_delays_in_range(groups: Seq<(Tick, Seq<Tone>)>, coarse: Tick, cols: Option<usize>)
    requires
        coarse > 0,
        cols matches Some(c) ==> c > 0,
    ensures
        delays_ok(track_tiles(groups, coarse, cols), coarse),
{
    lemma_track_chain_ok(groups, coarse, cols);
}

proof fn lemma_track_chain_ok(groups: Seq<(Tick, Seq<Tone>)>, coarse: Tick, cols: Option<usize>)
    requires
        coarse > 0,
        cols matches Some(c) ==> c > 0,
    ensures
        delays_ok(track_tiles(groups, coarse, cols), coarse),
        chain_ok(track_tiles(groups, coarse, cols), coarse, cols),
    decreases groups.len(),
{
    if groups.len() > 0 {
        let prev = groups.drop_last();
        lemma_track_chain_ok(prev, coarse, cols);
        lemma_emit_chord_ok(
            track_tiles(prev, coarse, cols),
            wrapping_sub_spec(groups.last().0, last_tick(prev)),
            groups.last().1,
            coarse,
            cols,
        );
    }
}

/// The mathematical value of timed chords.
pub open spec fn chords_view(notes: Seq<(Tick, Vec<Tone>)>) -> Seq<(Tick, Seq<Tone>)> {
    notes.map_values(|g: (Tick, Vec<Tone>)| (g.0, g.1@))
}

/// A track's tiles with its row-column metadata.
pub struct Track {
    tiles: Vec<Tile>,
    cols: Option<usize>,
}

impl Track {
    pub closed spec fn tiles_spec(&self) -> Seq<Tile> {
        self.tiles@
    }

    pub closed spec fn cols_spec(&self) -> Option<usize> {
        self.cols
    }

    /// Row width is positive and even.
    pub closed spec fn wf(&self) -> bool {
        self.cols matches Some(c) ==> c > 0 && c % 2 == 0
    }

    fn at_row_start(&self) -> (r: bool)
        requires
            self.wf(),
        ensures
            r == at_row_start_spec(self.tiles@.len(), self.cols),
    {
        match self.cols {
            Some(c) => self.tiles.len() % c == 0,
            None => self.tiles.len() < 2,
        }
    }

    fn at_row_end(&self) -> (r: bool)
        requires
            self.wf(),
        ensures
            r == at_row_end_spec(self.tiles@.len(), self.cols),
    {
        match self.cols {
            Some(c) => {
                let m = self.tiles.len() % c;
                proof {
                    let len = self.tiles@.len() as int;
                    let ci = c as int;
                    vstd::arithmetic::div_mod::lemma_add_mod_noop(len, 2int, ci);
                    vstd::arithmetic::div_mod::lemma_add_mod_noop(m as int, 2int, ci);
                    vstd::arithmetic::div_mod::lemma_mod_twice(len, ci);
                }
                (m + 2) % c == 0
            },
            None => false,
        }
    }

    fn push_pair(&mut self, stem: Tile, canopy: Tile)
        ensures
            final(self).tiles@ == old(self).tiles@.push(stem).push(canopy),
            final(self).cols == old(self).cols,
    {
        self.tiles.push(stem);
        self.tiles.push(canopy);
    }

    fn place_delay(stem_delay: Tick, canopy_delay: Tick, at_start: bool, at_end: bool) -> (r: (Tile, Tile, Tick))
        requires
            stem_delay + canopy_delay <= Tick::MAX,
        ensures
            r == place_delay_spec(stem_delay, canopy_delay, at_start, at_end),
    {
        let stem = Tile::stem(stem_delay, at_start);
        let canopy = if canopy_delay == 0 {
            let mut none: Vec<Tone> = Vec::new();
            Tile::canopy(&mut none, at_start, !at_end)
        } else {
            Tile::stem(canopy_delay, false)
        };
        (stem, canopy, stem_delay + canopy_delay)
    }

    fn pop_delay(&self, delay: Tick, coarse: Tick) -> (r: Option<(Tile, Tile, Tick)>)
        requires
            self.wf(),
        ensures
            r == pop_delay_spec(delay, coarse, self.tiles@, self.cols),
            r matches Some((_, _, consume)) ==> 0 < consume <= delay,
    {
        let n = self.tiles.len();
        let chain = n > 0 && match self.tiles[n - 1] {
            Tile::Delay(c) => c == coarse,
            _ => false,
        };
        let at_start = self.at_row_start();
        let at_end = self.at_row_end();
        let micro = 2 <= coarse && coarse <= 4;
        if micro && !chain && !at_start && delay == coarse * 3 {
            Some(Self::place_delay(coarse, 0, at_start, at_end))
        } else if micro && !at_start && !at_end && delay > coarse * 2 {
            Some(Self::place_delay(coarse, coarse, at_start, at_end))
        } else if micro && chain && !at_start && delay == coarse * 2 {
            Some(Self::place_delay(coarse, 1, at_start, at_end))
        } else if micro && chain && !at_start && delay >= coarse {
            Some(Self::place_delay(coarse - 1, 0, at_start, at_end))
        } else if micro && !chain && !at_start && delay > coarse {
            Some(Self::place_delay(coarse, 0, at_start, at_end))
        } else if micro && !chain && at_start && delay > coarse {
            Some(Self::place_delay(coarse, 0, at_start, at_end))
        } else if coarse == 1 && !chain && at_start && delay > 1 {
            Some(Self::place_delay(coarse, 0, at_start, at_end))
        } else if coarse == 1 && !chain && !at_start && delay > 1 {
            Some(Self::place_delay(coarse, 0, at_start, at_end))
        } else if at_start && delay > 4 {
            Some(Self::place_delay(4, 0, at_start, at_end))
        } else if !at_start && delay > 8 {
            Some(Self::place_delay(4, 4, at_start, at_end))
        } else if !at_start && delay > 4 {
            Some(Self::place_delay(4, 0, at_start, at_end))
        } else {
            None
        }
    }

    /// The tiles, two per pair, in order.
    pub fn tiles(&self) -> (r: &Vec<Tile>)
        ensures
            r@ == self.tiles_spec(),
    {
        &self.tiles
    }

    /// Packs timed chords into tiles. `repeater_coarse` caps the repeater
    /// delays (none: unlimited); `columns` wraps rows after that many tile
    /// pairs (none: one row).
    pub fn new(timed_notes: Vec<(Tick, Vec<Tone>)>, repeater_coarse: Option<Tick>, columns: Option<usize>) -> (r: Self)
        requires
            repeater_coarse matches Some(c) ==> c > 0,
            columns matches Some(c) ==> 0 < c <= usize::MAX / 2,
        ensures
            r.wf(),
            r.cols_spec() == (match columns {
                Some(c) => Some((c * 2) as usize),
                None => None,
            }),
            r.tiles_spec() == track_tiles(
                chords_view(timed_notes@),
                match repeater_coarse {
                    Some(c) => c,
                    None => Tick::MAX,
                },
                r.cols_spec(),
            ),
    {
        let coarse = match repeater_coarse {
            Some(c) => c,
            None => Tick::MAX,
        };
        let cols = match columns {
            Some(c) => Some(c * 2),
            None => None,
        };
        let mut track = Track { tiles: Vec::new(), cols };
        let mut current: Tick = Tick::MAX;
        let ghost groups = chords_view(timed_notes@);
        let mut i: usize = 0;
        while i < timed_notes.len()
            invariant
                0 <= i <= timed_notes.len(),
                groups == chords_view(timed_notes@),
                track.wf(),
                track.cols == cols,
                current == last_tick(groups.take(i as int)),
                track.tiles@ == track_tiles(groups.take(i as int), coarse, cols),
            decreases timed_notes.len() - i,
        {
            let tick = timed_notes[i].0;
            let mut notes: Vec<Tone> = copy_tones(&timed_notes[i].1);
            proof {
                assert(groups.take(i as int + 1).drop_last() =~= groups.take(i as int));
                assert(groups[i as int] == (tick, timed_notes@[i as int].1@));
            }
            let mut delay: Tick = tick.wrapping_sub(current);
            current = tick;
            let ghost target = emit_chord(track.tiles@, delay, notes@, coarse, cols);
            loop
                invariant
                    track.wf(),
                    track.cols == cols,
                    target == emit_chord(track.tiles@, delay, notes@, coarse, cols),
                ensures
                    target == emit_chord(track.tiles@, delay, notes@, coarse, cols),
                    emit_delays(track.tiles@, delay, coarse, cols) == (track.tiles@, delay),
                decreases delay,
            {
                match track.pop_delay(delay, coarse) {
                    Some((stem, canopy, consume)) => {
                        track.push_pair(stem, canopy);
                        delay = delay - consume;
                    },
                    None => break,
                }
            }
            let at_start = track.at_row_start();
            let at_end = track.at_row_end();
            let stem = Tile::stem(delay, at_start);
            let canopy = Tile::canopy(&mut notes, at_start, !at_end);
            track.push_pair(stem, canopy);
            if notes.len() > 0 {
                let at_start = track.at_row_start();
                let at_end = track.at_row_end();
                let is_terminal = !at_end && at_start && notes.len() <= 2;
                let stem = Tile::stem(0, at_start);
                let canopy = Tile::canopy(&mut notes, at_start, is_terminal);
                track.push_pair(stem, canopy);
            }
            while notes.len() > 0
                invariant
                    track.wf(),
                    track.cols == cols,
                    target == emit_rest(track.tiles@, notes@, cols),
                decreases notes.len(),
            {
                let at_start = track.at_row_start();
                let at_end = track.at_row_end();
                let is_terminal = !at_end && notes.len() <= if at_start { 2 } else { 3 };
                let stem = Tile::stem(0, at_start);
                let canopy = Tile::canopy(&mut notes, at_start, is_terminal);
                track.push_pair(stem, canopy);
            }
            i = i + 1;
        }
        proof {
            assert(groups.take(timed_notes@.len() as int) =~= groups);
        }
        track
    }
}

} // verus!

verus! {

/// A copy of the tones.
pub fn copy_tones(v: &Vec<Tone>) -> (r: Vec<Tone>)
    ensures
        r@ == v@,
{
    let mut out: Vec<Tone> = Vec::new();
    let mut i: usize = 0;
    while i < v.len()
        invariant
            0 <= i <= v.len(),
            out@ == v@.take(i as int),
        decreases v.len() - i,
    {
        out.push(v[i]);
        i = i + 1;
        proof {
            assert(out@ =~= v@.take(i as int));
        }
    }
    proof {
        assert(v@.take(v@.len() as int) =~= v@);
    }
    out
}

} // verus!

verus! {

/// Rows of a track: one without a row width, else enough for all tiles.
pub open spec fn rows_spec(len: nat, cols: Option<usize>) -> nat {
    match cols {
        Some(c) => if len % (c as nat) == 0 { len / (c as nat) } else { len / (c as nat) + 1 },
        None => 1,
    }
}

/// Row width, or the whole track without one.
pub open spec fn cols_or_len_spec(len: nat, cols: Option<usize>) -> nat {
    match cols {
        Some(c) => c as nat,
        None => len,
    }
}

/// The tile at `offset` within row `row`.
pub open spec fn tile_at(tiles: Seq<Tile>, width: nat, row: int, offset: int) -> Option<Tile> {
    if row >= 0 && row * width + offset < tiles.len() {
        Some(tiles[row * width + offset])
    } else {
        None
    }
}

/// Repeaters face east at the row ends and alternate south and north between.
pub open spec fn tile_facing(row: int, col: int) -> Facing {
    if col < 2 {
        Facing::East
    } else if row % 2 == 0 {
        Facing::South
    } else {
        Facing::North
    }
}

pub open spec fn tile_block_spec(tiles: Seq<Tile>, width: nat, row: int, col: int, idx: int) -> Option<BlockView> {
    match tile_at(tiles, width, row, col) {
        Some(t) => t.block_spec(idx as u8, tile_facing(row, col)),
        None => None,
    }
}

impl Track {
    /// Number of rows.
    fn rows(&self) -> (r: usize)
        requires
            self.wf(),
        ensures
            r == rows_spec(self.tiles@.len(), self.cols),
    {
        match self.cols {
            Some(c) => {
                let n = self.tiles.len();
                proof {
                    vstd::arithmetic::div_mod::lemma_div_is_ordered_by_denominator(n as int, 2, c as int);
                }
                if n % c == 0 { n / c } else { n / c + 1 }
            },
            None => 1,
        }
    }

    /// Row width, or the whole track without one.
    fn cols_or_len(&self) -> (r: usize)
        ensures
            r == cols_or_len_spec(self.tiles@.len(), self.cols),
    {
        match self.cols {
            Some(c) => c,
            None => self.tiles.len(),
        }
    }

    /// The tile at `offset` within row `row`.
    fn get_tile(&self, row: i32, offset: usize) -> (r: Option<Tile>)
        ensures
            r == tile_at(self.tiles@, cols_or_len_spec(self.tiles@.len(), self.cols), row as int, offset as int),
    {
        if row < 0 {
            return None;
        }
        let w = self.cols_or_len();
        let n = self.tiles.len();
        let r = row as usize;
        let ghost idx = row as int * w as int + offset as int;
        assert(r as int == row as int);
        match r.checked_mul(w) {
            Some(base) => match base.checked_add(offset) {
                Some(index) => {
                    assert(index as int == idx);
                    if index < self.tiles.len() {
                        Some(self.tiles[index])
                    } else {
                        None
                    }
                },
                None => {
                    assert(idx > usize::MAX);
                    None
                },
            },
            None => {
                assert(r as int * w as int > usize::MAX);
                assert(idx >= r as int * w as int);
                None
            },
        }
    }

    /// The block at `layout_idx` of the tile at `col` within row `row`.
    fn tile_block(&self, row: i32, col: usize, layout_idx: u8) -> (r: Option<BlockState>)
        ensures
            opt_view(r) == tile_block_spec(
                self.tiles@,
                cols_or_len_spec(self.tiles@.len(), self.cols),
                row as int,
                col as int,
                layout_idx as int,
            ),
    {
        let facing = if col < 2 {
            Facing::East
        } else if row % 2 == 0 {
            Facing::South
        } else {
            Facing::North
        };
        match self.get_tile(row, col) {
            Some(t) => {
                proof {
                    assert(row >= 0);
                }
                t.get_block(layout_idx, facing)
            },
            None => None,
        }
    }
}

// CompactLayout
//
// ++++++++++++============++++++++++++============++++++++++++============

/// A single compact note block track: one redstone sub-track's tiles in a
/// three-high zigzag with tooth-interlocked rows.
pub struct CompactLayout {
    track: Track,
    easting: i32,
    southing: i32,
}

/// The column of a tile in a row, given the position along the row.
pub open spec fn tile_col_spec(s: int, row: int, southing: int) -> int {
    if row % 2 == 0 {
        s + 1
    } else {
        southing - s
    }
}

/// The block of a compact track at `pos`.
pub open spec fn compact_block_spec(tiles: Seq<Tile>, width: nat, southing: int, pos: BlockPos) -> Option<BlockView> {
    let e = pos.x as int;
    let y = pos.y as int;
    let s = pos.z as int;
    if s == 0 {
        // north edge turn
        let e1 = e + 1;
        let g = e1 % 4;
        tile_block_spec(tiles, width, e1 / 4 * 2, g / 2, y + (g % 2) * 3)
    } else if s + 1 == southing {
        // south edge turn
        let e3 = e + 3;
        let g = e3 % 4;
        tile_block_spec(tiles, width, e3 / 4 * 2 - 1, g / 2, y + (g % 2) * 3)
    } else if e % 2 == 1 {
        // trunk row
        let row = e / 2;
        tile_block_spec(tiles, width, row, tile_col_spec(s, row, southing), y)
    } else {
        // tooth row
        let cell = e / 2;
        let zig = (cell + s) % 2;
        let row = cell - zig;
        tile_block_spec(tiles, width, row, tile_col_spec(s, row, southing), y + 3 + zig * 3)
    }
}

/// The repeater delay cap: unlimited without one.
pub open spec fn coarse_of(repeater_coarse: Option<Tick>) -> Tick {
    match repeater_coarse {
        Some(c) => c,
        None => Tick::MAX,
    }
}

/// Tile pairs per row: twice the wrap length.
pub open spec fn cols_of(wrap_length: Option<usize>) -> Option<usize> {
    match wrap_length {
        Some(c) => Some((c * 2) as usize),
        None => None,
    }
}

/// The tiles of a compact layout.
pub open spec fn compact_tiles(chords: Seq<(Tick, Seq<Tone>)>, repeater_coarse: Option<Tick>, wrap_length: Option<usize>) -> Seq<Tile> {
    track_tiles(chords, coarse_of(repeater_coarse), cols_of(wrap_length))
}

/// The layout's extent fits the coordinate range.
pub open spec fn compact_fits(tiles: Seq<Tile>, cols: Option<usize>) -> bool {
    &&& rows_spec(tiles.len(), cols) * 2 + 1 <= i32::MAX - 2
    &&& cols_or_len_spec(tiles.len(), cols) <= i32::MAX
}

/// The bounding box of a compact layout: two blocks per row plus one, three
/// high, a row's tiles deep.
pub open spec fn compact_size(tiles: Seq<Tile>, cols: Option<usize>) -> BlockPos {
    BlockPos {
        x: (rows_spec(tiles.len(), cols) * 2 + 1) as i32,
        y: 3,
        z: cols_or_len_spec(tiles.len(), cols) as i32,
    }
}

impl CompactLayout {
    pub closed spec fn tiles_spec(&self) -> Seq<Tile> {
        self.track.tiles@
    }

    pub closed spec fn width_spec(&self) -> nat {
        cols_or_len_spec(self.track.tiles@.len(), self.track.cols)
    }

    /// Create a compact layout from redstone-tick-grouped chords of one
    /// redstone tick line.
    pub fn new(notes: Vec<(Tick, Vec<Tone>)>, repeater_coarse: Option<Tick>, wrap_length: Option<usize>) -> (r: Self)
        requires
            repeater_coarse matches Some(c) ==> c > 0,
            wrap_length matches Some(c) ==> 0 < c <= usize::MAX / 2,
            compact_fits(compact_tiles(chords_view(notes@), repeater_coarse, wrap_length), cols_of(wrap_length)),
        ensures
            r.wf(),
            r.tiles_spec() == compact_tiles(chords_view(notes@), repeater_coarse, wrap_length),
            r.size_spec() == compact_size(r.tiles_spec(), cols_of(wrap_length)),
            forall|pos: BlockPos| #[trigger] r.block_spec(pos) == compact_block_spec(
                r.tiles_spec(),
                cols_or_len_spec(r.tiles_spec().len(), cols_of(wrap_length)),
                r.size_spec().z as int,
                pos,
            ),
    {
        let track = Track::new(notes, repeater_coarse, wrap_length);
        let easting = (track.rows() * 2 + 1) as i32;
        let southing = track.cols_or_len() as i32;
        CompactLayout { track, easting, southing }
    }
}

impl Layout for CompactLayout {
    closed spec fn wf(&self) -> bool {
        &&& self.track.wf()
        &&& 0 < self.easting <= i32::MAX - 2
        &&& 0 <= self.southing <= i32::MAX
        &&& self.southing == cols_or_len_spec(self.track.tiles@.len(), self.track.cols)
    }

    closed spec fn size_spec(&self) -> BlockPos {
        BlockPos { x: self.easting, y: 3, z: self.southing }
    }

    closed spec fn block_spec(&self, pos: BlockPos) -> Option<BlockView> {
        compact_block_spec(self.track.tiles@, cols_or_len_spec(self.track.tiles@.len(), self.track.cols), self.southing as int, pos)
    }

    fn block_at(&self, pos: BlockPos) -> (r: Option<BlockState>) {
        let easting = pos.x;
        let elevation = pos.y;
        let southing = pos.z;
        if southing == 0 {
            let e = easting + 1;
            let group = e % 4;
            let row = e / 4 * 2;
            let col = (group / 2) as usize;
            let idx = (elevation + (group % 2) * 3) as u8;
            self.track.tile_block(row, col, idx)
        } else if southing + 1 == self.southing {
            let e = easting + 3;
            let group = e % 4;
            let row = e / 4 * 2 - 1;
            let col = (group / 2) as usize;
            let idx = (elevation + (group % 2) * 3) as u8;
            self.track.tile_block(row, col, idx)
        } else if easting % 2 == 1 {
            let row = easting / 2;
            let col = if row % 2 == 0 { southing + 1 } else { self.southing - southing };
            self.track.tile_block(row, col as usize, elevation as u8)
        } else {
            let cell = easting / 2;
            let zig = (cell % 2 + southing % 2) % 2;
            let row = cell - zig;
            if row < 0 {
                proof {
                    assert(tile_at(self.track.tiles@, cols_or_len_spec(self.track.tiles@.len(), self.track.cols), row as int, 0).is_none());
                }
                return None;
            }
            let col = if row % 2 == 0 { southing + 1 } else { self.southing - southing };
            self.track.tile_block(row, col as usize, (elevation + 3 + zig * 3) as u8)
        }
    }

    fn size(&self) -> (r: BlockPos) {
        BlockPos { x: self.easting, y: 3, z: self.southing }
    }
}

// MultiCompactLayout
//
// ++++++++++++============++++++++++++============++++++++++++============

/// `bucket`, a chord list ordered by tick, with `notes` filed at `key`:
/// appended to the chord there, or a new chord in order.
pub open spec fn bucket_insert(bucket: Seq<(Tick, Seq<Tone>)>, key: Tick, notes: Seq<Tone>) -> Seq<(Tick, Seq<Tone>)>
    decreases bucket.len(),
{
    if bucket.len() == 0 {
        seq![(key, notes)]
    } else if bucket[0].0 == key {
        seq![(key, bucket[0].1 + notes)] + bucket.skip(1)
    } else if bucket[0].0 > key {
        seq![(key, notes)] + bucket
    } else {
        seq![bucket[0]] + bucket_insert(bucket.skip(1), key, notes)
    }
}

/// The chords of a game-tick track on the redstone-tick line of `parity`:
/// game tick `t` of that parity lands on redstone tick `t / 2`, ordered by
/// redstone tick, chords of one redstone tick joined in track order.
pub open spec fn parity_bucket(track: Seq<(Tick, Seq<Tone>)>, parity: Tick) -> Seq<(Tick, Seq<Tone>)>
    decreases track.len(),
{
    if track.len() == 0 {
        Seq::empty()
    } else {
        let prev = parity_bucket(track.drop_last(), parity);
        let e = track.last();
        if e.0 % 2 == parity {
            bucket_insert(prev, e.0 / 2, e.1)
        } else {
            prev
        }
    }
}

/// A chord list with strictly ascending ticks.
pub open spec fn ticks_ascending(b: Seq<(Tick, Seq<Tone>)>) -> bool {
    forall|i: int, j: int| 0 <= i < j < b.len() ==> #[trigger] b[i].0 < #[trigger] b[j].0
}

/// Filing keeps a chord list ascending, and above any bound that its ticks
/// and the new tick are above.
proof fn lemma_bucket_insert_sorted(s: Seq<(Tick, Seq<Tone>)>, key: Tick, notes: Seq<Tone>, lo: int)
    requires
        ticks_ascending(s),
        forall|j: int| 0 <= j < s.len() ==> #[trigger] s[j].0 > lo,
        key > lo,
    ensures
        ticks_ascending(bucket_insert(s, key, notes)),
        forall|i: int| 0 <= i < bucket_insert(s, key, notes).len() ==> #[trigger] bucket_insert(s, key, notes)[i].0 > lo,
    decreases s.len(),
{
    if s.len() > 0 && s[0].0 < key {
        let rest = s.skip(1);
        assert forall|j: int| 0 <= j < rest.len() implies #[trigger] rest[j].0 > s[0].0 by {
            assert(s[0].0 < s[j + 1].0);
        }
        lemma_bucket_insert_sorted(rest, key, notes, s[0].0 as int);
        let r = bucket_insert(rest, key, notes);
        assert(bucket_insert(s, key, notes) == seq![s[0]] + r);
    } else if s.len() > 0 && s[0].0 == key {
        assert forall|i: int, j: int| 0 <= i < j < bucket_insert(s, key, notes).len() implies
            #[trigger] bucket_insert(s, key, notes)[i].0 < #[trigger] bucket_insert(s, key, notes)[j].0 by {
            assert(s[i].0 < s[j].0);
        }
    }
}

/// Each redstone-tick line of a track is ordered by strictly ascending tick,
/// one chord per tick.
pub proof fn lemma_parity_bucket_sorted(track: Seq<(Tick, Seq<Tone>)>, parity: Tick)
    ensures
        ticks_ascending(parity_bucket(track, parity)),
    decreases track.len(),
{
    if track.len() > 0 {
        lemma_parity_bucket_sorted(track.drop_last(), parity);
        let prev = parity_bucket(track.drop_last(), parity);
        let e = track.last();
        if e.0 % 2 == parity {
            lemma_bucket_insert_sorted(prev, e.0 / 2, e.1, -1);
        }
    }
}

/// The notes of chords with one more chord in front.
proof fn lemma_chords_notes_prepend(x: (Tick, Seq<Tone>), s: Seq<(Tick, Seq<Tone>)>)
    ensures
        chords_notes(seq![x] + s) == x.1.to_multiset().add(chords_notes(s)),
    decreases s.len(),
{
    broadcast use vstd::multiset::group_multiset_axioms;
    if s.len() == 0 {
        let t = seq![x] + s;
        assert(t.drop_last() =~= Seq::<(Tick, Seq<Tone>)>::empty());
        assert(t.last() == x);
        assert(chords_notes(t.drop_last()) == Multiset::<Tone>::empty());
        assert(chords_notes(s) == Multiset::<Tone>::empty());
        assert(chords_notes(t) =~= x.1.to_multiset().add(chords_notes(s)));
    } else {
        lemma_chords_notes_prepend(x, s.drop_last());
        assert((seq![x] + s).drop_last() =~= seq![x] + s.drop_last());
        assert(chords_notes(seq![x] + s) =~= x.1.to_multiset().add(chords_notes(s)));
    }
}

/// Filing notes into a chord list adds exactly those notes.
proof fn lemma_bucket_insert_notes(s: Seq<(Tick, Seq<Tone>)>, key: Tick, notes: Seq<Tone>)
    ensures
        chords_notes(bucket_insert(s, key, notes)) == chords_notes(s).add(notes.to_multiset()),
    decreases s.len(),
{
    broadcast use vstd::seq_lib::group_to_multiset_ensures, vstd::multiset::group_multiset_axioms;
    if s.len() == 0 {
        lemma_chords_notes_prepend((key, notes), s);
        assert(chords_notes(bucket_insert(s, key, notes)) =~= chords_notes(s).add(notes.to_multiset()));
    } else {
        let rest = s.skip(1);
        assert(s =~= seq![s[0]] + rest);
        lemma_chords_notes_prepend(s[0], rest);
        if s[0].0 == key {
            lemma_chords_notes_prepend((key, s[0].1 + notes), rest);
            vstd::seq_lib::lemma_multiset_commutative(s[0].1, notes);
            assert(chords_notes(bucket_insert(s, key, notes)) =~= chords_notes(s).add(notes.to_multiset()));
        } else if s[0].0 > key {
            lemma_chords_notes_prepend((key, notes), s);
            assert(chords_notes(bucket_insert(s, key, notes)) =~= chords_notes(s).add(notes.to_multiset()));
        } else {
            lemma_bucket_insert_notes(rest, key, notes);
            lemma_chords_notes_prepend(s[0], bucket_insert(rest, key, notes));
            assert(chords_notes(bucket_insert(s, key, notes)) =~= chords_notes(s).add(notes.to_multiset()));
        }
    }
}

/// Splitting a track into its even and odd redstone-tick lines keeps every
/// note: the two lines together hold exactly the track's notes.
pub proof fn lemma_split_keeps_every_note(track: Seq<(Tick, Seq<Tone>)>)
    ensures
        chords_notes(parity_bucket(track, 0)).add(chords_notes(parity_bucket(track, 1))) == chords_notes(track),
    decreases track.len(),
{
    broadcast use vstd::multiset::group_multiset_axioms;
    if track.len() == 0 {
        assert(chords_notes(parity_bucket(track, 0)).add(chords_notes(parity_bucket(track, 1))) =~= chords_notes(track));
    } else {
        let prev = track.drop_last();
        let e = track.last();
        lemma_split_keeps_every_note(prev);
        if e.0 % 2 == 0 {
            lemma_bucket_insert_notes(parity_bucket(prev, 0), e.0 / 2, e.1);
        } else {
            lemma_bucket_insert_notes(parity_bucket(prev, 1), e.0 / 2, e.1);
        }
        assert(chords_notes(parity_bucket(track, 0)).add(chords_notes(parity_bucket(track, 1))) =~= chords_notes(track));
    }
}

/// Filing into a bucket at the first position whose tick is not below `key`.
proof fn lemma_bucket_insert_at(s: Seq<(Tick, Seq<Tone>)>, key: Tick, notes: Seq<Tone>, i: int)
    requires
        0 <= i <= s.len(),
        forall|j: int| 0 <= j < i ==> #[trigger] s[j].0 < key,
        i < s.len() ==> s[i].0 >= key,
    ensures
        bucket_insert(s, key, notes) == if i < s.len() && s[i].0 == key {
            s.update(i, (key, s[i].1 + notes))
        } else {
            s.insert(i, (key, notes))
        },
    decreases i,
{
    if i == 0 {
        if s.len() > 0 && s[0].0 == key {
            assert(seq![(key, s[0].1 + notes)] + s.skip(1) =~= s.update(0, (key, s[0].1 + notes)));
        } else if s.len() > 0 {
            assert(seq![(key, notes)] + s =~= s.insert(0, (key, notes)));
        } else {
            assert(seq![(key, notes)] =~= s.insert(0, (key, notes)));
        }
    } else {
        let rest = s.skip(1);
        assert forall|j: int| 0 <= j < i - 1 implies #[trigger] rest[j].0 < key by {
            assert(rest[j] == s[j + 1]);
        }
        lemma_bucket_insert_at(rest, key, notes, i - 1);
        assert(s[0].0 < key);
        if i < s.len() && s[i].0 == key {
            assert(seq![s[0]] + rest.update(i - 1, (key, rest[i - 1].1 + notes)) =~= s.update(i, (key, s[i].1 + notes)));
        } else {
            assert(seq![s[0]] + rest.insert(i - 1, (key, notes)) =~= s.insert(i, (key, notes)));
        }
    }
}

/// Files `notes` at redstone tick `key` of an ordered chord list.
fn bucket_add(bucket: &mut Vec<(Tick, Vec<Tone>)>, key: Tick, notes: Vec<Tone>)
    ensures
        chords_view(final(bucket)@) == bucket_insert(chords_view(old(bucket)@), key, notes@),
{
    let ghost s = chords_view(bucket@);
    let mut i: usize = 0;
    while i < bucket.len() && bucket[i].0 < key
        invariant
            0 <= i <= bucket@.len(),
            s == chords_view(bucket@),
            forall|j: int| 0 <= j < i ==> #[trigger] s[j].0 < key,
        decreases bucket@.len() - i,
    {
        i = i + 1;
    }
    proof {
        lemma_bucket_insert_at(s, key, notes@, i as int);
    }
    if i < bucket.len() && bucket[i].0 == key {
        let ghost n = notes@;
        let mut entry = bucket.remove(i);
        let mut notes = notes;
        entry.1.append(&mut notes);
        bucket.insert(i, entry);
        proof {
            assert(chords_view(bucket@) =~= s.update(i as int, (key, s[i as int].1 + n)));
        }
    } else {
        let ghost n = notes@;
        bucket.insert(i, (key, notes));
        proof {
            assert(chords_view(bucket@) =~= s.insert(i as int, (key, n)));
        }
    }
}

/// Notes filed by tick: chords at ascending ticks, each holding its tones
/// in the order they came.
pub open spec fn tick_groups(notes: Seq<(Tick, Tone)>) -> Seq<(Tick, Seq<Tone>)>
    decreases notes.len(),
{
    if notes.len() == 0 {
        Seq::empty()
    } else {
        bucket_insert(tick_groups(notes.drop_last()), notes.last().0, seq![notes.last().1])
    }
}

/// Files timed notes into chords by tick.
pub fn group_by_tick(notes: &Vec<(Tick, Tone)>) -> (r: Vec<(Tick, Vec<Tone>)>)
    ensures
        chords_view(r@) == tick_groups(notes@),
{
    let mut out: Vec<(Tick, Vec<Tone>)> = Vec::new();
    let mut k: usize = 0;
    proof {
        assert(notes@.take(0) =~= Seq::<(Tick, Tone)>::empty());
        assert(chords_view(out@) =~= Seq::<(Tick, Seq<Tone>)>::empty());
    }
    while k < notes.len()
        invariant
            0 <= k <= notes@.len(),
            chords_view(out@) == tick_groups(notes@.take(k as int)),
        decreases notes@.len() - k,
    {
        let (t, tone) = notes[k];
        let chord = vec![tone];
        proof {
            assert(chord@ =~= seq![tone]);
            assert(notes@.take(k + 1).drop_last() =~= notes@.take(k as int));
            assert(notes@.take(k + 1).last() == notes@[k as int]);
        }
        bucket_add(&mut out, t, chord);
        k = k + 1;
    }
    proof {
        assert(notes@.take(k as int) =~= notes@);
    }
    out
}

/// Splits a game-tick track into its even and odd redstone-tick lines.
pub fn split_even_odd(track: &Vec<(Tick, Vec<Tone>)>) -> (r: (Vec<(Tick, Vec<Tone>)>, Vec<(Tick, Vec<Tone>)>))
    ensures
        chords_view(r.0@) == parity_bucket(chords_view(track@), 0),
        chords_view(r.1@) == parity_bucket(chords_view(track@), 1),
{
    let mut even: Vec<(Tick, Vec<Tone>)> = Vec::new();
    let mut odd: Vec<(Tick, Vec<Tone>)> = Vec::new();
    let mut k: usize = 0;
    proof {
        assert(chords_view(track@).take(0) =~= Seq::<(Tick, Seq<Tone>)>::empty());
        assert(chords_view(even@) =~= Seq::<(Tick, Seq<Tone>)>::empty());
        assert(chords_view(odd@) =~= Seq::<(Tick, Seq<Tone>)>::empty());
    }
    while k < track.len()
        invariant
            0 <= k <= track@.len(),
            chords_view(even@) == parity_bucket(chords_view(track@).take(k as int), 0),
            chords_view(odd@) == parity_bucket(chords_view(track@).take(k as int), 1),
        decreases track@.len() - k,
    {
        let tick = track[k].0;
        let notes = copy_tones(&track[k].1);
        proof {
            let v = chords_view(track@);
            assert(v.take(k + 1).drop_last() =~= v.take(k as int));
            assert(v.take(k + 1).last() == (tick, notes@));
        }
        if tick % 2 == 0 {
            bucket_add(&mut even, tick / 2, notes);
        } else {
            bucket_add(&mut odd, tick / 2, notes);
        }
        k = k + 1;
    }
    proof {
        assert(chords_view(track@).take(k as int) =~= chords_view(track@));
    }
    (even, odd)
}

/// The compact sub-tracks of one song track: its even and odd redstone
/// lines that hold chords, with the track's repeater cap.
pub open spec fn track_parts(track: (Vec<(Tick, Vec<Tone>)>, Option<Tick>)) -> Seq<(Seq<(Tick, Seq<Tone>)>, Option<Tick>)> {
    let even = parity_bucket(chords_view(track.0@), 0);
    let odd = parity_bucket(chords_view(track.0@), 1);
    (if even.len() > 0 { seq![(even, track.1)] } else { Seq::empty() }) + (if odd.len() > 0 {
        seq![(odd, track.1)]
    } else {
        Seq::empty()
    })
}

/// The compact sub-tracks of a song, track by track.
pub open spec fn compact_parts(tracks: Seq<(Vec<(Tick, Vec<Tone>)>, Option<Tick>)>) -> Seq<(Seq<(Tick, Seq<Tone>)>, Option<Tick>)>
    decreases tracks.len(),
{
    if tracks.len() == 0 {
        Seq::empty()
    } else {
        compact_parts(tracks.drop_last()) + track_parts(tracks.last())
    }
}

/// The tiles of a compact sub-track.
pub open spec fn part_tiles(part: (Seq<(Tick, Seq<Tone>)>, Option<Tick>), wrap_length: Option<usize>) -> Seq<Tile> {
    compact_tiles(part.0, part.1, wrap_length)
}

/// The east offset of sub-track `k`: the widths before it, each followed by the gap.
pub open spec fn parts_offset(parts: Seq<(Seq<(Tick, Seq<Tone>)>, Option<Tick>)>, wrap_length: Option<usize>, gap: int, k: int) -> int
    decreases k,
{
    if k <= 0 {
        0
    } else {
        parts_offset(parts, wrap_length, gap, k - 1) + compact_size(part_tiles(parts[k - 1], wrap_length), cols_of(wrap_length)).x + gap
    }
}

/// Every repeater cap is positive, every wrap length usable, and every
/// sub-track, and all of them side by side, fit the coordinate range.
pub open spec fn compact_tracks_fit(tracks: Seq<(Vec<(Tick, Vec<Tone>)>, Option<Tick>)>, wrap_length: Option<usize>, gap: u32) -> bool {
    let parts = compact_parts(tracks);
    &&& forall|t: int| 0 <= t < tracks.len() ==> ((#[trigger] tracks[t]).1 matches Some(c) ==> c > 0)
    &&& wrap_length matches Some(c) ==> 0 < c <= usize::MAX / 2
    &&& forall|k: int| 0 <= k < parts.len() ==> compact_fits(part_tiles(#[trigger] parts[k], wrap_length), cols_of(wrap_length))
    &&& gap <= i32::MAX
    &&& parts_offset(parts, wrap_length, gap as int, parts.len() as int) <= i32::MAX
}

/// The compact layouts of one song track: one for each of its even and odd
/// redstone lines that holds chords.
fn track_layouts(track: (Vec<(Tick, Vec<Tone>)>, Option<Tick>), wrap_length: Option<usize>) -> (r: Vec<CompactLayout>)
    requires
        track.1 matches Some(c) ==> c > 0,
        wrap_length matches Some(c) ==> 0 < c <= usize::MAX / 2,
        forall|k: int| 0 <= k < track_parts(track).len() ==>
            compact_fits(part_tiles(#[trigger] track_parts(track)[k], wrap_length), cols_of(wrap_length)),
    ensures
        r@.len() == track_parts(track).len(),
        forall|k: int| 0 <= k < r@.len() ==> (#[trigger] r@[k]).wf()
            && r@[k].tiles_spec() == part_tiles(track_parts(track)[k], wrap_length)
            && r@[k].size_spec() == compact_size(part_tiles(track_parts(track)[k], wrap_length), cols_of(wrap_length)),
{
    let (notes, coarse) = track;
    let (even, odd) = split_even_odd(&notes);
    let ghost ps = track_parts(track);
    let mut out: Vec<CompactLayout> = Vec::new();
    if even.len() > 0 {
        proof {
            assert(ps[0] == (chords_view(even@), coarse));
        }
        out.push(CompactLayout::new(even, coarse, wrap_length));
    }
    if odd.len() > 0 {
        proof {
            assert(ps[out@.len() as int] == (chords_view(odd@), coarse));
        }
        out.push(CompactLayout::new(odd, coarse, wrap_length));
    }
    out
}

/// Whether the compact sub-track of `notes` fits, and its width plus the gap.
fn part_width(notes: Vec<(Tick, Vec<Tone>)>, coarse: Option<Tick>, wrap_length: Option<usize>, gap: u32) -> (r: Option<u128>)
    requires
        coarse matches Some(c) ==> c > 0,
        wrap_length matches Some(c) ==> 0 < c <= usize::MAX / 2,
    ensures
        r is Some <==> compact_fits(compact_tiles(chords_view(notes@), coarse, wrap_length), cols_of(wrap_length)),
        r matches Some(w) ==> w == compact_size(compact_tiles(chords_view(notes@), coarse, wrap_length), cols_of(wrap_length)).x + gap,
{
    let track = Track::new(notes, coarse, wrap_length);
    let rows = track.rows();
    let cols = track.cols_or_len();
    if rows > ((i32::MAX - 3) / 2) as usize || cols > i32::MAX as usize {
        None
    } else {
        Some((rows * 2 + 1) as u128 + gap as u128)
    }
}

/// Whether a song's tracks fit a compact layout: the condition
/// [`MultiCompactLayout::new`] asks for.
#[verifier::rlimit(60)]
pub fn compact_tracks_fit_check(tracks: &Vec<(Vec<(Tick, Vec<Tone>)>, Option<Tick>)>, wrap_length: Option<usize>, gap: u32) -> (r: bool)
    ensures
        r == compact_tracks_fit(tracks@, wrap_length, gap),
{
    let ghost ts = tracks@;
    let mut t: usize = 0;
    while t < tracks.len()
        invariant
            0 <= t <= ts.len(),
            ts == tracks@,
            forall|u: int| 0 <= u < t ==> ((#[trigger] ts[u]).1 matches Some(c) ==> c > 0),
        decreases ts.len() - t,
    {
        if let Some(c) = tracks[t].1 {
            if c == 0 {
                proof {
                    assert(!(ts[t as int].1 matches Some(c) ==> c > 0));
                }
                return false;
            }
        }
        t = t + 1;
    }
    match wrap_length {
        Some(c) => if c == 0 || c > usize::MAX / 2 {
            return false;
        },
        None => {},
    }
    if gap > i32::MAX as u32 {
        return false;
    }
    let ghost parts = compact_parts(ts);
    let mut sum: u128 = 0;
    let ghost mut count: int = 0;
    let mut t: usize = 0;
    proof {
        assert(ts.take(0) =~= Seq::<(Vec<(Tick, Vec<Tone>)>, Option<Tick>)>::empty());
    }
    while t < tracks.len()
        invariant
            0 <= t <= ts.len(),
            ts == tracks@,
            parts == compact_parts(ts),
            forall|u: int| 0 <= u < ts.len() ==> ((#[trigger] ts[u]).1 matches Some(c) ==> c > 0),
            wrap_length matches Some(c) ==> 0 < c <= usize::MAX / 2,
            gap <= i32::MAX,
            count == compact_parts(ts.take(t as int)).len(),
            count <= parts.len(),
            0 <= count <= 2 * t,
            forall|k: int| 0 <= k < count ==> compact_fits(part_tiles(#[trigger] parts[k], wrap_length), cols_of(wrap_length)),
            sum as int == parts_offset(parts, wrap_length, gap as int, count),
            sum <= count * 0x1_0000_0000,
        decreases ts.len() - t,
    {
        let (even, odd) = split_even_odd(&tracks[t].0);
        let coarse = tracks[t].1;
        let ghost base = count;
        let ghost cp1 = compact_parts(ts.take(t + 1));
        let ghost tp = track_parts(ts[t as int]);
        proof {
            assert(ts.take(t + 1).drop_last() =~= ts.take(t as int));
            assert(ts.take(t + 1).last() == ts[t as int]);
            lemma_parts_prefix(ts, t + 1);
            assert(cp1 == compact_parts(ts.take(t as int)) + tp);
            assert(tp.len() <= 2);
        }
        let ghost ev = chords_view(even@);
        let ghost od = chords_view(odd@);
        if even.len() > 0 {
            proof {
                assert(tp[0] == (ev, coarse));
                assert(cp1[base] == tp[0]);
                assert(cp1[base] == parts[base]);
            }
            match part_width(even, coarse, wrap_length, gap) {
                Some(w) => {
                    sum = sum + w;
                    proof {
                        assert(part_tiles(parts[base], wrap_length) == compact_tiles(ev, coarse, wrap_length));
                        assert(parts_offset(parts, wrap_length, gap as int, base + 1) == parts_offset(parts, wrap_length, gap as int, base)
                            + compact_size(part_tiles(parts[base], wrap_length), cols_of(wrap_length)).x + gap);
                        count = count + 1;
                    }
                },
                None => return false,
            }
        }
        if odd.len() > 0 {
            proof {
                assert(tp[count - base] == (od, coarse));
                assert(cp1[count] == tp[count - base]);
                assert(cp1[count] == parts[count]);
            }
            match part_width(odd, coarse, wrap_length, gap) {
                Some(w) => {
                    sum = sum + w;
                    proof {
                        let c0 = count;
                        assert(part_tiles(parts[c0], wrap_length) == compact_tiles(od, coarse, wrap_length));
                        assert(parts_offset(parts, wrap_length, gap as int, c0 + 1) == parts_offset(parts, wrap_length, gap as int, c0)
                            + compact_size(part_tiles(parts[c0], wrap_length), cols_of(wrap_length)).x + gap);
                        count = count + 1;
                    }
                },
                None => return false,
            }
        }
        proof {
            assert(count == cp1.len());
        }
        t = t + 1;
    }
    proof {
        assert(ts.take(t as int) =~= ts);
    }
    sum <= i32::MAX as u128
}

/// Multiple compact note block tracks placed side by side: each song track
/// split into its even and odd redstone-tick lines, each line that holds
/// chords one compact layout, arranged east `gap` blocks apart.
pub struct MultiCompactLayout(Arranged<CompactLayout>);

impl MultiCompactLayout {
    /// The compact layouts with their anchors.
    pub closed spec fn bands_spec(&self) -> Seq<(CompactLayout, BlockPos)> {
        self.0.bands_spec()
    }

    pub fn new(tracks: Vec<(Vec<(Tick, Vec<Tone>)>, Option<Tick>)>, wrap_length: Option<usize>, gap: u32) -> (r: Self)
        requires
            compact_tracks_fit(tracks@, wrap_length, gap),
        ensures
            r.wf(),
            r.bands_spec().len() == compact_parts(tracks@).len(),
            forall|k: int| 0 <= k < r.bands_spec().len() ==> (#[trigger] r.bands_spec()[k]).0.tiles_spec()
                == part_tiles(compact_parts(tracks@)[k], wrap_length),
            forall|k: int| 0 <= k < r.bands_spec().len() ==> (#[trigger] r.bands_spec()[k]).1 == (BlockPos {
                x: parts_offset(compact_parts(tracks@), wrap_length, gap as int, k) as i32,
                y: 0,
                z: 0,
            }),
            r.size_spec() == arranged_size(
                r.bands_spec().map_values(|b: (CompactLayout, BlockPos)| b.0),
                BlockPos { x: 1, y: 0, z: 0 },
                gap as int,
            ),
            forall|pos: BlockPos| in_box(r.size_spec(), pos) ==> #[trigger] r.block_spec(pos) == arranged_block(r.bands_spec(), pos),
    {
        let ghost ts = tracks@;
        let mut tracks = tracks;
        let mut backwards: Vec<(Vec<(Tick, Vec<Tone>)>, Option<Tick>)> = Vec::new();
        while tracks.len() > 0
            invariant
                backwards@.len() + tracks@.len() == ts.len(),
                tracks@ == ts.take(tracks@.len() as int),
                forall|k: int| 0 <= k < backwards@.len() ==> #[trigger] backwards@[k] == ts[ts.len() - 1 - k],
            decreases tracks.len(),
        {
            let t = tracks.pop().unwrap();
            backwards.push(t);
            proof {
                assert(tracks@ =~= ts.take(tracks@.len() as int));
            }
        }
        let ghost parts = compact_parts(ts);
        let total = backwards.len();
        let mut layouts: Vec<CompactLayout> = Vec::new();
        let mut done: usize = 0;
        proof {
            assert(ts.take(0) =~= Seq::<(Vec<(Tick, Vec<Tone>)>, Option<Tick>)>::empty());
        }
        while backwards.len() > 0
            invariant
                backwards@.len() + done == ts.len(),
                total == ts.len(),
                forall|k: int| 0 <= k < backwards@.len() ==> #[trigger] backwards@[k] == ts[ts.len() - 1 - k],
                compact_tracks_fit(ts, wrap_length, gap),
                parts == compact_parts(ts),
                compact_parts(ts.take(done as int)).len() == layouts@.len(),
                forall|k: int| 0 <= k < layouts@.len() ==> (#[trigger] layouts@[k]).wf(),
                forall|k: int| 0 <= k < layouts@.len() ==> (#[trigger] layouts@[k]).tiles_spec()
                    == part_tiles(parts[k], wrap_length),
                forall|k: int| 0 <= k < layouts@.len() ==> (#[trigger] layouts@[k]).size_spec()
                    == compact_size(part_tiles(parts[k], wrap_length), cols_of(wrap_length)),
            decreases backwards.len(),
        {
            let track = backwards.pop().unwrap();
            let ghost before = layouts@;
            proof {
                assert(track == ts[done as int]);
                assert(ts.take(done + 1).drop_last() =~= ts.take(done as int));
                assert(ts.take(done + 1).last() == ts[done as int]);
                lemma_parts_prefix(ts, done as int + 1);
                let base = compact_parts(ts.take(done as int)).len() as int;
                assert forall|k: int| 0 <= k < track_parts(track).len() implies
                    #[trigger] track_parts(track)[k] == parts[base + k] by {
                    assert(compact_parts(ts.take(done + 1))[base + k] == track_parts(track)[k]);
                }
                assert forall|k: int| 0 <= k < track_parts(track).len() implies
                    compact_fits(part_tiles(#[trigger] track_parts(track)[k], wrap_length), cols_of(wrap_length)) by {
                    assert(track_parts(track)[k] == parts[base + k]);
                }
                assert((track.1 matches Some(c) ==> c > 0)) by {
                    assert(ts[done as int] == track);
                }
            }
            let mut more = track_layouts(track, wrap_length);
            layouts.append(&mut more);
            proof {
                let base = before.len() as int;
                assert forall|k: int| 0 <= k < layouts@.len() implies (#[trigger] layouts@[k]).tiles_spec()
                    == part_tiles(parts[k], wrap_length) && layouts@[k].wf()
                    && layouts@[k].size_spec() == compact_size(part_tiles(parts[k], wrap_length), cols_of(wrap_length)) by {
                    if k >= base {
                        assert(track_parts(track)[k - base] == parts[k]);
                    }
                }
            }
            done = done + 1;
        }
        proof {
            assert(ts.take(done as int) =~= ts);
            assert forall|k: int| 0 <= k < layouts@.len() implies nonneg(#[trigger] layouts@[k].size_spec()) by {
                assert(compact_fits(part_tiles(parts[k], wrap_length), cols_of(wrap_length)));
            }
            lemma_parts_offset(layouts@, parts, wrap_length, gap as int, layouts@.len() as int);
        }
        let ghost ls = layouts@;
        let arranged = Arranged::new(layouts, Axis::Easting, gap);
        proof {
            assert forall|k: int| 0 <= k < ls.len() implies #[trigger] arranged.bands_spec()[k].1 == (BlockPos {
                x: parts_offset(parts, wrap_length, gap as int, k) as i32,
                y: 0,
                z: 0,
            }) by {
                lemma_parts_offset(ls, parts, wrap_length, gap as int, k);
            }
            assert(arranged.bands_spec().map_values(|b: (CompactLayout, BlockPos)| b.0) =~= ls);
        }
        MultiCompactLayout(arranged)
    }
}

/// The parts of a prefix of the tracks are a prefix of the parts.
proof fn lemma_parts_prefix(ts: Seq<(Vec<(Tick, Vec<Tone>)>, Option<Tick>)>, t: int)
    requires
        0 <= t <= ts.len(),
    ensures
        compact_parts(ts.take(t)).len() <= compact_parts(ts).len(),
        forall|k: int| 0 <= k < compact_parts(ts.take(t)).len() ==> #[trigger] compact_parts(ts.take(t))[k] == compact_parts(ts)[k],
    decreases ts.len() - t,
{
    if t < ts.len() {
        lemma_parts_prefix(ts, t + 1);
        assert(ts.take(t + 1).drop_last() =~= ts.take(t));
        assert(compact_parts(ts.take(t + 1)) == compact_parts(ts.take(t)) + track_parts(ts[t]));
        assert forall|k: int| 0 <= k < compact_parts(ts.take(t)).len() implies
            #[trigger] compact_parts(ts.take(t))[k] == compact_parts(ts.take(t + 1))[k] by {}
    } else {
        assert(ts.take(t) =~= ts);
    }
}

/// The arrangement's offsets are the sub-tracks' widths and gaps.
proof fn lemma_parts_offset(ls: Seq<CompactLayout>, parts: Seq<(Seq<(Tick, Seq<Tone>)>, Option<Tick>)>, wrap_length: Option<usize>, gap: int, k: int)
    requires
        0 <= k <= ls.len(),
        ls.len() == parts.len(),
        forall|j: int| 0 <= j < ls.len() ==> (#[trigger] ls[j]).size_spec()
            == compact_size(part_tiles(parts[j], wrap_length), cols_of(wrap_length)),
    ensures
        arranged_offset(ls, Axis::Easting.unit_spec(), gap, k) == parts_offset(parts, wrap_length, gap, k),
    decreases k,
{
    if k > 0 {
        lemma_parts_offset(ls, parts, wrap_length, gap, k - 1);
        assert(ls[k - 1].size_spec() == compact_size(part_tiles(parts[k - 1], wrap_length), cols_of(wrap_length)));
        let sz = ls[k - 1].size_spec();
        assert(sz.x * 1 + sz.y * 0 + sz.z * 0 == sz.x) by (nonlinear_arith);
    }
}

impl Layout for MultiCompactLayout {
    closed spec fn wf(&self) -> bool {
        self.0.wf()
    }

    closed spec fn size_spec(&self) -> BlockPos {
        self.0.size_spec()
    }

    closed spec fn block_spec(&self, pos: BlockPos) -> Option<BlockView> {
        self.0.block_spec(pos)
    }

    fn block_at(&self, pos: BlockPos) -> (r: Option<BlockState>) {
        self.0.block_at(pos)
    }

    fn size(&self) -> (r: BlockPos) {
        self.0.size()
    }
}

} // verus!
