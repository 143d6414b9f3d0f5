//! Linear time-proportional layouts: each cell of a track holds the notes of
//! one stretch of time, and cells follow each other in zigzag rows.

use vstd::prelude::*;
use crate::note::Tone;
use crate::analysis::order::Tick;
use super::blocks::{
    BlockState, BlockView, Facing, WireConn, air, air_spec, chain_block, chain_block_spec, inst_block,
    inst_block_spec, note_block, note_block_spec, redstone_block, redstone_block_spec, repeater, repeater_spec,
    sticky_piston, sticky_piston_spec, wire_state, wire_state_spec,
};
use super::layout::{
    BlockPos, Layout, in_box, nonneg, le_pos, abs_int, EvenlyArranged, evenly_block, evenly_size, evenly_extent,
    evenly_fits, lemma_extent_uniform, lemma_extent_bounded, lemma_extent_covers, WithFloor, with_floor_spec,
};

verus! {

// ScaleMode
//
// ++++++++++++============++++++++++++============++++++++++++============

/// Time scale used by linear cells.
#[derive(Clone, Copy, Debug, PartialEq, Eq, Structural)]
pub enum ScaleMode {
    Scale4,
    Scale2,
    Scale3,
    Scale1,
}

/// Every tick is a multiple of `d`.
pub open spec fn all_divisible(ticks: Seq<Tick>, d: Tick) -> bool {
    forall|i: int| 0 <= i < ticks.len() ==> #[trigger] ticks[i] % d == 0
}

proof fn lemma_all_divisible_push(s: Seq<Tick>, x: Tick, d: Tick)
    ensures
        all_divisible(s.push(x), d) == (all_divisible(s, d) && x % d == 0),
{
    if all_divisible(s.push(x), d) {
        assert forall|i: int| 0 <= i < s.len() implies #[trigger] s[i] % d == 0 by {
            assert(s.push(x)[i] == s[i]);
        }
        assert(s.push(x)[s.len() as int] == x);
    }
}

/// Every event tick of every track is a multiple of `d`.
pub open spec fn tracks_divisible(tracks: Seq<Vec<(Tick, Tone)>>, d: Tick) -> bool {
    forall|i: int, j: int| 0 <= i < tracks.len() && 0 <= j < tracks[i]@.len() ==> #[trigger] tracks[i]@[j].0 % d == 0
}

/// The coarsest scale whose period divides every tick: four, then three,
/// then two game ticks, else one.
pub open spec fn scale_for(by4: bool, by3: bool, by2: bool) -> ScaleMode {
    if by4 {
        ScaleMode::Scale4
    } else if by3 {
        ScaleMode::Scale3
    } else if by2 {
        ScaleMode::Scale2
    } else {
        ScaleMode::Scale1
    }
}

impl ScaleMode {
    pub open spec fn scale_spec(self) -> Tick {
        match self {
            ScaleMode::Scale4 => 4,
            ScaleMode::Scale2 => 2,
            ScaleMode::Scale3 => 3,
            ScaleMode::Scale1 => 1,
        }
    }

    pub open spec fn width_spec(self) -> i32 {
        match self {
            ScaleMode::Scale4 | ScaleMode::Scale2 => 5,
            ScaleMode::Scale3 | ScaleMode::Scale1 => 6,
        }
    }

    /// The cell of a tick, and whether the tick falls on its branch line.
    pub open spec fn cell_slot_spec(self, tick: Tick) -> (int, bool) {
        let t = tick / self.scale_spec();
        let branch = t % 2 == 1;
        (t / 2 + if self == ScaleMode::Scale1 && !branch { 1int } else { 0int }, branch)
    }

    /// Selects the coarsest scale compatible with every event tick of every track.
    pub fn from_tracks(tracks: &Vec<Vec<(Tick, Tone)>>) -> (r: Self)
        ensures
            r == scale_for(tracks_divisible(tracks@, 4), tracks_divisible(tracks@, 3), tracks_divisible(tracks@, 2)),
    {
        let mut by4 = true;
        let mut by3 = true;
        let mut by2 = true;
        let mut i: usize = 0;
        while i < tracks.len()
            invariant
                0 <= i <= tracks@.len(),
                by4 == tracks_divisible(tracks@.take(i as int), 4),
                by3 == tracks_divisible(tracks@.take(i as int), 3),
                by2 == tracks_divisible(tracks@.take(i as int), 2),
            decreases tracks@.len() - i,
        {
            let track = &tracks[i];
            let mut j: usize = 0;
            let ghost before = tracks@.take(i as int);
            let ghost (b4, b3, b2) = (by4, by3, by2);
            while j < track.len()
                invariant
                    0 <= j <= track@.len(),
                    i < tracks@.len(),
                    *track == tracks@[i as int],
                    by4 == (b4 && all_divisible(track@.take(j as int).map_values(|n: (Tick, Tone)| n.0), 4)),
                    by3 == (b3 && all_divisible(track@.take(j as int).map_values(|n: (Tick, Tone)| n.0), 3)),
                    by2 == (b2 && all_divisible(track@.take(j as int).map_values(|n: (Tick, Tone)| n.0), 2)),
                decreases track@.len() - j,
            {
                let tick = track[j].0;
                proof {
                    let s = track@.take(j as int).map_values(|n: (Tick, Tone)| n.0);
                    let t = track@.take(j + 1).map_values(|n: (Tick, Tone)| n.0);
                    assert(t =~= s.push(tick));
                    lemma_all_divisible_push(s, tick, 4);
                    lemma_all_divisible_push(s, tick, 3);
                    lemma_all_divisible_push(s, tick, 2);
                }
                by4 = by4 && tick % 4 == 0;
                by3 = by3 && tick % 3 == 0;
                by2 = by2 && tick % 2 == 0;
                j = j + 1;
            }
            proof {
                let all = track@.map_values(|n: (Tick, Tone)| n.0);
                assert(track@.take(j as int) =~= track@);
                let after = tracks@.take(i + 1);
                assert(after =~= before.push(tracks@[i as int]));
                assert forall|d: Tick| d > 0 implies tracks_divisible(after, d) == (tracks_divisible(before, d) && all_divisible(all, d)) by {
                    if tracks_divisible(after, d) {
                        assert forall|k: int| 0 <= k < all.len() implies #[trigger] all[k] % d == 0 by {
                            assert(after[i as int]@[k].0 % d == 0);
                        }
                        assert forall|a: int, b: int| 0 <= a < before.len() && 0 <= b < before[a]@.len() implies #[trigger] before[a]@[b].0 % d == 0 by {
                            assert(after[a]@[b].0 % d == 0);
                        }
                    }
                    if tracks_divisible(before, d) && all_divisible(all, d) {
                        assert forall|a: int, b: int| 0 <= a < after.len() && 0 <= b < after[a]@.len() implies #[trigger] after[a]@[b].0 % d == 0 by {
                            if a < before.len() {
                                assert(before[a]@[b].0 % d == 0);
                            } else {
                                assert(all[b] % d == 0);
                            }
                        }
                    }
                }
            }
            i = i + 1;
        }
        proof {
            assert(tracks@.take(i as int) =~= tracks@);
        }
        Self::select(by4, by3, by2)
    }

    /// Selects the coarsest scale compatible with all ticks.
    pub fn new(ticks: &Vec<Tick>) -> (r: Self)
        ensures
            r == scale_for(all_divisible(ticks@, 4), all_divisible(ticks@, 3), all_divisible(ticks@, 2)),
    {
        let mut by4 = true;
        let mut by3 = true;
        let mut by2 = true;
        let mut i: usize = 0;
        while i < ticks.len()
            invariant
                0 <= i <= ticks@.len(),
                by4 == all_divisible(ticks@.take(i as int), 4),
                by3 == all_divisible(ticks@.take(i as int), 3),
                by2 == all_divisible(ticks@.take(i as int), 2),
            decreases ticks@.len() - i,
        {
            let tick = ticks[i];
            proof {
                assert(ticks@.take(i + 1) =~= ticks@.take(i as int).push(tick));
                lemma_all_divisible_push(ticks@.take(i as int), tick, 4);
                lemma_all_divisible_push(ticks@.take(i as int), tick, 3);
                lemma_all_divisible_push(ticks@.take(i as int), tick, 2);
            }
            by4 = by4 && tick % 4 == 0;
            by3 = by3 && tick % 3 == 0;
            by2 = by2 && tick % 2 == 0;
            i = i + 1;
        }
        proof {
            assert(ticks@.take(i as int) =~= ticks@);
        }
        Self::select(by4, by3, by2)
    }

    fn select(by4: bool, by3: bool, by2: bool) -> (r: Self)
        ensures
            r == scale_for(by4, by3, by2),
    {
        if by4 {
            ScaleMode::Scale4
        } else if by3 {
            ScaleMode::Scale3
        } else if by2 {
            ScaleMode::Scale2
        } else {
            ScaleMode::Scale1
        }
    }

    /// The scale in game ticks.
    pub fn scale(self) -> (r: Tick)
        ensures
            r == self.scale_spec(),
    {
        match self {
            ScaleMode::Scale4 => 4,
            ScaleMode::Scale2 => 2,
            ScaleMode::Scale3 => 3,
            ScaleMode::Scale1 => 1,
        }
    }

    /// The cell width in blocks.
    pub fn width(self) -> (r: i32)
        ensures
            r == self.width_spec(),
    {
        match self {
            ScaleMode::Scale4 | ScaleMode::Scale2 => 5,
            ScaleMode::Scale3 | ScaleMode::Scale1 => 6,
        }
    }

    /// The cell of a tick, and whether the tick falls on its branch line.
    pub fn cell_slot(self, tick: Tick) -> (r: (usize, bool))
        ensures
            r.0 as int == self.cell_slot_spec(tick).0,
            r.1 == self.cell_slot_spec(tick).1,
    {
        let t = tick / self.scale();
        let branch = t % 2 == 1;
        let extra: usize = if self == ScaleMode::Scale1 && !branch { 1 } else { 0 };
        let cell = (t / 2) as usize + extra;
        (cell, branch)
    }
}

/// A tick falls on its cell's branch line exactly when it lies in an odd
/// step of the scale, and within a cell the main line plays before the
/// branch line: a main-line tick comes earlier than any branch-line tick
/// of the same cell.
pub proof fn lemma_cell_slot_order(scale: ScaleMode, a: Tick, b: Tick)
    ensures
        scale.cell_slot_spec(a).1 == ((a / scale.scale_spec()) % 2 == 1),
        scale.cell_slot_spec(a).0 == scale.cell_slot_spec(b).0 && !scale.cell_slot_spec(a).1
            && scale.cell_slot_spec(b).1 ==> a < b,
{
    match scale {
        ScaleMode::Scale4 => {},
        ScaleMode::Scale2 => {},
        ScaleMode::Scale3 => {},
        ScaleMode::Scale1 => {},
    }
}

/// The scale chosen for some ticks is compatible with all of them (its
/// period divides every tick), and it is the coarsest such: no larger period
/// among four, three and two divides them all.
pub proof fn lemma_scale_coarsest(ticks: Seq<Tick>)
    ensures
        all_divisible(ticks, scale_for(all_divisible(ticks, 4), all_divisible(ticks, 3), all_divisible(ticks, 2)).scale_spec()),
        forall|d: Tick| (d == 2 || d == 3 || d == 4) && d > scale_for(
            all_divisible(ticks, 4),
            all_divisible(ticks, 3),
            all_divisible(ticks, 2),
        ).scale_spec() ==> !#[trigger] all_divisible(ticks, d),
{
    assert forall|i: int| 0 <= i < ticks.len() implies #[trigger] ticks[i] % 1 == 0 by {}
}

// Template
//
// ++++++++++++============++++++++++++============++++++++++++============

/// Notes outside the two fixed main-line slots.
#[derive(Clone, Copy, Debug, PartialEq, Eq, Structural)]
pub enum Branch {
    /// The third main-line note.
    Unbranched(Option<Tone>),
    /// The two branch-line notes.
    Branched(Option<Tone>, Option<Tone>),
}

/// One cell of a linear row: two main-line notes and what lies beside them.
#[derive(Clone, Copy, Debug, PartialEq, Eq)]
pub struct Template {
    pub main: (Option<Tone>, Option<Tone>),
    pub branch: Branch,
    pub scale: ScaleMode,
    pub south_bound: bool,
}

/// The `i`-th note of a sequence, if there is one.
pub open spec fn nth(s: Seq<Tone>, i: int) -> Option<Tone> {
    if 0 <= i < s.len() {
        Some(s[i])
    } else {
        None
    }
}

/// The cell built from raw notes: the first two main notes on the main
/// line; the branch notes beside them if there are any, else the third
/// main note.
pub open spec fn template_from(scale: ScaleMode, main: Seq<Tone>, branch: Seq<Tone>, south_bound: bool) -> Template {
    Template {
        main: (nth(main, 0), nth(main, 1)),
        branch: if branch.len() > 0 {
            Branch::Branched(nth(branch, 0), nth(branch, 1))
        } else {
            Branch::Unbranched(nth(main, 2))
        },
        scale,
        south_bound,
    }
}

/// The block of a template cell at an in-bounds position.
pub open spec fn template_block(t: Template, pos: BlockPos) -> Option<BlockView> {
    let z = if t.south_bound { pos.z as int } else { 2 - pos.z };
    let x = t.scale.width_spec() - pos.x - 1;
    let y = pos.y as int;
    let facing = if t.south_bound { Facing::South } else { Facing::North };
    let wide = t.scale == ScaleMode::Scale4 || t.scale == ScaleMode::Scale2;
    if x == 1 && y == 0 && z == 0 {
        Some(chain_block_spec())
    } else if x == 1 && y == 1 && z == 0 {
        Some(repeater_spec(t.scale.scale_spec(), facing, false, false))
    } else if x == 1 && y == 0 && z == 1 {
        Some(inst_block_spec(t.main.0, chain_block_spec()))
    } else if x == 1 && y == 1 && z == 1 {
        Some(note_block_spec(t.main.0, chain_block_spec()))
    } else if x == 0 && y == 0 && z == 1 {
        Some(inst_block_spec(t.main.1, air_spec()))
    } else if x == 0 && y == 1 && z == 1 {
        Some(note_block_spec(t.main.1, air_spec()))
    } else {
        match t.branch {
            Branch::Unbranched(note) => if x == 2 && y == 0 && z == 1 {
                Some(inst_block_spec(note, air_spec()))
            } else if x == 2 && y == 1 && z == 1 {
                Some(note_block_spec(note, air_spec()))
            } else {
                None
            },
            Branch::Branched(b0, b1) => if wide {
                if x == 2 && y == 0 && z == 1 {
                    Some(chain_block_spec())
                } else if x == 2 && y == 1 && z == 1 {
                    Some(repeater_spec(t.scale.scale_spec() / 2, Facing::West, false, false))
                } else if x == 3 && y == 0 && z == 1 {
                    Some(inst_block_spec(b0, chain_block_spec()))
                } else if x == 3 && y == 1 && z == 1 {
                    Some(note_block_spec(b0, chain_block_spec()))
                } else if x == 4 && y == 0 && z == 1 {
                    Some(inst_block_spec(b1, air_spec()))
                } else if x == 4 && y == 1 && z == 1 {
                    Some(note_block_spec(b1, air_spec()))
                } else {
                    None
                }
            } else {
                if x == 2 && y == 1 && z == 1 {
                    Some(sticky_piston_spec("west"))
                } else if x == 3 && y == 1 && z == 1 {
                    Some(redstone_block_spec())
                } else if x == 5 && y == 0 && z == 1 {
                    Some(inst_block_spec(b0, air_spec()))
                } else if x == 5 && y == 1 && z == 1 {
                    Some(note_block_spec(b0, air_spec()))
                } else if x == 4 && y == 0 && z == 2 {
                    Some(inst_block_spec(b1, air_spec()))
                } else if x == 4 && y == 1 && z == 2 {
                    Some(note_block_spec(b1, air_spec()))
                } else {
                    None
                }
            },
        }
    }
}

fn nth_tone(s: &Vec<Tone>, i: usize) -> (r: Option<Tone>)
    ensures
        r == nth(s@, i as int),
{
    if i < s.len() {
        Some(s[i])
    } else {
        None
    }
}

impl Template {
    /// Builds a cell from raw notes; missing notes leave their slots silent.
    pub fn from_notes(scale: ScaleMode, main: Vec<Tone>, branch: Vec<Tone>, south_bound: bool) -> (r: Self)
        ensures
            r == template_from(scale, main@, branch@, south_bound),
    {
        let first = nth_tone(&main, 0);
        let second = nth_tone(&main, 1);
        let side = if branch.len() > 0 {
            Branch::Branched(nth_tone(&branch, 0), nth_tone(&branch, 1))
        } else {
            Branch::Unbranched(nth_tone(&main, 2))
        };
        Template { main: (first, second), branch: side, scale, south_bound }
    }
}

impl Layout for Template {
    open spec fn wf(&self) -> bool {
        true
    }

    open spec fn size_spec(&self) -> BlockPos {
        BlockPos { x: self.scale.width_spec(), y: 2, z: 3 }
    }

    open spec fn block_spec(&self, pos: BlockPos) -> Option<BlockView> {
        template_block(*self, pos)
    }

    fn block_at(&self, pos: BlockPos) -> (r: Option<BlockState>) {
        let z = if self.south_bound { pos.z } else { 2 - pos.z };
        let x = self.scale.width() - pos.x - 1;
        let y = pos.y;
        let facing = if self.south_bound { Facing::South } else { Facing::North };
        let wide = self.scale == ScaleMode::Scale4 || self.scale == ScaleMode::Scale2;
        if x == 1 && y == 0 && z == 0 {
            Some(chain_block())
        } else if x == 1 && y == 1 && z == 0 {
            Some(repeater(self.scale.scale(), facing, false, false))
        } else if x == 1 && y == 0 && z == 1 {
            Some(inst_block(self.main.0, chain_block()))
        } else if x == 1 && y == 1 && z == 1 {
            Some(note_block(self.main.0, chain_block()))
        } else if x == 0 && y == 0 && z == 1 {
            Some(inst_block(self.main.1, air()))
        } else if x == 0 && y == 1 && z == 1 {
            Some(note_block(self.main.1, air()))
        } else {
            match self.branch {
                Branch::Unbranched(note) => if x == 2 && y == 0 && z == 1 {
                    Some(inst_block(note, air()))
                } else if x == 2 && y == 1 && z == 1 {
                    Some(note_block(note, air()))
                } else {
                    None
                },
                Branch::Branched(b0, b1) => if wide {
                    if x == 2 && y == 0 && z == 1 {
                        Some(chain_block())
                    } else if x == 2 && y == 1 && z == 1 {
                        Some(repeater(self.scale.scale() / 2, Facing::West, false, false))
                    } else if x == 3 && y == 0 && z == 1 {
                        Some(inst_block(b0, chain_block()))
                    } else if x == 3 && y == 1 && z == 1 {
                        Some(note_block(b0, chain_block()))
                    } else if x == 4 && y == 0 && z == 1 {
                        Some(inst_block(b1, air()))
                    } else if x == 4 && y == 1 && z == 1 {
                        Some(note_block(b1, air()))
                    } else {
                        None
                    }
                } else {
                    if x == 2 && y == 1 && z == 1 {
                        Some(sticky_piston("west"))
                    } else if x == 3 && y == 1 && z == 1 {
                        Some(redstone_block())
                    } else if x == 5 && y == 0 && z == 1 {
                        Some(inst_block(b0, air()))
                    } else if x == 5 && y == 1 && z == 1 {
                        Some(note_block(b0, air()))
                    } else if x == 4 && y == 0 && z == 2 {
                        Some(inst_block(b1, air()))
                    } else if x == 4 && y == 1 && z == 2 {
                        Some(note_block(b1, air()))
                    } else {
                        None
                    }
                },
            }
        }
    }

    fn size(&self) -> (r: BlockPos) {
        BlockPos::new(self.scale.width(), 2, 3)
    }
}

// Cells
//
// ++++++++++++============++++++++++++============++++++++++++============

/// Up to `cap` notes from the front of `s`.
pub open spec fn take_up_to(s: Seq<Tone>, cap: int) -> Seq<Tone> {
    if cap < s.len() {
        s.take(cap)
    } else {
        s
    }
}

/// `s` without its first `cap` notes.
pub open spec fn drop_up_to(s: Seq<Tone>, cap: int) -> Seq<Tone> {
    if cap < s.len() {
        s.skip(cap)
    } else {
        Seq::empty()
    }
}

/// One cell's note queues, main and branch, with how many of each were taken.
pub struct Cell {
    main: Vec<Tone>,
    main_taken: usize,
    branch: Vec<Tone>,
    branch_taken: usize,
}

/// Notes `from..from + cap` of `v`, clamped to its end, and where they end.
fn take_run(v: &Vec<Tone>, from: usize, cap: usize) -> (r: (Vec<Tone>, usize))
    requires
        from <= v@.len(),
    ensures
        r.0@ == take_up_to(v@.skip(from as int), cap as int),
        r.1 <= v@.len(),
        v@.skip(r.1 as int) == drop_up_to(v@.skip(from as int), cap as int),
{
    let end = if cap < v.len() - from { from + cap } else { v.len() };
    let mut out: Vec<Tone> = Vec::new();
    let mut k = from;
    while k < end
        invariant
            from <= k <= end <= v@.len(),
            out@ == v@.subrange(from as int, k as int),
        decreases end - k,
    {
        out.push(v[k]);
        proof {
            assert(v@.subrange(from as int, k + 1) =~= v@.subrange(from as int, k as int).push(v@[k as int]));
        }
        k = k + 1;
    }
    proof {
        let rest = v@.skip(from as int);
        if (cap as int) < rest.len() {
            assert(out@ =~= rest.take(cap as int));
            assert(v@.skip(end as int) =~= rest.skip(cap as int));
        } else {
            assert(out@ =~= rest);
            assert(v@.skip(end as int) =~= Seq::<Tone>::empty());
        }
    }
    (out, end)
}

impl Cell {
    /// The main-line notes not taken yet.
    pub closed spec fn main_rest(&self) -> Seq<Tone> {
        self.main@.skip(self.main_taken as int)
    }

    /// The branch-line notes not taken yet.
    pub closed spec fn branch_rest(&self) -> Seq<Tone> {
        self.branch@.skip(self.branch_taken as int)
    }

    pub closed spec fn wf(&self) -> bool {
        self.main_taken <= self.main@.len() && self.branch_taken <= self.branch@.len()
    }

    fn empty() -> (r: Self)
        ensures
            r.wf(),
            r.main_taken == 0,
            r.branch_taken == 0,
            r.main_rest() == Seq::<Tone>::empty(),
            r.branch_rest() == Seq::<Tone>::empty(),
    {
        let r = Cell { main: Vec::new(), main_taken: 0, branch: Vec::new(), branch_taken: 0 };
        proof {
            assert(r.main_rest() =~= Seq::<Tone>::empty());
            assert(r.branch_rest() =~= Seq::<Tone>::empty());
        }
        r
    }

    fn push_main(&mut self, tone: Tone)
        requires
            old(self).wf(),
            old(self).main_taken == 0,
        ensures
            final(self).wf(),
            final(self).main_taken == 0,
            final(self).main_rest() == old(self).main_rest().push(tone),
            final(self).branch_rest() == old(self).branch_rest(),
            final(self).branch_taken == old(self).branch_taken,
    {
        self.main.push(tone);
        proof {
            assert(self.main@.skip(0) =~= self.main@);
            assert(old(self).main@.skip(0) =~= old(self).main@);
        }
    }

    fn push_branch(&mut self, tone: Tone)
        requires
            old(self).wf(),
            old(self).branch_taken == 0,
        ensures
            final(self).wf(),
            final(self).branch_taken == 0,
            final(self).branch_rest() == old(self).branch_rest().push(tone),
            final(self).main_rest() == old(self).main_rest(),
            final(self).main_taken == old(self).main_taken,
    {
        self.branch.push(tone);
        proof {
            assert(self.branch@.skip(0) =~= self.branch@);
            assert(old(self).branch@.skip(0) =~= old(self).branch@);
        }
    }

    /// Takes up to `cap` main notes out of the cell.
    pub fn take_main(&mut self, cap: usize) -> (r: Vec<Tone>)
        requires
            old(self).wf(),
        ensures
            final(self).wf(),
            r@ == take_up_to(old(self).main_rest(), cap as int),
            final(self).main_rest() == drop_up_to(old(self).main_rest(), cap as int),
            final(self).branch_rest() == old(self).branch_rest(),
    {
        let (out, end) = take_run(&self.main, self.main_taken, cap);
        self.main_taken = end;
        out
    }

    /// Takes up to `cap` branch notes out of the cell.
    pub fn take_branch(&mut self, cap: usize) -> (r: Vec<Tone>)
        requires
            old(self).wf(),
        ensures
            final(self).wf(),
            r@ == take_up_to(old(self).branch_rest(), cap as int),
            final(self).branch_rest() == drop_up_to(old(self).branch_rest(), cap as int),
            final(self).main_rest() == old(self).main_rest(),
    {
        let (out, end) = take_run(&self.branch, self.branch_taken, cap);
        self.branch_taken = end;
        out
    }
}

impl Template {
    /// Takes one cell's notes: up to three main and two branch notes. With
    /// branch notes present the third main note is taken and not placed;
    /// notes beyond the capacity stay in the cell for the next lane.
    pub fn new(cell: &mut Cell, scale: ScaleMode, south_bound: bool) -> (r: Self)
        requires
            old(cell).wf(),
        ensures
            final(cell).wf(),
            r == template_from(scale, take_up_to(old(cell).main_rest(), 3), take_up_to(old(cell).branch_rest(), 2), south_bound),
            final(cell).main_rest() == drop_up_to(old(cell).main_rest(), 3),
            final(cell).branch_rest() == drop_up_to(old(cell).branch_rest(), 2),
    {
        let main = cell.take_main(3);
        let branch = cell.take_branch(2);
        Self::from_notes(scale, main, branch, south_bound)
    }
}

/// Picks the notes of a track that land on cell `c`'s main line (or, with
/// `branch`, its branch line).
pub open spec fn slot_pick(scale: ScaleMode, c: int, branch: bool) -> spec_fn((Tick, Tone)) -> Option<Tone> {
    |n: (Tick, Tone)| if scale.cell_slot_spec(n.0) == (c, branch) { Some(n.1) } else { None }
}

/// The notes of a track filed into cell `c`'s main line, in track order.
pub open spec fn cell_main(notes: Seq<(Tick, Tone)>, scale: ScaleMode, c: int) -> Seq<Tone> {
    notes.filter_map(slot_pick(scale, c, false))
}

/// The notes of a track filed into cell `c`'s branch line, in track order.
pub open spec fn cell_branch(notes: Seq<(Tick, Tone)>, scale: ScaleMode, c: int) -> Seq<Tone> {
    notes.filter_map(slot_pick(scale, c, true))
}

/// The number of cells: at least `min`, and enough for every note.
pub open spec fn cells_len(notes: Seq<(Tick, Tone)>, scale: ScaleMode, min: int) -> int
    decreases notes.len(),
{
    if notes.len() == 0 {
        min
    } else {
        max_int(cells_len(notes.drop_last(), scale, min), scale.cell_slot_spec(notes.last().0).0 + 1)
    }
}

pub open spec fn max_int(a: int, b: int) -> int {
    if a >= b {
        a
    } else {
        b
    }
}

/// Cells past the last filed note hold no notes.
proof fn lemma_cells_past_end(notes: Seq<(Tick, Tone)>, scale: ScaleMode, min: int, c: int, branch: bool)
    requires
        c >= cells_len(notes, scale, min),
    ensures
        notes.filter_map(slot_pick(scale, c, branch)) == Seq::<Tone>::empty(),
    decreases notes.len(),
{
    if notes.len() > 0 {
        lemma_cells_past_end(notes.drop_last(), scale, min, c, branch);
        assert(slot_pick(scale, c, branch)(notes.last()) is None);
    }
}

proof fn lemma_cells_len_min(notes: Seq<(Tick, Tone)>, scale: ScaleMode, min: int)
    ensures
        cells_len(notes, scale, min) >= min,
    decreases notes.len(),
{
    if notes.len() > 0 {
        lemma_cells_len_min(notes.drop_last(), scale, min);
    }
}

/// Cell-domain note container: a track is filed here once, and every lane
/// consumes cells by capacity afterwards.
pub struct Cells {
    slots: Vec<Cell>,
}

impl Cells {
    pub closed spec fn len_spec(&self) -> int {
        self.slots@.len() as int
    }

    /// Cell `c`'s main-line notes not taken yet.
    pub closed spec fn main_rest(&self, c: int) -> Seq<Tone> {
        self.slots@[c].main_rest()
    }

    /// Cell `c`'s branch-line notes not taken yet.
    pub closed spec fn branch_rest(&self, c: int) -> Seq<Tone> {
        self.slots@[c].branch_rest()
    }

    pub closed spec fn wf(&self) -> bool {
        forall|c: int| 0 <= c < self.slots@.len() ==> #[trigger] self.slots@[c].wf()
    }

    /// Files a track's notes into their cells; `min` keeps silent cells
    /// inside the song length alive.
    pub fn new(notes: &Vec<(Tick, Tone)>, scale: ScaleMode, min: usize) -> (r: Self)
        ensures
            r.wf(),
            r.len_spec() == cells_len(notes@, scale, min as int),
            forall|c: int| 0 <= c < r.len_spec() ==> #[trigger] r.main_rest(c) == cell_main(notes@, scale, c),
            forall|c: int| 0 <= c < r.len_spec() ==> #[trigger] r.branch_rest(c) == cell_branch(notes@, scale, c),
    {
        let ghost ns = notes@;
        let mut slots: Vec<Cell> = Vec::new();
        while slots.len() < min
            invariant
                slots@.len() <= min,
                forall|c: int| 0 <= c < slots@.len() ==> #[trigger] slots@[c].wf(),
                forall|c: int| 0 <= c < slots@.len() ==> (#[trigger] slots@[c]).main_taken == 0 && slots@[c].branch_taken == 0,
                forall|c: int| 0 <= c < slots@.len() ==> (#[trigger] slots@[c]).main_rest() == Seq::<Tone>::empty(),
                forall|c: int| 0 <= c < slots@.len() ==> (#[trigger] slots@[c]).branch_rest() == Seq::<Tone>::empty(),
            decreases min - slots@.len(),
        {
            slots.push(Cell::empty());
        }
        let mut k: usize = 0;
        while k < notes.len()
            invariant
                0 <= k <= ns.len(),
                ns == notes@,
                slots@.len() == cells_len(ns.take(k as int), scale, min as int),
                forall|c: int| 0 <= c < slots@.len() ==> #[trigger] slots@[c].wf(),
                forall|c: int| 0 <= c < slots@.len() ==> (#[trigger] slots@[c]).main_taken == 0 && slots@[c].branch_taken == 0,
                forall|c: int| 0 <= c < slots@.len() ==> (#[trigger] slots@[c]).main_rest() == cell_main(ns.take(k as int), scale, c),
                forall|c: int| 0 <= c < slots@.len() ==> (#[trigger] slots@[c]).branch_rest() == cell_branch(ns.take(k as int), scale, c),
            decreases ns.len() - k,
        {
            let (tick, tone) = notes[k];
            let (cell, is_branch) = scale.cell_slot(tick);
            let ghost before = ns.take(k as int);
            let ghost after = ns.take(k + 1);
            proof {
                assert(after.drop_last() =~= before);
                assert(after.last() == (tick, tone));
                lemma_cells_len_min(before, scale, min as int);
            }
            while slots.len() <= cell
                invariant
                    cells_len(before, scale, min as int) <= slots@.len(),
                    slots@.len() == cells_len(before, scale, min as int) || slots@.len() <= cell + 1,
                    forall|c: int| 0 <= c < slots@.len() ==> #[trigger] slots@[c].wf(),
                    forall|c: int| 0 <= c < slots@.len() ==> (#[trigger] slots@[c]).main_taken == 0 && slots@[c].branch_taken == 0,
                    forall|c: int| 0 <= c < slots@.len() ==> (#[trigger] slots@[c]).main_rest() == cell_main(before, scale, c),
                    forall|c: int| 0 <= c < slots@.len() ==> (#[trigger] slots@[c]).branch_rest() == cell_branch(before, scale, c),
                decreases cell + 1 - slots@.len(),
            {
                proof {
                    lemma_cells_past_end(before, scale, min as int, slots@.len() as int, false);
                    lemma_cells_past_end(before, scale, min as int, slots@.len() as int, true);
                }
                slots.push(Cell::empty());
            }
            if is_branch {
                slots[cell].push_branch(tone);
            } else {
                slots[cell].push_main(tone);
            }
            proof {
                assert forall|c: int| 0 <= c < slots@.len() implies
                    (#[trigger] slots@[c]).main_rest() == cell_main(after, scale, c)
                    && slots@[c].branch_rest() == cell_branch(after, scale, c) by {
                    ns.lemma_filter_map_take_succ(slot_pick(scale, c, false), k as int);
                    ns.lemma_filter_map_take_succ(slot_pick(scale, c, true), k as int);
                }
            }
            k = k + 1;
        }
        proof {
            assert(ns.take(k as int) =~= ns);
        }
        Cells { slots }
    }

    /// Number of cells, including trailing silent ones.
    pub fn len(&self) -> (r: usize)
        ensures
            r as int == self.len_spec(),
    {
        self.slots.len()
    }

    /// Whether cell `c` still holds notes not taken yet.
    pub open spec fn holds_notes(&self, c: int) -> bool {
        self.main_rest(c).len() > 0 || self.branch_rest(c).len() > 0
    }

    /// Whether the container still holds notes not taken yet.
    pub fn has_notes(&self) -> (r: bool)
        requires
            self.wf(),
        ensures
            r == exists|c: int| 0 <= c < self.len_spec() && #[trigger] self.holds_notes(c),
    {
        let mut c: usize = 0;
        while c < self.slots.len()
            invariant
                self.wf(),
                0 <= c <= self.slots@.len(),
                forall|d: int| 0 <= d < c ==> !#[trigger] self.holds_notes(d),
            decreases self.slots@.len() - c,
        {
            let cell = &self.slots[c];
            proof {
                assert(self.slots@[c as int].wf());
            }
            if cell.main.len() > cell.main_taken || cell.branch.len() > cell.branch_taken {
                proof {
                    assert(self.holds_notes(c as int));
                }
                return true;
            }
            proof {
                assert(!self.holds_notes(c as int));
            }
            c = c + 1;
        }
        false
    }
}

// Row
//
// ++++++++++++============++++++++++++============++++++++++++============

/// The step between the template cells of a row.
pub open spec fn row_pitch(south_bound: bool) -> BlockPos {
    BlockPos { x: 0, y: 0, z: if south_bound { 2i32 } else { -2i32 } }
}

/// The block of a row of template cells at an in-bounds position: a wire
/// turn on the leading edge of every row but the first, the cells elsewhere.
pub open spec fn row_block(templates: Seq<Template>, size: BlockPos, leading_turn: bool, south_bound: bool, pos: BlockPos) -> Option<BlockView> {
    let pitch = row_pitch(south_bound);
    let inner = evenly_size(templates, pitch);
    let turn_z = if south_bound { 0 } else { size.z - 1 };
    let turning = leading_turn && pos.z == turn_z;
    let from_edge = size.x - pos.x;
    if turning {
        if pos.y == 1 && from_edge == 2 {
            if south_bound {
                Some(wire_state_spec(WireConn::Side, WireConn::Detached, WireConn::Detached, WireConn::Side, 0))
            } else {
                Some(wire_state_spec(WireConn::Side, WireConn::Detached, WireConn::Side, WireConn::Detached, 0))
            }
        } else if pos.y == 1 && from_edge >= 2 {
            Some(wire_state_spec(WireConn::Side, WireConn::Side, WireConn::Detached, WireConn::Detached, 0))
        } else if pos.y == 0 && from_edge >= 2 {
            Some(chain_block_spec())
        } else {
            None
        }
    } else {
        let q = BlockPos {
            x: (pos.x + inner.x - size.x) as i32,
            y: pos.y,
            z: (if south_bound { pos.z - 1 } else { pos.z + size.z - 1 - inner.z }) as i32,
        };
        if in_box(inner, q) {
            evenly_block(templates, pitch, q)
        } else {
            None
        }
    }
}

/// The cell of lane `j` built from cell `c`: the notes left after the
/// earlier lanes took three main and two branch notes each.
pub open spec fn lane_template(notes: Seq<(Tick, Tone)>, scale: ScaleMode, c: int, j: int, south_bound: bool) -> Template {
    template_from(
        scale,
        take_up_to(drop_up_to(cell_main(notes, scale, c), 3 * j), 3),
        take_up_to(drop_up_to(cell_branch(notes, scale, c), 2 * j), 2),
        south_bound,
    )
}

/// Largest number of cells in one row, a limit of the coordinate range.
pub open spec fn max_row_cells() -> int {
    0x3fff_fffe
}

/// Where a row starting at cell `start` with room for `len` cells ends, among `total` cells.
pub open spec fn row_end(total: int, start: int, len: int) -> int {
    if len < total - start {
        start + len
    } else {
        total
    }
}

/// One directional row of template cells.
pub struct Row {
    cells: EvenlyArranged<Template>,
    leading_turn: bool,
    south_bound: bool,
    size: BlockPos,
}

impl Row {
    pub closed spec fn templates_spec(&self) -> Seq<Template> {
        self.cells.items_spec()
    }

    pub closed spec fn leading_turn_spec(&self) -> bool {
        self.leading_turn
    }

    pub closed spec fn south_bound_spec(&self) -> bool {
        self.south_bound
    }

    /// Arranges the cells `start..start + len` (clamped to what exists) in
    /// the row direction, taking one template's worth of notes out of each.
    pub fn new(cells: &mut Cells, start: usize, len: usize, scale: ScaleMode, width: i32, leading_turn: bool, south_bound: bool) -> (r: Self)
        requires
            old(cells).wf(),
            start < old(cells).len_spec(),
            1 <= len,
            6 <= width,
            old(cells).len_spec() - start <= max_row_cells() || len <= max_row_cells(),
        ensures
            final(cells).wf(),
            final(cells).len_spec() == old(cells).len_spec(),
            r.templates_spec().len() == row_end(old(cells).len_spec(), start as int, len as int) - start,
            forall|i: int| 0 <= i < row_end(old(cells).len_spec(), start as int, len as int) - start ==>
                #[trigger] r.templates_spec()[i] == template_from(
                    scale,
                    take_up_to(old(cells).main_rest(start + i), 3),
                    take_up_to(old(cells).branch_rest(start + i), 2),
                    south_bound,
                ),
            forall|c: int| start <= c < row_end(old(cells).len_spec(), start as int, len as int) ==> #[trigger] final(cells).main_rest(c) == drop_up_to(old(cells).main_rest(c), 3),
            forall|c: int| start <= c < row_end(old(cells).len_spec(), start as int, len as int) ==> #[trigger] final(cells).branch_rest(c) == drop_up_to(old(cells).branch_rest(c), 2),
            forall|c: int| 0 <= c < old(cells).len_spec() && !(start <= c < row_end(old(cells).len_spec(), start as int, len as int)) ==> #[trigger] final(cells).main_rest(c) == old(cells).main_rest(c),
            forall|c: int| 0 <= c < old(cells).len_spec() && !(start <= c < row_end(old(cells).len_spec(), start as int, len as int)) ==> #[trigger] final(cells).branch_rest(c) == old(cells).branch_rest(c),
            r.size_spec() == (BlockPos {
                x: width,
                y: 2,
                z: (2 * (row_end(old(cells).len_spec(), start as int, len as int) - start) + 2) as i32,
            }),
            r.wf(),
            r.leading_turn_spec() == leading_turn,
            r.south_bound_spec() == south_bound,
            forall|pos: BlockPos| in_box(r.size_spec(), pos) ==> #[trigger] r.block_spec(pos)
                == row_block(r.templates_spec(), r.size_spec(), leading_turn, south_bound, pos),
    {
        let total = cells.len();
        let end = if len < total - start { start + len } else { total };
        let ghost old_cells = *cells;
        let mut templates: Vec<Template> = Vec::new();
        let mut c = start;
        while c < end
            invariant
                start <= c <= end <= total,
                total == old_cells.len_spec(),
                cells.wf(),
                cells.len_spec() == total,
                templates@.len() == c - start,
                forall|i: int| 0 <= i < c - start ==> (#[trigger] templates@[i]).scale == scale,
                forall|i: int| 0 <= i < c - start ==> #[trigger] templates@[i] == template_from(
                    scale,
                    take_up_to(old_cells.main_rest(start + i), 3),
                    take_up_to(old_cells.branch_rest(start + i), 2),
                    south_bound,
                ),
                forall|d: int| start <= d < c ==> #[trigger] cells.main_rest(d) == drop_up_to(old_cells.main_rest(d), 3),
                forall|d: int| start <= d < c ==> #[trigger] cells.branch_rest(d) == drop_up_to(old_cells.branch_rest(d), 2),
                forall|d: int| 0 <= d < total && !(start <= d < c) ==> #[trigger] cells.main_rest(d) == old_cells.main_rest(d),
                forall|d: int| 0 <= d < total && !(start <= d < c) ==> #[trigger] cells.branch_rest(d) == old_cells.branch_rest(d),
            decreases end - c,
        {
            proof {
                assert(cells.slots@[c as int].wf());
            }
            let ghost before = *cells;
            let t = Template::new(&mut cells.slots[c], scale, south_bound);
            templates.push(t);
            proof {
                assert forall|d: int| 0 <= d < cells.slots@.len() && d != c implies #[trigger] cells.slots@[d] == before.slots@[d] by {}
                assert forall|d: int| 0 <= d < cells.slots@.len() implies #[trigger] cells.slots@[d].wf() by {
                    if d != c {
                        assert(cells.slots@[d] == before.slots@[d]);
                        assert(before.slots@[d].wf());
                    }
                }
                assert(before.main_rest(c as int) == old_cells.main_rest(c as int));
                assert(before.branch_rest(c as int) == old_cells.branch_rest(c as int));
                assert(templates@[c - start] == template_from(
                    scale,
                    take_up_to(old_cells.main_rest(start + (c - start)), 3),
                    take_up_to(old_cells.branch_rest(start + (c - start)), 2),
                    south_bound,
                ));
                assert forall|d: int| #![trigger cells.main_rest(d)] #![trigger cells.branch_rest(d)] 0 <= d < total && d != c implies
                    cells.main_rest(d) == before.main_rest(d) && cells.branch_rest(d) == before.branch_rest(d) by {
                    assert(cells.slots@[d] == before.slots@[d]);
                }
            }
            c = c + 1;
        }
        let n = end - start;
        let pitch_z: i32 = if south_bound { 2 } else { -2 };
        let pitch = BlockPos::new(0, 0, pitch_z);
        let ghost s = BlockPos { x: scale.width_spec(), y: 2, z: 3 };
        proof {
            assert forall|j: int| 0 <= j < templates@.len() implies #[trigger] templates@[j].size_spec() == s by {
                assert(templates@[j].scale == scale);
            }
            lemma_extent_uniform(templates@, templates@.len() as int, s);
            assert(abs_int(pitch.z as int) == 2);
            assert(abs_int(pitch.x as int) == 0);
            assert(abs_int(pitch.y as int) == 0);
            assert(0 * (n - 1) == 0) by (nonlinear_arith);
            assert(2 * (n - 1) == 2 * n - 2) by (nonlinear_arith);
            assert(evenly_size(templates@, pitch) == (BlockPos { x: scale.width_spec(), y: 2, z: (2 * n + 1) as i32 }));
        }
        let arranged = EvenlyArranged::new(templates, pitch);
        let inner = arranged.size();
        let depth = 2 * (n as i32) + 2;
        let size = BlockPos::new(width, inner.y, depth);
        let r = Row { cells: arranged, leading_turn, south_bound, size };
        proof {
            arranged.lemma_semantics();
        }
        r
    }
}

impl Row {
    /// What a row answers at every position.
    pub proof fn lemma_block(&self)
        ensures
            forall|pos: BlockPos| #[trigger] self.block_spec(pos)
                == row_block(self.templates_spec(), self.size_spec(), self.leading_turn_spec(), self.south_bound_spec(), pos),
    {
    }
}

impl Layout for Row {
    closed spec fn wf(&self) -> bool {
        let n = self.cells.items_spec().len();
        let inner = self.cells.size_spec();
        &&& self.cells.wf()
        &&& self.cells.pitch_spec() == row_pitch(self.south_bound)
        &&& 1 <= n <= max_row_cells()
        &&& 5 <= inner.x <= 6
        &&& inner.y == 2
        &&& inner.z == 2 * n + 1
        &&& 6 <= self.size.x
        &&& self.size.y == 2
        &&& self.size.z == 2 * n + 2
    }

    closed spec fn size_spec(&self) -> BlockPos {
        self.size
    }

    closed spec fn block_spec(&self, pos: BlockPos) -> Option<BlockView> {
        row_block(self.cells.items_spec(), self.size, self.leading_turn, self.south_bound, pos)
    }

    fn block_at(&self, pos: BlockPos) -> (r: Option<BlockState>) {
        proof {
            self.cells.lemma_semantics();
        }
        let inner = self.cells.size();
        let turn_z = if self.south_bound { 0 } else { self.size.z - 1 };
        let turning = self.leading_turn && pos.z == turn_z;
        let from_edge = self.size.x - pos.x;
        if turning {
            if pos.y == 1 && from_edge == 2 {
                if self.south_bound {
                    Some(wire_state(WireConn::Side, WireConn::Detached, WireConn::Detached, WireConn::Side, 0))
                } else {
                    Some(wire_state(WireConn::Side, WireConn::Detached, WireConn::Side, WireConn::Detached, 0))
                }
            } else if pos.y == 1 && from_edge >= 2 {
                Some(wire_state(WireConn::Side, WireConn::Side, WireConn::Detached, WireConn::Detached, 0))
            } else if pos.y == 0 && from_edge >= 2 {
                Some(chain_block())
            } else {
                None
            }
        } else {
            let qz = if self.south_bound { pos.z - 1 } else { pos.z + (self.size.z - 1 - inner.z) };
            let q = BlockPos::new(pos.x - (self.size.x - inner.x), pos.y, qz);
            self.cells.try_get_block(q)
        }
    }

    fn size(&self) -> (r: BlockPos) {
        self.size
    }
}

// LinearLayout
//
// ++++++++++++============++++++++++++============++++++++++++============

/// Cells kept for a song of `song_length` ticks, silent or not.
pub open spec fn min_cells(scale: ScaleMode, song_length: Tick) -> int {
    if song_length == 0 {
        0
    } else {
        scale.cell_slot_spec((song_length - 1) as Tick).0 + 1
    }
}

/// The number of cells of a track.
pub open spec fn track_cells(notes: Seq<(Tick, Tone)>, scale: ScaleMode, song_length: Tick) -> int {
    cells_len(notes, scale, min_cells(scale, song_length))
}

/// Lanes that cell `c` fills: each takes three main and two branch notes.
pub open spec fn cell_lanes(notes: Seq<(Tick, Tone)>, scale: ScaleMode, c: int) -> int {
    max_int((cell_main(notes, scale, c).len() as int + 2) / 3, (cell_branch(notes, scale, c).len() as int + 1) / 2)
}

/// Lanes that the first `k` cells fill.
pub open spec fn lanes_upto(notes: Seq<(Tick, Tone)>, scale: ScaleMode, k: int) -> int
    decreases k,
{
    if k <= 0 {
        0
    } else {
        max_int(lanes_upto(notes, scale, k - 1), cell_lanes(notes, scale, k - 1))
    }
}

/// The number of lanes of a track: as many as its fullest cell needs.
pub open spec fn lane_count(notes: Seq<(Tick, Tone)>, scale: ScaleMode, song_length: Tick) -> int {
    lanes_upto(notes, scale, track_cells(notes, scale, song_length))
}

/// Cells per row: the wrap length, or all cells in one row.
pub open spec fn row_length(wrap_length: Option<Tick>, n: int) -> int {
    match wrap_length {
        Some(w) => w as int,
        None => n,
    }
}

/// The width of a lane: a cell and the gap beside it.
pub open spec fn lane_width(scale: ScaleMode, gap: u32) -> int {
    scale.width_spec() + gap + 1
}

/// The step between the rows of a lane.
pub open spec fn lane_pitch(width: int) -> BlockPos {
    BlockPos { x: (width - 2) as i32, y: 0, z: 0 }
}

/// Rows of `len` cells that `n` cells fill.
pub open spec fn row_count(n: int, len: int) -> int {
    (n + len - 1) / len
}

/// The east-west size of a lane of `n` cells, `row_len` to a row, each row
/// `width` wide and overlapping the next by two blocks.
pub open spec fn lane_size_x(n: int, row_len: int, width: int) -> int {
    (width - 2) * (row_count(n, row_len) - 1) + width
}

/// The track's lanes fit the coordinate range.
pub open spec fn linear_fits(notes: Seq<(Tick, Tone)>, scale: ScaleMode, song_length: Tick, wrap_length: Option<Tick>, gap: u32) -> bool {
    let n = track_cells(notes, scale, song_length);
    &&& n <= max_row_cells()
    &&& lane_width(scale, gap) <= i32::MAX
    &&& n > 0 ==> lane_size_x(n, row_length(wrap_length, n), lane_width(scale, gap)) <= i32::MAX
}

/// What lane `j` of a track holds: rows of `row_len` cells, zigzagging, each
/// row's cells built from the notes left after the earlier lanes.
pub open spec fn lane_matches(
    lane: LinearLayout,
    notes: Seq<(Tick, Tone)>,
    scale: ScaleMode,
    n: int,
    row_len: int,
    width: int,
    j: int,
) -> bool {
    let rows = lane.rows_spec();
    &&& lane.wf()
    &&& lane.pitch_spec() == lane_pitch(width)
    &&& rows.len() == row_count(n, row_len)
    &&& forall|k: int| 0 <= k < rows.len() ==> {
        let start = k * row_len;
        let end = row_end(n, start, row_len);
        &&& (#[trigger] rows[k]).templates_spec().len() == end - start
        &&& forall|i: int| 0 <= i < end - start ==> #[trigger] rows[k].templates_spec()[i]
            == lane_template(notes, scale, start + i, j, k % 2 == 0)
        &&& rows[k].leading_turn_spec() == (k > 0)
        &&& rows[k].south_bound_spec() == (k % 2 == 0)
        &&& rows[k].size_spec() == (BlockPos { x: width as i32, y: 2, z: (2 * (end - start) + 2) as i32 })
    }
    &&& lane.size_spec() == evenly_size(rows, lane_pitch(width))
    &&& lane.size_spec().x == lane_size_x(n, row_len, width)
    &&& lane.size_spec().y == 2
    &&& nonneg(lane.size_spec())
    &&& lane.size_spec().z <= 2 * n + 2
    &&& forall|pos: BlockPos| #[trigger] lane.block_spec(pos) == evenly_block(rows, lane_pitch(width), pos)
}

proof fn lemma_drop_twice(s: Seq<Tone>, a: int, b: int)
    requires
        a >= 0,
        b >= 0,
    ensures
        drop_up_to(drop_up_to(s, a), b) == drop_up_to(s, a + b),
{
    if a < s.len() {
        if b < s.len() - a {
            assert(drop_up_to(drop_up_to(s, a), b) =~= s.skip(a + b));
        } else {
            assert(drop_up_to(drop_up_to(s, a), b) =~= Seq::<Tone>::empty());
        }
    } else {
        assert(drop_up_to(drop_up_to(s, a), b) =~= Seq::<Tone>::empty());
    }
}

proof fn lemma_lanes_ge(notes: Seq<(Tick, Tone)>, scale: ScaleMode, k: int, c: int)
    requires
        0 <= c < k,
    ensures
        lanes_upto(notes, scale, k) >= cell_lanes(notes, scale, c),
        lanes_upto(notes, scale, k) >= 0,
    decreases k,
{
    if c < k - 1 {
        lemma_lanes_ge(notes, scale, k - 1, c);
    }
}

proof fn lemma_lanes_le(notes: Seq<(Tick, Tone)>, scale: ScaleMode, k: int, j: int)
    requires
        j >= 0,
        forall|c: int| 0 <= c < k ==> #[trigger] cell_lanes(notes, scale, c) <= j,
    ensures
        lanes_upto(notes, scale, k) <= j,
    decreases k,
{
    if k > 0 {
        lemma_lanes_le(notes, scale, k - 1, j);
        assert(cell_lanes(notes, scale, k - 1) <= j);
    }
}

proof fn lemma_lanes_nonneg(notes: Seq<(Tick, Tone)>, scale: ScaleMode, k: int)
    ensures
        lanes_upto(notes, scale, k) >= 0,
    decreases k,
{
    if k > 0 {
        lemma_lanes_nonneg(notes, scale, k - 1);
    }
}

/// A cell still holds notes after `j` lanes exactly when it fills more lanes.
proof fn lemma_cell_pending(notes: Seq<(Tick, Tone)>, scale: ScaleMode, c: int, j: int)
    requires
        j >= 0,
    ensures
        (drop_up_to(cell_main(notes, scale, c), 3 * j).len() > 0 || drop_up_to(cell_branch(notes, scale, c), 2 * j).len() > 0)
            == (j < cell_lanes(notes, scale, c)),
{
    let m = cell_main(notes, scale, c).len() as int;
    let b = cell_branch(notes, scale, c).len() as int;
    assert((m + 2) / 3 > j <==> m > 3 * j) by (nonlinear_arith) requires m >= 0, j >= 0;
    assert((b + 1) / 2 > j <==> b > 2 * j) by (nonlinear_arith) requires b >= 0, j >= 0;
}

/// A linear layout for one lane of a track: rows of template cells.
pub struct LinearLayout(EvenlyArranged<Row>);

impl LinearLayout {
    pub closed spec fn rows_spec(&self) -> Seq<Row> {
        self.0.items_spec()
    }

    pub closed spec fn pitch_spec(&self) -> BlockPos {
        self.0.pitch_spec()
    }

    /// Builds the lanes of one track: every lane takes up to three main and
    /// two branch notes out of each cell, until no notes are left.
    pub fn new(notes: &Vec<(Tick, Tone)>, scale: ScaleMode, song_length: Tick, wrap_length: Option<Tick>, gap: u32) -> (r: Vec<Self>)
        requires
            wrap_length matches Some(w) ==> w > 0,
            linear_fits(notes@, scale, song_length, wrap_length, gap),
        ensures
            r@.len() == lane_count(notes@, scale, song_length),
            forall|j: int| 0 <= j < r@.len() ==> lane_matches(
                #[trigger] r@[j],
                notes@,
                scale,
                track_cells(notes@, scale, song_length),
                row_length(wrap_length, track_cells(notes@, scale, song_length)),
                lane_width(scale, gap),
                j,
            ),
    {
        let ghost ns = notes@;
        let min = if song_length == 0 { 0 } else { scale.cell_slot(song_length - 1).0 + 1 };
        let mut cells = Cells::new(notes, scale, min);
        let n = cells.len();
        let width = scale.width() + gap as i32 + 1;
        let row_len: usize = match wrap_length {
            Some(w) => w as usize,
            None => n,
        };
        let ghost count = lane_count(ns, scale, song_length);
        proof {
            lemma_lanes_nonneg(ns, scale, n as int);
            assert forall|c: int| #![trigger cells.main_rest(c)] #![trigger cells.branch_rest(c)] 0 <= c < n implies
                cells.main_rest(c) == drop_up_to(cell_main(ns, scale, c), 0)
                && cells.branch_rest(c) == drop_up_to(cell_branch(ns, scale, c), 0) by {
                assert(cell_main(ns, scale, c).skip(0) =~= cell_main(ns, scale, c));
                assert(cell_branch(ns, scale, c).skip(0) =~= cell_branch(ns, scale, c));
            }
        }
        let mut lanes: Vec<LinearLayout> = Vec::new();
        while cells.has_notes()
            invariant
                ns == notes@,
                n as int == track_cells(ns, scale, song_length),
                linear_fits(ns, scale, song_length, wrap_length, gap),
                width as int == lane_width(scale, gap),
                row_len as int == row_length(wrap_length, n as int),
                wrap_length matches Some(w) ==> w > 0,
                count == lanes_upto(ns, scale, n as int),
                cells.wf(),
                cells.len_spec() == n,
                0 <= lanes@.len() <= count,
                forall|c: int| 0 <= c < n ==> #[trigger] cells.main_rest(c) == drop_up_to(cell_main(ns, scale, c), 3 * (lanes@.len() as int)),
                forall|c: int| 0 <= c < n ==> #[trigger] cells.branch_rest(c) == drop_up_to(cell_branch(ns, scale, c), 2 * (lanes@.len() as int)),
                forall|j: int| 0 <= j < lanes@.len() ==> lane_matches(#[trigger] lanes@[j], ns, scale, n as int, row_len as int, width as int, j),
            decreases count - lanes@.len(),
        {
            let ghost j = lanes@.len() as int;
            proof {
                let c = choose|c: int| 0 <= c < cells.len_spec() && #[trigger] cells.holds_notes(c);
                lemma_cell_pending(ns, scale, c, j);
                lemma_lanes_ge(ns, scale, n as int, c);
            }
            let lane = build_lane(&mut cells, scale, width, row_len, Ghost(ns), Ghost(j));
            lanes.push(lane);
        }
        proof {
            let j = lanes@.len() as int;
            assert forall|c: int| 0 <= c < n implies #[trigger] cell_lanes(ns, scale, c) <= j by {
                assert(!cells.holds_notes(c));
                lemma_cell_pending(ns, scale, c, j);
            }
            lemma_lanes_le(ns, scale, n as int, j);
        }
        lanes
    }
}

/// Builds lane `j` of a track out of cells that hold what the earlier lanes
/// left: one row per `row_len` cells.
fn build_lane(cells: &mut Cells, scale: ScaleMode, width: i32, row_len: usize, Ghost(ns): Ghost<Seq<(Tick, Tone)>>, Ghost(j): Ghost<int>) -> (r: LinearLayout)
    requires
        old(cells).wf(),
        1 <= old(cells).len_spec() <= max_row_cells(),
        row_len >= 1,
        j >= 0,
        6 <= width,
        lane_size_x(old(cells).len_spec(), row_len as int, width as int) <= i32::MAX,
        forall|c: int| 0 <= c < old(cells).len_spec() ==> #[trigger] old(cells).main_rest(c) == drop_up_to(cell_main(ns, scale, c), 3 * j),
        forall|c: int| 0 <= c < old(cells).len_spec() ==> #[trigger] old(cells).branch_rest(c) == drop_up_to(cell_branch(ns, scale, c), 2 * j),
    ensures
        final(cells).wf(),
        final(cells).len_spec() == old(cells).len_spec(),
        forall|c: int| 0 <= c < old(cells).len_spec() ==> #[trigger] final(cells).main_rest(c) == drop_up_to(cell_main(ns, scale, c), 3 * (j + 1)),
        forall|c: int| 0 <= c < old(cells).len_spec() ==> #[trigger] final(cells).branch_rest(c) == drop_up_to(cell_branch(ns, scale, c), 2 * (j + 1)),
        lane_matches(r, ns, scale, old(cells).len_spec(), row_len as int, width as int, j),
{
    let n = cells.len();
    let mut rows: Vec<Row> = Vec::new();
    let mut start: usize = 0;
    loop
        invariant_except_break
            start < n,
            start == rows@.len() * row_len,
            forall|c: int| start <= c < n ==> #[trigger] cells.main_rest(c) == drop_up_to(cell_main(ns, scale, c), 3 * j),
            forall|c: int| start <= c < n ==> #[trigger] cells.branch_rest(c) == drop_up_to(cell_branch(ns, scale, c), 2 * j),
        invariant
            n as int == cells.len_spec(),
            1 <= n <= max_row_cells(),
            row_len >= 1,
            j >= 0,
            6 <= width,
            lane_size_x(n as int, row_len as int, width as int) <= i32::MAX,
            cells.wf(),
            rows@.len() <= n,
            start <= n,
            forall|c: int| 0 <= c < start ==> #[trigger] cells.main_rest(c) == drop_up_to(cell_main(ns, scale, c), 3 * (j + 1)),
            forall|c: int| 0 <= c < start ==> #[trigger] cells.branch_rest(c) == drop_up_to(cell_branch(ns, scale, c), 2 * (j + 1)),
            forall|k: int| 0 <= k < rows@.len() ==> {
                let s = k * row_len;
                let e = row_end(n as int, s, row_len as int);
                &&& (#[trigger] rows@[k]).wf()
                &&& rows@[k].templates_spec().len() == e - s
                &&& forall|i: int| 0 <= i < e - s ==> #[trigger] rows@[k].templates_spec()[i]
                    == lane_template(ns, scale, s + i, j, k % 2 == 0)
                &&& rows@[k].leading_turn_spec() == (k > 0)
                &&& rows@[k].south_bound_spec() == (k % 2 == 0)
                &&& rows@[k].size_spec() == (BlockPos { x: width, y: 2, z: (2 * (e - s) + 2) as i32 })
                &&& 1 <= e - s <= row_len
            },
        ensures
            n as int == cells.len_spec(),
            cells.wf(),
            rows@.len() == row_count(n as int, row_len as int),
            rows@.len() >= 1,
            forall|c: int| 0 <= c < n ==> #[trigger] cells.main_rest(c) == drop_up_to(cell_main(ns, scale, c), 3 * (j + 1)),
            forall|c: int| 0 <= c < n ==> #[trigger] cells.branch_rest(c) == drop_up_to(cell_branch(ns, scale, c), 2 * (j + 1)),
            forall|k: int| 0 <= k < rows@.len() ==> {
                let s = k * row_len;
                let e = row_end(n as int, s, row_len as int);
                &&& (#[trigger] rows@[k]).wf()
                &&& rows@[k].templates_spec().len() == e - s
                &&& forall|i: int| 0 <= i < e - s ==> #[trigger] rows@[k].templates_spec()[i]
                    == lane_template(ns, scale, s + i, j, k % 2 == 0)
                &&& rows@[k].leading_turn_spec() == (k > 0)
                &&& rows@[k].south_bound_spec() == (k % 2 == 0)
                &&& rows@[k].size_spec() == (BlockPos { x: width, y: 2, z: (2 * (e - s) + 2) as i32 })
                &&& 1 <= e - s <= row_len
            },
        decreases n - start,
    {
        let k = rows.len();
        let ghost before = *cells;
        let row = Row::new(cells, start, row_len, scale, width, k > 0, k % 2 == 0);
        let ghost e = row_end(n as int, start as int, row_len as int);
        proof {
            assert forall|c: int| #![trigger cells.main_rest(c)] #![trigger cells.branch_rest(c)] 0 <= c < e implies
                cells.main_rest(c) == drop_up_to(cell_main(ns, scale, c), 3 * (j + 1))
                && cells.branch_rest(c) == drop_up_to(cell_branch(ns, scale, c), 2 * (j + 1)) by {
                if c >= start {
                    lemma_drop_twice(cell_main(ns, scale, c), 3 * j, 3);
                    lemma_drop_twice(cell_branch(ns, scale, c), 2 * j, 2);
                    assert(before.main_rest(c) == drop_up_to(cell_main(ns, scale, c), 3 * j));
                    assert(before.branch_rest(c) == drop_up_to(cell_branch(ns, scale, c), 2 * j));
                } else {
                    assert(!(start <= c < e));
                    assert(before.main_rest(c) == drop_up_to(cell_main(ns, scale, c), 3 * (j + 1)));
                    assert(before.branch_rest(c) == drop_up_to(cell_branch(ns, scale, c), 2 * (j + 1)));
                }
            }
            assert forall|c: int| #![trigger cells.main_rest(c)] #![trigger cells.branch_rest(c)] e <= c < n implies
                cells.main_rest(c) == drop_up_to(cell_main(ns, scale, c), 3 * j)
                && cells.branch_rest(c) == drop_up_to(cell_branch(ns, scale, c), 2 * j) by {
                assert(!(start <= c < e));
                assert(before.main_rest(c) == drop_up_to(cell_main(ns, scale, c), 3 * j));
                assert(before.branch_rest(c) == drop_up_to(cell_branch(ns, scale, c), 2 * j));
            }
            assert forall|i: int| 0 <= i < e - start implies #[trigger] row.templates_spec()[i]
                == lane_template(ns, scale, start + i, j, k % 2 == 0) by {
                assert(before.main_rest(start + i) == drop_up_to(cell_main(ns, scale, start + i), 3 * j));
                assert(before.branch_rest(start + i) == drop_up_to(cell_branch(ns, scale, start + i), 2 * j));
            }
        }
        rows.push(row);
        proof {
            assert(rows@[k as int] == row);
            assert(start == k * row_len);
            assert(k <= k * row_len) by (nonlinear_arith) requires row_len >= 1;
        }
        if row_len >= n - start {
            proof {
                assert(e == n);
                let kk = k as int;
                let l = row_len as int;
                let nn = n as int;
                assert(kk * l < nn);
                assert(nn <= (kk + 1) * l) by (nonlinear_arith) requires kk * l + l >= nn, kk * l < nn;
                let rem = nn + l - 1 - (kk + 1) * l;
                assert(nn + l - 1 == (kk + 1) * l + rem);
                assert(0 <= rem < l) by (nonlinear_arith) requires rem == nn + l - 1 - (kk + 1) * l, kk * l < nn, nn <= (kk + 1) * l;
                assert(nn + l - 1 == (kk + 1) * l + rem) by (nonlinear_arith) requires rem == nn + l - 1 - (kk + 1) * l;
                vstd::arithmetic::div_mod::lemma_fundamental_div_mod_converse(nn + l - 1, l, kk + 1, rem);
            }
            break;
        }
        proof {
            let kk = k as int;
            let l = row_len as int;
            assert((kk + 1) * l == kk * l + l) by (nonlinear_arith);
        }
        start = start + row_len;
    }
    let pitch = BlockPos::new(width - 2, 0, 0);
    proof {
        let m = rows@.len() as int;
        let b = BlockPos { x: width, y: 2, z: (2 * n + 2) as i32 };
        assert forall|k: int| 0 <= k < rows@.len() implies le_pos(#[trigger] rows@[k].size_spec(), b) by {
            let s = k * row_len;
            let e = row_end(n as int, s, row_len as int);
            assert(rows@[k].wf());
        }
        lemma_extent_bounded(rows@, m, b);
        let ext = evenly_extent(rows@, m);
        assert(abs_int(pitch.x as int) == width - 2);
        assert(abs_int(pitch.y as int) * (m - 1) == 0) by (nonlinear_arith) requires abs_int(pitch.y as int) == 0;
        assert(abs_int(pitch.z as int) * (m - 1) == 0) by (nonlinear_arith) requires abs_int(pitch.z as int) == 0;
        assert(0 <= (width - 2) * (m - 1)) by (nonlinear_arith) requires m >= 1, width >= 6;
        assert(evenly_fits(rows@, pitch));
        assert forall|k: int| 0 <= k < rows@.len() implies nonneg(#[trigger] rows@[k].size_spec()) by {
            assert(rows@[k].wf());
        }
    }
    let ghost rs = rows@;
    let arranged = EvenlyArranged::new(rows, pitch);
    proof {
        arranged.lemma_semantics();
        assert(rs[0].size_spec().y == 2);
        let m = rs.len() as int;
        let ext = evenly_extent(rs, m);
        lemma_extent_covers(rs, m, 0);
        assert(abs_int(pitch.x as int) * (m - 1) == (width - 2) * (m - 1));
        assert(lane_size_x(n as int, row_len as int, width as int) == (width - 2) * (m - 1) + width);
    }
    LinearLayout(arranged)
}

impl Layout for LinearLayout {
    closed spec fn wf(&self) -> bool {
        self.0.wf()
    }

    closed spec fn size_spec(&self) -> BlockPos {
        self.0.size_spec()
    }

    closed spec fn block_spec(&self, pos: BlockPos) -> Option<BlockView> {
        self.0.block_spec(pos)
    }

    fn block_at(&self, pos: BlockPos) -> (r: Option<BlockState>) {
        self.0.get_block(pos)
    }

    fn size(&self) -> (r: BlockPos) {
        self.0.size()
    }
}

// MultiLinearLayout & StackedLinearLayout
//
// ++++++++++++============++++++++++++============++++++++++++============

/// The scale every track of a song is laid out at.
pub open spec fn tracks_scale(tracks: Seq<Vec<(Tick, Tone)>>) -> ScaleMode {
    scale_for(tracks_divisible(tracks, 4), tracks_divisible(tracks, 3), tracks_divisible(tracks, 2))
}

/// The lanes of the first `t` tracks.
pub open spec fn lanes_before(tracks: Seq<Vec<(Tick, Tone)>>, scale: ScaleMode, song_length: Tick, t: int) -> int
    decreases t,
{
    if t <= 0 {
        0
    } else {
        lanes_before(tracks, scale, song_length, t - 1) + lane_count(tracks[t - 1]@, scale, song_length)
    }
}

/// Every track's lanes fit the coordinate range.
pub open spec fn lanes_fit(tracks: Seq<Vec<(Tick, Tone)>>, song_length: Tick, wrap_length: Option<Tick>, gap: u32) -> bool {
    forall|t: int| 0 <= t < tracks.len() ==> linear_fits(#[trigger] tracks[t]@, tracks_scale(tracks), song_length, wrap_length, gap)
}

/// The lanes of a song fit the coordinate range stacked four blocks apart,
/// each on its floor, three blocks high.
pub open spec fn stacked_fits(tracks: Seq<Vec<(Tick, Tone)>>, song_length: Tick, wrap_length: Option<Tick>, gap: u32) -> bool {
    let l = lanes_before(tracks, tracks_scale(tracks), song_length, tracks.len() as int);
    &&& lanes_fit(tracks, song_length, wrap_length, gap)
    &&& 4 * (l - 1) + 3 <= i32::MAX
}

/// The unwrapped lanes of a song fit the coordinate range side by side,
/// a cell's width and `gap` apart.
pub open spec fn side_by_side_fits(tracks: Seq<Vec<(Tick, Tone)>>, song_length: Tick, gap: u32) -> bool {
    let scale = tracks_scale(tracks);
    let l = lanes_before(tracks, scale, song_length, tracks.len() as int);
    let pitch = scale.width_spec() + gap;
    &&& lanes_fit(tracks, song_length, None, 0)
    &&& pitch <= i32::MAX
    &&& pitch * (l - 1) + lane_width(scale, 0) <= i32::MAX
}

proof fn lemma_lanes_before_nonneg(tracks: Seq<Vec<(Tick, Tone)>>, scale: ScaleMode, song_length: Tick, a: int)
    requires
        0 <= a <= tracks.len(),
    ensures
        lanes_before(tracks, scale, song_length, a) >= 0,
    decreases a,
{
    if a > 0 {
        lemma_lanes_before_nonneg(tracks, scale, song_length, a - 1);
        lemma_lanes_nonneg(tracks[a - 1]@, scale, track_cells(tracks[a - 1]@, scale, song_length));
    }
}

proof fn lemma_lanes_before_mono(tracks: Seq<Vec<(Tick, Tone)>>, scale: ScaleMode, song_length: Tick, a: int, b: int)
    requires
        0 <= a <= b <= tracks.len(),
    ensures
        lanes_before(tracks, scale, song_length, a) <= lanes_before(tracks, scale, song_length, b),
        lanes_before(tracks, scale, song_length, a) >= 0,
    decreases b,
{
    lemma_lanes_before_nonneg(tracks, scale, song_length, a);
    if a < b {
        lemma_lanes_before_mono(tracks, scale, song_length, a, b - 1);
        lemma_lanes_nonneg(tracks[b - 1]@, scale, track_cells(tracks[b - 1]@, scale, song_length));
    }
}

/// Lays out every track's lanes, in track order, each lane built as
/// [`LinearLayout::new`] builds it.
fn all_lanes(tracks: &Vec<Vec<(Tick, Tone)>>, scale: ScaleMode, song_length: Tick, wrap_length: Option<Tick>, gap: u32) -> (r: Vec<LinearLayout>)
    requires
        wrap_length matches Some(w) ==> w > 0,
        forall|t: int| 0 <= t < tracks@.len() ==> linear_fits(#[trigger] tracks@[t]@, scale, song_length, wrap_length, gap),
    ensures
        r@.len() == lanes_before(tracks@, scale, song_length, tracks@.len() as int),
        forall|t: int, j: int| 0 <= t < tracks@.len() && 0 <= j < lane_count(tracks@[t]@, scale, song_length) ==> lane_matches(
            #[trigger] r@[lanes_before(tracks@, scale, song_length, t) + j],
            tracks@[t]@,
            scale,
            track_cells(tracks@[t]@, scale, song_length),
            row_length(wrap_length, track_cells(tracks@[t]@, scale, song_length)),
            lane_width(scale, gap),
            j,
        ),
{
    let mut layouts: Vec<LinearLayout> = Vec::new();
    let mut t: usize = 0;
    while t < tracks.len()
        invariant
            0 <= t <= tracks@.len(),
            wrap_length matches Some(w) ==> w > 0,
            forall|u: int| 0 <= u < tracks@.len() ==> linear_fits(#[trigger] tracks@[u]@, scale, song_length, wrap_length, gap),
            layouts@.len() == lanes_before(tracks@, scale, song_length, t as int),
            forall|u: int, j: int| 0 <= u < t && 0 <= j < lane_count(tracks@[u]@, scale, song_length) ==> lane_matches(
                #[trigger] layouts@[lanes_before(tracks@, scale, song_length, u) + j],
                tracks@[u]@,
                scale,
                track_cells(tracks@[u]@, scale, song_length),
                row_length(wrap_length, track_cells(tracks@[u]@, scale, song_length)),
                lane_width(scale, gap),
                j,
            ),
        decreases tracks@.len() - t,
    {
        let ghost before = layouts@;
        let mut lanes = LinearLayout::new(&tracks[t], scale, song_length, wrap_length, gap);
        let ghost added = lanes@;
        layouts.append(&mut lanes);
        proof {
            assert forall|u: int, j: int| 0 <= u < t + 1 && 0 <= j < lane_count(tracks@[u]@, scale, song_length) implies lane_matches(
                #[trigger] layouts@[lanes_before(tracks@, scale, song_length, u) + j],
                tracks@[u]@,
                scale,
                track_cells(tracks@[u]@, scale, song_length),
                row_length(wrap_length, track_cells(tracks@[u]@, scale, song_length)),
                lane_width(scale, gap),
                j,
            ) by {
                lemma_lanes_before_mono(tracks@, scale, song_length, u, t as int);
                if u < t {
                    lemma_lanes_before_mono(tracks@, scale, song_length, u + 1, t as int);
                    assert(lanes_before(tracks@, scale, song_length, u) + j < lanes_before(tracks@, scale, song_length, u + 1));
                    assert(layouts@[lanes_before(tracks@, scale, song_length, u) + j] == before[lanes_before(tracks@, scale, song_length, u) + j]);
                } else {
                    assert(layouts@[lanes_before(tracks@, scale, song_length, u) + j] == added[j]);
                }
            }
        }
        t = t + 1;
    }
    layouts
}

/// The extent of a song's lanes stays in the coordinate range; unwrapped
/// lanes are one row wide.
proof fn lemma_lanes_extent(lanes: Seq<LinearLayout>, tracks: Seq<Vec<(Tick, Tone)>>, scale: ScaleMode, song_length: Tick, wrap_length: Option<Tick>, gap: u32)
    requires
        lanes.len() == lanes_before(tracks, scale, song_length, tracks.len() as int),
        forall|t: int| 0 <= t < tracks.len() ==> linear_fits(#[trigger] tracks[t]@, scale, song_length, wrap_length, gap),
        forall|t: int, j: int| 0 <= t < tracks.len() && 0 <= j < lane_count(tracks[t]@, scale, song_length) ==> lane_matches(
            #[trigger] lanes[lanes_before(tracks, scale, song_length, t) + j],
            tracks[t]@,
            scale,
            track_cells(tracks[t]@, scale, song_length),
            row_length(wrap_length, track_cells(tracks[t]@, scale, song_length)),
            lane_width(scale, gap),
            j,
        ),
    ensures
        forall|k: int| 0 <= k < lanes.len() ==> #[trigger] lanes[k].wf(),
        forall|k: int| 0 <= k < lanes.len() ==> nonneg(#[trigger] lanes[k].size_spec()),
        forall|k: int| 0 <= k < lanes.len() ==> (#[trigger] lanes[k].size_spec()).y == 2,
        forall|k: int| 0 <= k < lanes.len() ==>
            le_pos(#[trigger] lanes[k].size_spec(), BlockPos { x: i32::MAX, y: 2, z: (2 * max_row_cells() + 2) as i32 }),
        wrap_length is None ==> forall|k: int| 0 <= k < lanes.len() ==> (#[trigger] lanes[k].size_spec()).x == lane_width(scale, gap),
{
    assert forall|k: int| 0 <= k < lanes.len() implies {
        &&& (#[trigger] lanes[k]).wf()
        &&& nonneg(lanes[k].size_spec())
        &&& lanes[k].size_spec().y == 2
        &&& le_pos(lanes[k].size_spec(), BlockPos { x: i32::MAX, y: 2, z: (2 * max_row_cells() + 2) as i32 })
        &&& (wrap_length is None ==> lanes[k].size_spec().x == lane_width(scale, gap))
    } by {
        let t = lemma_find_track(tracks, scale, song_length, k, tracks.len() as int);
        let j = k - lanes_before(tracks, scale, song_length, t);
        let n = track_cells(tracks[t]@, scale, song_length);
        assert(linear_fits(tracks[t]@, scale, song_length, wrap_length, gap));
        assert(lanes[lanes_before(tracks, scale, song_length, t) + j] == lanes[k]);
        lemma_lanes_nonneg(tracks[t]@, scale, n);
        assert(n > 0) by {
            if n <= 0 {
                assert(lane_count(tracks[t]@, scale, song_length) == 0);
            }
        }
        let w = lane_width(scale, gap);
        let rl = row_length(wrap_length, n);
        assert(0 <= j < lane_count(tracks[t]@, scale, song_length));
        assert(lane_matches(lanes[k], tracks[t]@, scale, n, rl, w, j));
        assert(lanes[k].size_spec().x == lane_size_x(n, rl, w));
        assert(lane_size_x(n, rl, w) <= i32::MAX);
        if wrap_length is None {
            vstd::arithmetic::div_mod::lemma_fundamental_div_mod_converse(n + n - 1, n, 1, n - 1);
            assert(row_count(n, n) == 1);
            assert(lane_size_x(n, n, w) == w) by (nonlinear_arith)
                requires row_count(n, n) == 1, lane_size_x(n, n, w) == (w - 2) * (row_count(n, n) - 1) + w;
        }
    }
}

/// The track whose lanes hold lane `k`.
proof fn lemma_find_track(tracks: Seq<Vec<(Tick, Tone)>>, scale: ScaleMode, song_length: Tick, k: int, t: int) -> (u: int)
    requires
        0 <= t <= tracks.len(),
        0 <= k < lanes_before(tracks, scale, song_length, t),
    ensures
        0 <= u < t,
        lanes_before(tracks, scale, song_length, u) <= k < lanes_before(tracks, scale, song_length, u + 1),
    decreases t,
{
    lemma_lanes_before_mono(tracks, scale, song_length, 0, t);
    if k >= lanes_before(tracks, scale, song_length, t - 1) {
        t - 1
    } else {
        lemma_find_track(tracks, scale, song_length, k, t - 1)
    }
}

impl Cells {
    /// The lanes that the notes not taken yet fill, cell by cell.
    fn lane_count(&self, Ghost(ns): Ghost<Seq<(Tick, Tone)>>, Ghost(scale): Ghost<ScaleMode>) -> (r: usize)
        requires
            self.wf(),
            forall|c: int| 0 <= c < self.len_spec() ==> #[trigger] self.main_rest(c) == cell_main(ns, scale, c),
            forall|c: int| 0 <= c < self.len_spec() ==> #[trigger] self.branch_rest(c) == cell_branch(ns, scale, c),
        ensures
            r == lanes_upto(ns, scale, self.len_spec()),
    {
        let mut acc: usize = 0;
        let mut c: usize = 0;
        while c < self.slots.len()
            invariant
                self.wf(),
                0 <= c <= self.slots@.len(),
                forall|d: int| 0 <= d < self.len_spec() ==> #[trigger] self.main_rest(d) == cell_main(ns, scale, d),
                forall|d: int| 0 <= d < self.len_spec() ==> #[trigger] self.branch_rest(d) == cell_branch(ns, scale, d),
                acc == lanes_upto(ns, scale, c as int),
            decreases self.slots@.len() - c,
        {
            let cell = &self.slots[c];
            proof {
                assert(self.slots@[c as int].wf());
                assert(self.main_rest(c as int) == cell_main(ns, scale, c as int));
                assert(self.branch_rest(c as int) == cell_branch(ns, scale, c as int));
            }
            let m = cell.main.len() - cell.main_taken;
            let b = cell.branch.len() - cell.branch_taken;
            let lm = m / 3 + if m % 3 > 0 { 1 } else { 0 };
            let lb = b / 2 + if b % 2 > 0 { 1 } else { 0 };
            proof {
                assert(lm == (m as int + 2) / 3) by (nonlinear_arith)
                    requires lm == m / 3 + if m % 3 > 0 { 1int } else { 0int }, m >= 0;
                assert(lb == (b as int + 1) / 2) by (nonlinear_arith)
                    requires lb == b / 2 + if b % 2 > 0 { 1int } else { 0int }, b >= 0;
            }
            let l = if lm >= lb { lm } else { lb };
            if l > acc {
                acc = l;
            }
            c = c + 1;
        }
        acc
    }
}

/// The number of cells of a track, counted without filing its notes.
fn count_cells(notes: &Vec<(Tick, Tone)>, scale: ScaleMode, min: usize) -> (r: usize)
    ensures
        r == cells_len(notes@, scale, min as int),
{
    let mut n = min;
    let mut k: usize = 0;
    while k < notes.len()
        invariant
            0 <= k <= notes@.len(),
            n == cells_len(notes@.take(k as int), scale, min as int),
        decreases notes@.len() - k,
    {
        let (cell, _) = scale.cell_slot(notes[k].0);
        proof {
            assert(notes@.take(k + 1).drop_last() =~= notes@.take(k as int));
            assert(notes@.take(k + 1).last() == notes@[k as int]);
        }
        if cell + 1 > n {
            n = cell + 1;
        }
        k = k + 1;
    }
    proof {
        assert(notes@.take(k as int) =~= notes@);
    }
    n
}

/// Whether one track's lanes fit the coordinate range.
fn track_fits(notes: &Vec<(Tick, Tone)>, scale: ScaleMode, song_length: Tick, wrap_length: Option<Tick>, gap: u32) -> (r: bool)
    requires
        wrap_length matches Some(w) ==> w > 0,
    ensures
        r == linear_fits(notes@, scale, song_length, wrap_length, gap),
{
    let min = if song_length == 0 { 0 } else { scale.cell_slot(song_length - 1).0 + 1 };
    let n = count_cells(notes, scale, min);
    if n > 0x3fff_fffe {
        return false;
    }
    let width: u64 = (scale.width() as u64) + (gap as u64) + 1;
    if width > 0x7fff_ffff {
        return false;
    }
    if n == 0 {
        return true;
    }
    let row_len: u64 = match wrap_length {
        Some(w) => w as u64,
        None => n as u64,
    };
    let rows: u64 = (n as u64 + row_len - 1) / row_len;
    proof {
        assert(rows <= n) by (nonlinear_arith)
            requires rows == (n + row_len - 1) / (row_len as int), row_len >= 1, n >= 1;
        assert(rows >= 1) by (nonlinear_arith)
            requires rows == (n + row_len - 1) / (row_len as int), row_len >= 1, n >= 1;
        assert((width - 2) * (rows - 1) <= 0x7fff_ffff * 0x3fff_fffe) by (nonlinear_arith)
            requires 6 <= width <= 0x7fff_ffff, 1 <= rows <= 0x3fff_fffe;
    }
    (width - 2) * (rows - 1) + width <= 0x7fff_ffff
}

/// The lanes of all tracks, when every track's lanes fit and there are at
/// most `0x7fff_ffff` of them.
fn lanes_total(tracks: &Vec<Vec<(Tick, Tone)>>, scale: ScaleMode, song_length: Tick, wrap_length: Option<Tick>, gap: u32) -> (r: Option<u64>)
    requires
        wrap_length matches Some(w) ==> w > 0,
    ensures
        r is Some <==> (forall|t: int| 0 <= t < tracks@.len() ==> linear_fits(#[trigger] tracks@[t]@, scale, song_length, wrap_length, gap))
            && lanes_before(tracks@, scale, song_length, tracks@.len() as int) <= 0x7fff_ffff,
        r matches Some(l) ==> l == lanes_before(tracks@, scale, song_length, tracks@.len() as int),
{
    let ghost ts = tracks@;
    let mut lanes: u64 = 0;
    let mut t: usize = 0;
    while t < tracks.len()
        invariant
            0 <= t <= ts.len(),
            ts == tracks@,
            wrap_length matches Some(w) ==> w > 0,
            forall|u: int| 0 <= u < t ==> linear_fits(#[trigger] ts[u]@, scale, song_length, wrap_length, gap),
            lanes as int == lanes_before(ts, scale, song_length, t as int),
            lanes <= 0x7fff_ffff,
        decreases ts.len() - t,
    {
        let notes = &tracks[t];
        if !track_fits(notes, scale, song_length, wrap_length, gap) {
            return None;
        }
        let min = if song_length == 0 { 0 } else { scale.cell_slot(song_length - 1).0 + 1 };
        let cells = Cells::new(notes, scale, min);
        let count = cells.lane_count(Ghost(ts[t as int]@), Ghost(scale));
        if count as u64 > 0x7fff_ffff - lanes {
            proof {
                lemma_lanes_before_mono(ts, scale, song_length, t as int + 1, ts.len() as int);
            }
            return None;
        }
        lanes = lanes + count as u64;
        t = t + 1;
    }
    Some(lanes)
}

/// Whether a song's lanes, wrapped every `wrap_length` cells with `gap`
/// blocks between cells, fit stacked: the condition
/// [`StackedLinearLayout::new`] asks for.
pub fn stacked_fit_check(tracks: &Vec<Vec<(Tick, Tone)>>, song_length: Tick, wrap_length: Option<Tick>, gap: u32) -> (r: bool)
    requires
        wrap_length matches Some(w) ==> w > 0,
    ensures
        r == stacked_fits(tracks@, song_length, wrap_length, gap),
{
    let scale = ScaleMode::from_tracks(tracks);
    match lanes_total(tracks, scale, song_length, wrap_length, gap) {
        Some(l) => l <= 0x2000_0000,
        None => false,
    }
}

/// Whether a song's unwrapped lanes fit side by side, `gap` blocks apart:
/// the condition [`MultiLinearLayout::new`] asks for.
pub fn side_by_side_fit_check(tracks: &Vec<Vec<(Tick, Tone)>>, song_length: Tick, gap: u32) -> (r: bool)
    ensures
        r == side_by_side_fits(tracks@, song_length, gap),
{
    let scale = ScaleMode::from_tracks(tracks);
    let pitch: u64 = scale.width() as u64 + gap as u64;
    if pitch > 0x7fff_ffff {
        return false;
    }
    let total = lanes_total(tracks, scale, song_length, None, 0);
    proof {
        assert(scale == tracks_scale(tracks@));
        if total is Some {
            assert(lanes_fit(tracks@, song_length, None, 0));
        }
    }
    match total {
        Some(l) => {
            if l == 0 {
                proof {
                    assert(pitch * (l - 1) + lane_width(scale, 0) <= i32::MAX) by (nonlinear_arith)
                        requires l == 0, pitch <= 0x7fff_ffff, lane_width(scale, 0) <= 7;
                }
                true
            } else {
                proof {
                    assert(pitch * (l - 1) <= 0x7fff_ffff * 0x7fff_ffff) by (nonlinear_arith)
                        requires pitch <= 0x7fff_ffff, 1 <= l <= 0x7fff_ffff;
                }
                pitch * (l - 1) + (scale.width() as u64) + 1 <= 0x7fff_ffff
            }
        },
        None => {
            proof {
                let ts = tracks@;
                let ll = lanes_before(ts, scale, song_length, ts.len() as int);
                if lanes_fit(ts, song_length, None, 0) {
                    assert(ll > 0x7fff_ffff);
                    assert(pitch * (ll - 1) + lane_width(scale, 0) > 0x7fff_ffff) by (nonlinear_arith)
                        requires pitch >= 5, ll > 0x7fff_ffff, lane_width(scale, 0) >= 6;
                }
            }
            false
        },
    }
}

/// What [`MultiLinearLayout::new`] builds: every track's unwrapped lanes, in
/// track order, a cell's width and `gap` apart, showing as evenly arranged.
pub open spec fn side_by_side_built(r: MultiLinearLayout, tracks: Seq<Vec<(Tick, Tone)>>, gap: u32, song_length: Tick) -> bool {
    let scale = tracks_scale(tracks);
    &&& r.wf()
    &&& r.lanes_spec().len() == lanes_before(tracks, scale, song_length, tracks.len() as int)
    &&& r.pitch_spec() == (BlockPos { x: (scale.width_spec() + gap) as i32, y: 0, z: 0 })
    &&& forall|t: int, j: int| 0 <= t < tracks.len() && 0 <= j < lane_count(tracks[t]@, scale, song_length) ==>
        lane_matches(
            #[trigger] r.lanes_spec()[lanes_before(tracks, scale, song_length, t) + j],
            tracks[t]@,
            scale,
            track_cells(tracks[t]@, scale, song_length),
            track_cells(tracks[t]@, scale, song_length),
            lane_width(scale, 0),
            j,
        )
    &&& r.size_spec() == evenly_size(r.lanes_spec(), r.pitch_spec())
    &&& forall|pos: BlockPos| #[trigger] r.block_spec(pos) == evenly_block(r.lanes_spec(), r.pitch_spec(), pos)
}

/// What [`StackedLinearLayout::new`] builds: every track's lanes, wrapped
/// every `wrap_length` cells, each on its floor, stacked four blocks apart.
pub open spec fn stacked_built(
    r: StackedLinearLayout,
    tracks: Seq<Vec<(Tick, Tone)>>,
    wrap_length: Option<Tick>,
    gap: u32,
    full: bool,
    song_length: Tick,
) -> bool {
    let scale = tracks_scale(tracks);
    &&& r.wf()
    &&& r.lanes_spec().len() == lanes_before(tracks, scale, song_length, tracks.len() as int)
    &&& r.pitch_spec() == (BlockPos { x: 0, y: 4, z: 0 })
    &&& forall|t: int, j: int| 0 <= t < tracks.len() && 0 <= j < lane_count(tracks[t]@, scale, song_length) ==>
        (#[trigger] r.lanes_spec()[lanes_before(tracks, scale, song_length, t) + j]).full_spec() == full
        && lane_matches(
            r.lanes_spec()[lanes_before(tracks, scale, song_length, t) + j].inner_spec(),
            tracks[t]@,
            scale,
            track_cells(tracks[t]@, scale, song_length),
            row_length(wrap_length, track_cells(tracks[t]@, scale, song_length)),
            lane_width(scale, gap),
            j,
        )
    &&& forall|k: int, pos: BlockPos| 0 <= k < r.lanes_spec().len() && in_box(r.lanes_spec()[k].size_spec(), pos) ==>
        #[trigger] r.lanes_spec()[k].block_spec(pos) == with_floor_spec(
            r.lanes_spec()[k].inner_spec().block_spec(pos),
            r.lanes_spec()[k].inner_spec().block_spec(BlockPos { x: pos.x, y: (pos.y - 1) as i32, z: pos.z }),
            full,
            pos,
        )
    &&& r.size_spec() == evenly_size(r.lanes_spec(), r.pitch_spec())
    &&& forall|pos: BlockPos| #[trigger] r.block_spec(pos) == evenly_block(r.lanes_spec(), r.pitch_spec(), pos)
}

/// Multi-track linear layout: every lane of every track side by side.
pub struct MultiLinearLayout(EvenlyArranged<LinearLayout>);

impl MultiLinearLayout {
    pub closed spec fn lanes_spec(&self) -> Seq<LinearLayout> {
        self.0.items_spec()
    }

    pub closed spec fn pitch_spec(&self) -> BlockPos {
        self.0.pitch_spec()
    }

    /// Lays out every track in unwrapped lanes, side by side, `gap` blocks
    /// apart, all at the coarsest scale that fits every track.
    pub fn new(tracks: &Vec<Vec<(Tick, Tone)>>, gap: u32, song_length: Tick) -> (r: Self)
        requires
            side_by_side_fits(tracks@, song_length, gap),
        ensures
            side_by_side_built(r, tracks@, gap, song_length),
    {
        let scale = ScaleMode::from_tracks(tracks);
        let layouts = all_lanes(tracks, scale, song_length, None, 0);
        let pitch = BlockPos::new(scale.width() + gap as i32, 0, 0);
        proof {
            let ls = layouts@;
            let k = ls.len() as int;
            let w0 = lane_width(scale, 0);
            lemma_lanes_extent(ls, tracks@, scale, song_length, None, 0);
            let b = BlockPos { x: w0 as i32, y: 2, z: (2 * max_row_cells() + 2) as i32 };
            lemma_extent_bounded(ls, k, b);
            let p = pitch.x as int;
            assert(p * (k - 1) + w0 <= i32::MAX);
            assert(k <= i32::MAX) by (nonlinear_arith) requires p * (k - 1) + w0 <= i32::MAX, p >= 1, k >= 0, w0 >= 1;
            assert(p * (k - 1) >= -p) by (nonlinear_arith) requires p >= 1, k >= 0;
            assert(abs_int(pitch.y as int) * (k - 1) == 0) by (nonlinear_arith) requires abs_int(pitch.y as int) == 0;
            assert(abs_int(pitch.z as int) * (k - 1) == 0) by (nonlinear_arith) requires abs_int(pitch.z as int) == 0;
            assert(evenly_fits(ls, pitch));
        }
        let arranged = EvenlyArranged::new(layouts, pitch);
        proof {
            arranged.lemma_semantics();
        }
        MultiLinearLayout(arranged)
    }
}

impl Layout for MultiLinearLayout {
    closed spec fn wf(&self) -> bool {
        self.0.wf()
    }

    closed spec fn size_spec(&self) -> BlockPos {
        self.0.size_spec()
    }

    closed spec fn block_spec(&self, pos: BlockPos) -> Option<BlockView> {
        self.0.block_spec(pos)
    }

    fn block_at(&self, pos: BlockPos) -> (r: Option<BlockState>) {
        self.0.get_block(pos)
    }

    fn size(&self) -> (r: BlockPos) {
        self.0.size()
    }
}

/// Puts each lane on a floor platform, keeping the order.
fn floored(lanes: Vec<LinearLayout>, full: bool) -> (r: Vec<WithFloor<LinearLayout>>)
    requires
        forall|k: int| 0 <= k < lanes@.len() ==> #[trigger] lanes@[k].wf(),
        forall|k: int| 0 <= k < lanes@.len() ==> nonneg(#[trigger] lanes@[k].size_spec()),
        forall|k: int| 0 <= k < lanes@.len() ==> (#[trigger] lanes@[k].size_spec()).y == 2,
    ensures
        r@.len() == lanes@.len(),
        forall|k: int| 0 <= k < r@.len() ==> (#[trigger] r@[k]).inner_spec() == lanes@[k] && r@[k].full_spec() == full && r@[k].wf(),
        forall|k: int| 0 <= k < r@.len() ==> (#[trigger] r@[k]).size_spec() == (BlockPos {
            x: lanes@[k].size_spec().x,
            y: 3,
            z: lanes@[k].size_spec().z,
        }),
        forall|k: int, pos: BlockPos| 0 <= k < r@.len() && in_box(r@[k].size_spec(), pos) ==> #[trigger] r@[k].block_spec(pos)
            == with_floor_spec(
                lanes@[k].block_spec(pos),
                lanes@[k].block_spec(BlockPos { x: pos.x, y: (pos.y - 1) as i32, z: pos.z }),
                full,
                pos,
            ),
{
    let ghost ls = lanes@;
    let mut lanes = lanes;
    let mut backwards: Vec<LinearLayout> = Vec::new();
    while lanes.len() > 0
        invariant
            backwards@.len() + lanes@.len() == ls.len(),
            lanes@ == ls.take(lanes@.len() as int),
            forall|k: int| 0 <= k < backwards@.len() ==> #[trigger] backwards@[k] == ls[ls.len() - 1 - k],
        decreases lanes.len(),
    {
        let l = lanes.pop().unwrap();
        backwards.push(l);
        proof {
            assert(lanes@ =~= ls.take(lanes@.len() as int));
        }
    }
    let mut out: Vec<WithFloor<LinearLayout>> = Vec::new();
    while backwards.len() > 0
        invariant
            backwards@.len() + out@.len() == ls.len(),
            forall|k: int| 0 <= k < ls.len() ==> #[trigger] ls[k].wf(),
            forall|k: int| 0 <= k < ls.len() ==> nonneg(#[trigger] ls[k].size_spec()),
            forall|k: int| 0 <= k < ls.len() ==> (#[trigger] ls[k].size_spec()).y == 2,
            forall|k: int| 0 <= k < backwards@.len() ==> #[trigger] backwards@[k] == ls[ls.len() - 1 - k],
            forall|k: int| 0 <= k < out@.len() ==> (#[trigger] out@[k]).inner_spec() == ls[k] && out@[k].full_spec() == full && out@[k].wf(),
            forall|k: int| 0 <= k < out@.len() ==> (#[trigger] out@[k]).size_spec() == (BlockPos {
                x: ls[k].size_spec().x,
                y: 3,
                z: ls[k].size_spec().z,
            }),
            forall|k: int, pos: BlockPos| 0 <= k < out@.len() && in_box(out@[k].size_spec(), pos) ==> #[trigger] out@[k].block_spec(pos)
                == with_floor_spec(
                    ls[k].block_spec(pos),
                    ls[k].block_spec(BlockPos { x: pos.x, y: (pos.y - 1) as i32, z: pos.z }),
                    full,
                    pos,
                ),
        decreases backwards.len(),
    {
        let l = backwards.pop().unwrap();
        proof {
            assert(l == ls[out@.len() as int]);
        }
        out.push(WithFloor::new(l, full));
    }
    out
}

/// Multi-track linear layout stacked vertically, each lane on a floor platform.
pub struct StackedLinearLayout(EvenlyArranged<WithFloor<LinearLayout>>);

impl StackedLinearLayout {
    pub closed spec fn lanes_spec(&self) -> Seq<WithFloor<LinearLayout>> {
        self.0.items_spec()
    }

    pub closed spec fn pitch_spec(&self) -> BlockPos {
        self.0.pitch_spec()
    }

    /// Lays out every track in lanes wrapped every `wrap_length` cells,
    /// `gap` blocks between cells, each lane on a floor, stacked four
    /// blocks apart.
    pub fn new(tracks: &Vec<Vec<(Tick, Tone)>>, wrap_length: Option<Tick>, gap: u32, full: bool, song_length: Tick) -> (r: Self)
        requires
            wrap_length matches Some(w) ==> w > 0,
            stacked_fits(tracks@, song_length, wrap_length, gap),
        ensures
            stacked_built(r, tracks@, wrap_length, gap, full, song_length),
    {
        let scale = ScaleMode::from_tracks(tracks);
        let lanes = all_lanes(tracks, scale, song_length, wrap_length, gap);
        proof {
            lemma_lanes_extent(lanes@, tracks@, scale, song_length, wrap_length, gap);
        }
        let ghost ls = lanes@;
        let layouts = floored(lanes, full);
        let pitch = BlockPos::new(0, 4, 0);
        proof {
            let fs = layouts@;
            let k = fs.len() as int;
            let b = BlockPos { x: i32::MAX, y: 3, z: (2 * max_row_cells() + 2) as i32 };
            assert forall|i: int| 0 <= i < fs.len() implies le_pos(#[trigger] fs[i].size_spec(), b) && nonneg(fs[i].size_spec()) by {
                assert(le_pos(ls[i].size_spec(), BlockPos { x: i32::MAX, y: 2, z: (2 * max_row_cells() + 2) as i32 }));
                assert(nonneg(ls[i].size_spec()));
            }
            lemma_extent_bounded(fs, k, b);
            assert(4 * (k - 1) + 3 <= i32::MAX);
            assert(abs_int(pitch.x as int) * (k - 1) == 0) by (nonlinear_arith) requires abs_int(pitch.x as int) == 0;
            assert(abs_int(pitch.z as int) * (k - 1) == 0) by (nonlinear_arith) requires abs_int(pitch.z as int) == 0;
            assert(evenly_fits(fs, pitch));
        }
        let ghost fs = layouts@;
        let arranged = EvenlyArranged::new(layouts, pitch);
        proof {
            arranged.lemma_semantics();
            assert forall|t: int, j: int| 0 <= t < tracks@.len() && 0 <= j < lane_count(tracks@[t]@, scale, song_length) implies
                fs[lanes_before(tracks@, scale, song_length, t) + j].full_spec() == full && lane_matches(
                    (#[trigger] fs[lanes_before(tracks@, scale, song_length, t) + j]).inner_spec(),
                    tracks@[t]@,
                    scale,
                    track_cells(tracks@[t]@, scale, song_length),
                    row_length(wrap_length, track_cells(tracks@[t]@, scale, song_length)),
                    lane_width(scale, gap),
                    j,
                ) by {
                let idx = lanes_before(tracks@, scale, song_length, t) + j;
                assert(lane_matches(
                    ls[idx],
                    tracks@[t]@,
                    scale,
                    track_cells(tracks@[t]@, scale, song_length),
                    row_length(wrap_length, track_cells(tracks@[t]@, scale, song_length)),
                    lane_width(scale, gap),
                    j,
                ));
                lemma_lanes_before_mono(tracks@, scale, song_length, t + 1, tracks@.len() as int);
                assert(lanes_before(tracks@, scale, song_length, t + 1)
                    == lanes_before(tracks@, scale, song_length, t) + lane_count(tracks@[t]@, scale, song_length));
                assert(ls.len() == lanes_before(tracks@, scale, song_length, tracks@.len() as int));
                assert(lanes_before(tracks@, scale, song_length, t + 1) <= lanes_before(tracks@, scale, song_length, tracks@.len() as int));
                lemma_lanes_before_nonneg(tracks@, scale, song_length, t);
                assert(idx < lanes_before(tracks@, scale, song_length, t + 1));
                assert(0 <= idx < ls.len());
                assert(fs[idx].inner_spec() == ls[idx]);
            }
        }
        StackedLinearLayout(arranged)
    }
}

impl Layout for StackedLinearLayout {
    closed spec fn wf(&self) -> bool {
        self.0.wf()
    }

    closed spec fn size_spec(&self) -> BlockPos {
        self.0.size_spec()
    }

    closed spec fn block_spec(&self, pos: BlockPos) -> Option<BlockView> {
        self.0.block_spec(pos)
    }

    fn block_at(&self, pos: BlockPos) -> (r: Option<BlockState>) {
        self.0.get_block(pos)
    }

    fn size(&self) -> (r: BlockPos) {
        self.0.size()
    }
}

} // verus!
