use nbs_fractal::note::{ImitateInstrument, Instrument, Tone};
use nbs_fractal::schematic::blocks::{
    BlockState, Facing, ImitateBlocks, InstrumentBlocks, Prop, ToneBlocks, WireConn, air, chain_block, inst_block,
    note_block, repeater, wire_state,
};
use nbs_fractal::schematic::compact::{CompactLayout, MultiCompactLayout, Tile, Track, group_by_tick, compact_tracks_fit_check, split_even_odd};
use nbs_fractal::schematic::layout::{
    Arranged, Axis, BlockPos, Clipped, EdgeArranged, EvenlyArranged, Floor, Layout, Mask, NeedsFloor, Overlaid,
    Reverse, WithFloor, region_blocks,
};
use nbs_fractal::schematic::song::{LinearLayouts, build_linear, linear_tracks, split_by_layer_gaps, tones_of_groups};
use nbs_fractal::schematic::linear::{
    Branch, Cells, LinearLayout, MultiLinearLayout, Row, ScaleMode, StackedLinearLayout, Template, side_by_side_fit_check, stacked_fit_check,
};

fn render(b: &BlockState) -> String {
    let props: Vec<String> = b
        .properties
        .iter()
        .map(|(k, v)| match v {
            Prop::Text(t) => format!("{k}={t}"),
            Prop::Num(n) => format!("{k}={n}"),
        })
        .collect();
    format!("{}[{}]", b.name, props.join(","))
}

fn block<L: Layout>(l: &L, x: i32, y: i32, z: i32) -> Option<String> {
    l.block_at(BlockPos::new(x, y, z)).map(|b| render(&b))
}

fn harp(key: u8) -> Tone {
    Tone { instrument: Instrument::Harp, key }
}

fn cell(main: Option<Tone>) -> Template {
    Template { main: (main, None), branch: Branch::Unbranched(None), scale: ScaleMode::Scale4, south_bound: true }
}

const NOTE_12: &str = "minecraft:note_block[note=12,powered=false,instrument=harp]";
const CHAIN: &str = "minecraft:smooth_stone[]";
const AIR: &str = "minecraft:air[]";
const DIRT: &str = "minecraft:dirt[]";
const FLOOR: &str = "minecraft:gray_stained_glass[]";

// Blocks
//
// ++++++++++++============++++++++++++============++++++++++++============

#[test]
fn facing_inverts_and_names() {
    assert_eq!(Facing::East.invert(), Facing::West);
    assert_eq!(Facing::North.invert(), Facing::South);
    assert_eq!(Facing::South.name(), "south");
    assert_eq!(Facing::West.name(), "west");
}

#[test]
fn wire_connections_name() {
    assert_eq!(WireConn::Detached.name(), "none");
    assert_eq!(WireConn::Side.name(), "side");
    assert_eq!(WireConn::Up.name(), "up");
}

#[test]
fn repeater_stores_reversed_facing() {
    let r = repeater(3, Facing::East, false, true);
    assert_eq!(render(&r), "minecraft:repeater[delay=3,facing=west,locked=true,powered=false]");
}

#[test]
fn wire_state_lists_every_side() {
    let w = wire_state(WireConn::Side, WireConn::Detached, WireConn::Up, WireConn::Side, 0);
    assert_eq!(render(&w), "minecraft:redstone_wire[power=0,north=up,south=side,east=none,west=side]");
}

#[test]
fn tone_block_states() {
    let t = harp(45);
    assert_eq!(render(&t.note_block_state().unwrap()), NOTE_12);
    assert_eq!(render(&t.instrument_block_state().unwrap()), DIRT);
    assert!(t.head_block_state().is_none());
    let banjo = Tone { instrument: Instrument::Banjo, key: 33 };
    assert_eq!(render(&banjo.instrument_block_state().unwrap()), "minecraft:hay_block[axis=y]");
    let low = harp(20);
    assert!(low.note_block_state().is_none());
    assert!(low.instrument_block_state().is_none());
    let custom = Tone { instrument: Instrument::Custom(1), key: 40 };
    assert!(custom.instrument_block_state().is_none());
}

#[test]
fn mob_heads_sound_from_above() {
    let head = Tone { instrument: Instrument::Imitate(ImitateInstrument::Creeper), key: 45 };
    assert!(head.instrument_block_state().is_none());
    assert_eq!(render(&head.head_block_state().unwrap()), "minecraft:creeper_head[]");
    assert_eq!(ImitateInstrument::Creeper.note_property(), "creeper");
    assert_eq!(ImitateInstrument::Creeper.block_resource(), "minecraft:creeper_head");
    assert_eq!(Instrument::Harp.note_property(), "harp");
    assert_eq!(Instrument::Custom(2).block_resource(), None);
}

#[test]
fn note_and_instrument_blocks_fall_back() {
    assert_eq!(render(&note_block(None, air())), AIR);
    assert_eq!(render(&inst_block(Some(harp(20)), chain_block())), CHAIN);
    assert_eq!(render(&inst_block(Some(harp(45)), chain_block())), DIRT);
}

#[test]
fn sand_needs_a_floor() {
    let sand = Tone { instrument: Instrument::SnareDrum, key: 40 };
    assert!(sand.instrument_block_state().unwrap().needs_floor());
    assert!(!chain_block().needs_floor());
}

// Layout wrappers
//
// ++++++++++++============++++++++++++============++++++++++++============

#[test]
fn template_places_main_line() {
    let t = cell(Some(harp(45)));
    assert_eq!(t.size(), BlockPos::new(5, 2, 3));
    assert_eq!(block(&t, 3, 0, 0).as_deref(), Some(CHAIN));
    assert_eq!(
        block(&t, 3, 1, 0).as_deref(),
        Some("minecraft:repeater[delay=4,facing=north,locked=false,powered=false]")
    );
    assert_eq!(block(&t, 3, 0, 1).as_deref(), Some(DIRT));
    assert_eq!(block(&t, 3, 1, 1).as_deref(), Some(NOTE_12));
    assert_eq!(block(&t, 4, 0, 1).as_deref(), Some(AIR));
    assert_eq!(block(&t, 0, 0, 0), None);
}

#[test]
fn template_branches_to_the_side() {
    let t = Template::from_notes(ScaleMode::Scale1, vec![harp(45)], vec![harp(46), harp(47)], false);
    assert_eq!(t.branch, Branch::Branched(Some(harp(46)), Some(harp(47))));
    // north-bound: local z = 2 - z; x counted from the east edge
    assert_eq!(block(&t, 3, 1, 1).as_deref(), Some("minecraft:sticky_piston[facing=west,extended=false]"));
    assert_eq!(block(&t, 2, 1, 1).as_deref(), Some("minecraft:redstone_block[]"));
    assert_eq!(
        block(&t, 0, 1, 1).as_deref(),
        Some("minecraft:note_block[note=13,powered=false,instrument=harp]")
    );
    assert_eq!(
        block(&t, 1, 1, 0).as_deref(),
        Some("minecraft:note_block[note=14,powered=false,instrument=harp]")
    );
}

#[test]
fn template_from_notes_keeps_third_main_only_unbranched() {
    let t = Template::from_notes(ScaleMode::Scale4, vec![harp(40), harp(41), harp(42)], vec![], true);
    assert_eq!(t.main, (Some(harp(40)), Some(harp(41))));
    assert_eq!(t.branch, Branch::Unbranched(Some(harp(42))));
    let t = Template::from_notes(ScaleMode::Scale4, vec![harp(40), harp(41), harp(42)], vec![harp(50)], true);
    assert_eq!(t.branch, Branch::Branched(Some(harp(50)), None));
}

#[test]
fn mask_accepts_bits_only() {
    assert!(Mask::new(BlockPos::new(1, 0, 1)).is_some());
    assert!(Mask::new(BlockPos::new(2, 0, 0)).is_none());
    let m = Axis::Elevation.unit();
    assert_eq!(m.into_inner(), BlockPos::new(0, 1, 0));
    assert_eq!(m.mul(BlockPos::new(4, 5, 6)), BlockPos::new(0, 5, 0));
    assert_eq!(m.scale(7), BlockPos::new(0, 7, 0));
}

#[test]
fn reverse_mirrors_selected_axes() {
    let r = Reverse::new(cell(Some(harp(45))), Mask::new(BlockPos::new(1, 0, 0)).unwrap());
    assert_eq!(r.size(), BlockPos::new(5, 2, 3));
    assert_eq!(block(&r, 1, 0, 0).as_deref(), Some(CHAIN));
    assert_eq!(block(&r, 1, 1, 1).as_deref(), Some(NOTE_12));
    assert_eq!(block(&r, 3, 0, 0), None);
}

#[test]
fn with_floor_adds_a_layer() {
    let f = WithFloor::new(cell(Some(harp(45))), true);
    assert_eq!(f.size(), BlockPos::new(5, 3, 3));
    assert_eq!(block(&f, 0, 0, 0).as_deref(), Some(FLOOR));
    assert_eq!(block(&f, 3, 2, 1).as_deref(), Some(NOTE_12));
    assert_eq!(block(&f, 3, 1, 0).as_deref(), Some(CHAIN));
    let g = WithFloor::new(cell(Some(harp(45))), false);
    assert_eq!(block(&g, 0, 0, 0), None);
    assert_eq!(block(&g, 3, 0, 0), None);
}

#[test]
fn clipped_shifts_and_shrinks() {
    let c = Clipped::new(cell(Some(harp(45))), BlockPos::new(3, 0, -1));
    assert_eq!(c.size(), BlockPos::new(2, 2, 2));
    assert_eq!(block(&c, 0, 0, 0).as_deref(), Some(CHAIN));
    assert_eq!(block(&c, 0, 1, 1).as_deref(), Some(NOTE_12));
}

#[test]
fn overlaid_prefers_the_first() {
    let o = Overlaid::new(
        BlockPos::new(0, 0, 0),
        cell(Some(harp(45))),
        BlockPos::new(0, 0, 0),
        cell(Some(harp(46))),
        BlockPos::new(5, 2, 3),
    );
    assert_eq!(block(&o, 3, 1, 1).as_deref(), Some(NOTE_12));
    let shifted = Overlaid::new(
        BlockPos::new(0, 0, 0),
        cell(Some(harp(45))),
        BlockPos::new(2, 0, 0),
        cell(Some(harp(46))),
        BlockPos::new(7, 2, 3),
    );
    assert_eq!(
        block(&shifted, 5, 1, 1).as_deref(),
        Some("minecraft:note_block[note=13,powered=false,instrument=harp]")
    );
    assert_eq!(block(&shifted, 6, 0, 0), None);
}

#[test]
fn arranged_places_bands_with_gaps() {
    let a = Arranged::new(vec![cell(Some(harp(45))), cell(Some(harp(46)))], Axis::Easting, 1);
    assert_eq!(a.size(), BlockPos::new(11, 2, 3));
    assert_eq!(block(&a, 3, 1, 1).as_deref(), Some(NOTE_12));
    assert_eq!(block(&a, 5, 1, 1), None);
    assert_eq!(
        block(&a, 9, 1, 1).as_deref(),
        Some("minecraft:note_block[note=13,powered=false,instrument=harp]")
    );
}

#[test]
fn edge_arranged_aligns_far_edges() {
    let full = Clipped::new(cell(Some(harp(45))), BlockPos::new(0, 0, 0));
    let short = Clipped::new(cell(Some(harp(46))), BlockPos::new(0, -1, 0));
    let e = EdgeArranged::new(vec![full, short], Axis::Easting, 0, Mask::new(BlockPos::new(0, 1, 0)).unwrap());
    assert_eq!(e.size(), BlockPos::new(10, 2, 3));
    // the short layout's only layer sits at the top
    assert_eq!(block(&e, 8, 1, 0).as_deref(), Some(CHAIN));
    assert_eq!(block(&e, 8, 0, 0), None);
    assert_eq!(block(&e, 3, 1, 1).as_deref(), Some(NOTE_12));
}

#[test]
fn evenly_arranged_places_items_on_a_lattice() {
    let e = EvenlyArranged::new(vec![cell(Some(harp(45))), cell(Some(harp(46)))], BlockPos::new(6, 0, 0));
    assert_eq!(e.size(), BlockPos::new(11, 2, 3));
    assert_eq!(block(&e, 3, 1, 1).as_deref(), Some(NOTE_12));
    assert_eq!(block(&e, 5, 1, 1), None);
    assert_eq!(
        block(&e, 9, 1, 1).as_deref(),
        Some("minecraft:note_block[note=13,powered=false,instrument=harp]")
    );
}

#[test]
fn evenly_arranged_negative_pitch_runs_backwards() {
    let e = EvenlyArranged::new(vec![cell(Some(harp(45))), cell(Some(harp(46)))], BlockPos::new(-6, 0, 0));
    assert_eq!(e.size(), BlockPos::new(11, 2, 3));
    assert_eq!(block(&e, 9, 1, 1).as_deref(), Some(NOTE_12));
    assert_eq!(
        block(&e, 3, 1, 1).as_deref(),
        Some("minecraft:note_block[note=13,powered=false,instrument=harp]")
    );
}

#[test]
fn evenly_arranged_later_items_win_overlaps() {
    let e = EvenlyArranged::new(vec![cell(Some(harp(45))), cell(Some(harp(46)))], BlockPos::new(0, 0, 1));
    assert_eq!(e.size(), BlockPos::new(5, 2, 4));
    // item 1 covers z = 1..4; at z = 1 its chain row wins over item 0's note row
    assert_eq!(block(&e, 3, 1, 1).as_deref(), Some("minecraft:repeater[delay=4,facing=north,locked=false,powered=false]"));
    assert_eq!(block(&e, 3, 1, 0).as_deref(), Some("minecraft:repeater[delay=4,facing=north,locked=false,powered=false]"));
}

#[test]
fn region_blocks_fill_with_air() {
    let t = cell(Some(harp(45)));
    let grid = region_blocks(&t);
    assert_eq!(grid.len(), 2);
    assert_eq!(grid[0].len(), 3);
    assert_eq!(grid[0][0].len(), 5);
    assert_eq!(render(&grid[0][0][3]), CHAIN);
    assert_eq!(render(&grid[0][0][0]), AIR);
    assert_eq!(render(&grid[1][1][3]), NOTE_12);
}

#[test]
fn floor_mode_full_flag() {
    assert!(Floor::Full.full());
    assert!(!Floor::Gravity.full());
    assert!(!Floor::Bare.full());
}

// Compact
//
// ++++++++++++============++++++++++++============++++++++++++============

#[test]
fn tiles_from_delays_and_notes() {
    assert_eq!(Tile::stem(0, true), Tile::TurningLink);
    assert_eq!(Tile::stem(3, false), Tile::Delay(3));
    let mut notes = vec![harp(40), harp(41), harp(42), harp(43)];
    let t = Tile::canopy(&mut notes, false, true);
    assert_eq!(t, Tile::Terminal(Some(harp(43)), Some(harp(42)), Some(harp(41))));
    assert_eq!(notes, vec![harp(40)]);
    let t = Tile::canopy(&mut notes, true, false);
    assert_eq!(t, Tile::TurningNode(Some(harp(40))));
    assert!(notes.is_empty());
}

#[test]
fn tile_blocks() {
    assert_eq!(
        Tile::Delay(2).get_block(1, Facing::South).map(|b| render(&b)).as_deref(),
        Some("minecraft:repeater[delay=2,facing=north,locked=false,powered=false]")
    );
    assert_eq!(Tile::Link.get_block(1, Facing::East).map(|b| render(&b)).as_deref(), Some(
        "minecraft:redstone_wire[power=0,north=side,south=side,east=side,west=side]"
    ));
    assert_eq!(Tile::Node(None, None).get_block(5, Facing::East).map(|b| render(&b)), None);
}

#[test]
fn compact_single_note() {
    let c = CompactLayout::new(vec![(0, vec![harp(45)])], None, None);
    assert_eq!(c.size(), BlockPos::new(3, 3, 2));
    assert_eq!(
        block(&c, 0, 1, 0).as_deref(),
        Some("minecraft:repeater[delay=1,facing=west,locked=false,powered=false]")
    );
    assert_eq!(block(&c, 0, 0, 0).as_deref(), Some(CHAIN));
    assert_eq!(block(&c, 1, 1, 0).as_deref(), Some(NOTE_12));
    assert_eq!(block(&c, 1, 0, 0).as_deref(), Some(DIRT));
    assert_eq!(block(&c, 1, 1, 1), None);
}

#[test]
fn split_even_odd_by_redstone_tick() {
    let track = vec![(0, vec![harp(40)]), (1, vec![harp(41)]), (2, vec![harp(42)]), (3, vec![harp(43)])];
    let (even, odd) = split_even_odd(&track);
    assert_eq!(even, vec![(0, vec![harp(40)]), (1, vec![harp(42)])]);
    assert_eq!(odd, vec![(0, vec![harp(41)]), (1, vec![harp(43)])]);
}

#[test]
fn split_even_odd_orders_and_joins() {
    let track = vec![(4, vec![harp(40)]), (0, vec![harp(41)]), (4, vec![harp(42)])];
    let (even, odd) = split_even_odd(&track);
    assert_eq!(even, vec![(0, vec![harp(41)]), (2, vec![harp(40), harp(42)])]);
    assert!(odd.is_empty());
}

#[test]
fn multi_compact_places_lines_side_by_side() {
    let track = vec![(0, vec![harp(45)]), (1, vec![harp(45)])];
    let m = MultiCompactLayout::new(vec![(track.clone(), None)], None, 0);
    assert_eq!(m.size(), BlockPos::new(6, 3, 2));
    assert_eq!(block(&m, 4, 1, 0).as_deref(), Some(NOTE_12));
    let spaced = MultiCompactLayout::new(vec![(track, None)], None, 2);
    assert_eq!(spaced.size(), BlockPos::new(8, 3, 2));
    assert_eq!(block(&spaced, 6, 1, 0).as_deref(), Some(NOTE_12));
    let single = MultiCompactLayout::new(vec![(vec![(0, vec![harp(45)])], Some(4))], None, 0);
    assert_eq!(single.size(), BlockPos::new(3, 3, 2));
}

// Linear
//
// ++++++++++++============++++++++++++============++++++++++++============

#[test]
fn scale_mode_picks_coarsest_period() {
    assert_eq!(ScaleMode::new(&vec![0, 4, 8]), ScaleMode::Scale4);
    assert_eq!(ScaleMode::new(&vec![0, 3, 6]), ScaleMode::Scale3);
    assert_eq!(ScaleMode::new(&vec![0, 2, 6]), ScaleMode::Scale2);
    assert_eq!(ScaleMode::new(&vec![0, 1]), ScaleMode::Scale1);
    assert_eq!(ScaleMode::new(&vec![]), ScaleMode::Scale4);
    let tracks = vec![vec![(0, harp(40)), (6, harp(40))], vec![(3, harp(41))]];
    assert_eq!(ScaleMode::from_tracks(&tracks), ScaleMode::Scale3);
}

#[test]
fn scale_mode_widths_and_slots() {
    assert_eq!(ScaleMode::Scale4.scale(), 4);
    assert_eq!(ScaleMode::Scale3.scale(), 3);
    assert_eq!(ScaleMode::Scale2.width(), 5);
    assert_eq!(ScaleMode::Scale1.width(), 6);
    assert_eq!(ScaleMode::Scale4.cell_slot(12), (1, true));
    assert_eq!(ScaleMode::Scale4.cell_slot(8), (1, false));
    assert_eq!(ScaleMode::Scale1.cell_slot(0), (1, false));
    assert_eq!(ScaleMode::Scale1.cell_slot(1), (0, true));
}

#[test]
fn linear_lane_for_one_note() {
    let notes = vec![(0, harp(45))];
    let lanes = LinearLayout::new(&notes, ScaleMode::Scale4, 1, None, 0);
    assert_eq!(lanes.len(), 1);
    let lane = &lanes[0];
    assert_eq!(lane.size(), BlockPos::new(6, 2, 4));
    assert_eq!(block(lane, 4, 1, 2).as_deref(), Some(NOTE_12));
    assert_eq!(block(lane, 4, 0, 2).as_deref(), Some(DIRT));
}

#[test]
fn linear_overflow_notes_open_more_lanes() {
    let notes = vec![(0, harp(40)), (0, harp(41)), (0, harp(42)), (0, harp(43))];
    let lanes = LinearLayout::new(&notes, ScaleMode::Scale4, 1, None, 0);
    assert_eq!(lanes.len(), 2);
    let none: Vec<(u32, Tone)> = vec![];
    assert!(LinearLayout::new(&none, ScaleMode::Scale4, 8, None, 0).is_empty());
}

#[test]
fn linear_rows_wrap_and_zigzag() {
    // ticks 0, 8, 16 at scale 4: cells 0, 1, 2; rows of two cells
    let notes = vec![(0, harp(45)), (8, harp(45)), (16, harp(45))];
    let lanes = LinearLayout::new(&notes, ScaleMode::Scale4, 17, Some(2), 0);
    assert_eq!(lanes.len(), 1);
    // two rows, 4 apart along x; the first row is 2 * 2 + 2 deep
    assert_eq!(lanes[0].size(), BlockPos::new(10, 2, 6));
}

#[test]
fn multi_linear_lanes_side_by_side() {
    let tracks = vec![vec![(0, harp(45))], vec![(0, harp(46))]];
    let m = MultiLinearLayout::new(&tracks, 1, 1);
    assert_eq!(m.size(), BlockPos::new(12, 2, 4));
    assert_eq!(block(&m, 4, 1, 2).as_deref(), Some(NOTE_12));
    assert_eq!(
        block(&m, 10, 1, 2).as_deref(),
        Some("minecraft:note_block[note=13,powered=false,instrument=harp]")
    );
}

#[test]
fn stacked_linear_lanes_on_floors() {
    let tracks = vec![vec![(0, harp(45))], vec![(0, harp(46))]];
    let s = StackedLinearLayout::new(&tracks, None, 0, true, 1);
    assert_eq!(s.size(), BlockPos::new(6, 7, 4));
    assert_eq!(block(&s, 0, 0, 0).as_deref(), Some(FLOOR));
    assert_eq!(block(&s, 4, 2, 2).as_deref(), Some(NOTE_12));
    assert_eq!(block(&s, 0, 4, 0).as_deref(), Some(FLOOR));
    assert_eq!(
        block(&s, 4, 6, 2).as_deref(),
        Some("minecraft:note_block[note=13,powered=false,instrument=harp]")
    );
}

#[test]
fn compact_fit_check_rejects_bad_settings() {
    let track = vec![(0, vec![harp(45)])];
    assert!(compact_tracks_fit_check(&vec![(track.clone(), None)], Some(4), 0));
    assert!(!compact_tracks_fit_check(&vec![(track.clone(), Some(0))], None, 0));
    assert!(!compact_tracks_fit_check(&vec![(track.clone(), None)], Some(0), 0));
    assert!(!compact_tracks_fit_check(&vec![(track, None)], None, u32::MAX));
}

#[test]
fn stacked_fit_check_follows_the_wrap() {
    let tracks = vec![vec![(0, harp(45)), (8, harp(45))]];
    assert!(stacked_fit_check(&tracks, 9, None, 0));
    assert!(stacked_fit_check(&tracks, 9, None, 0x4000_0000));
    assert!(!stacked_fit_check(&tracks, 9, Some(1), 0x4000_0000));
    assert!(stacked_fit_check(&tracks, 9, Some(1), 0x3fff_fff0));
    assert!(!stacked_fit_check(&tracks, 9, None, 0x7fff_fffa));
    assert!(!stacked_fit_check(&vec![vec![(u32::MAX - 2, harp(45))]], 1, None, 0));
    assert!(stacked_fit_check(&vec![], 1, None, 0));
}

#[test]
fn side_by_side_fit_check_counts_lanes() {
    let one_lane = vec![vec![(0, harp(45))]];
    assert!(side_by_side_fit_check(&one_lane, 1, 0));
    assert!(side_by_side_fit_check(&one_lane, 1, 0x7fff_fff0));
    assert!(!side_by_side_fit_check(&one_lane, 1, u32::MAX));
    let two_lanes = vec![vec![(0, harp(45)), (0, harp(46)), (0, harp(47)), (0, harp(48))]];
    assert!(side_by_side_fit_check(&two_lanes, 1, 0x7fff_ffe0));
    assert!(!side_by_side_fit_check(&two_lanes, 1, 0x7fff_fff6));
    assert!(!side_by_side_fit_check(&vec![vec![(u32::MAX - 2, harp(45))]], 1, 0));
    assert!(side_by_side_fit_check(&vec![], 1, 0));
}

#[test]
fn cells_file_notes_by_slot() {
    // scale 4: tick 4 is the branch line of cell 0, tick 8 the main line of cell 1
    let notes = vec![(0, harp(40)), (4, harp(41)), (8, harp(42)), (0, harp(43))];
    let mut cells = Cells::new(&notes, ScaleMode::Scale4, 3);
    assert_eq!(cells.len(), 3);
    assert!(cells.has_notes());
    let row = Row::new(&mut cells, 0, 2, ScaleMode::Scale4, 6, false, true);
    assert_eq!(row.size(), BlockPos::new(6, 2, 6));
    assert!(!cells.has_notes());
}

#[test]
fn rows_after_the_first_turn_at_their_leading_edge() {
    let notes = vec![(0, harp(45))];
    let mut cells = Cells::new(&notes, ScaleMode::Scale4, 1);
    let row = Row::new(&mut cells, 0, 1, ScaleMode::Scale4, 6, true, true);
    assert_eq!(
        block(&row, 4, 1, 0).as_deref(),
        Some("minecraft:redstone_wire[power=0,north=none,south=side,east=none,west=side]")
    );
    assert_eq!(
        block(&row, 0, 1, 0).as_deref(),
        Some("minecraft:redstone_wire[power=0,north=none,south=none,east=side,west=side]")
    );
    assert_eq!(block(&row, 0, 0, 0).as_deref(), Some(CHAIN));
    assert_eq!(block(&row, 5, 0, 0), None);
    assert_eq!(block(&row, 4, 1, 2).as_deref(), Some(NOTE_12));
}

#[test]
fn layer_gaps_split_tracks() {
    let notes = vec![(0, 0, harp(45)), (0, 1, harp(46)), (4, 3, harp(47)), (2, 0, harp(48))];
    let tracks = split_by_layer_gaps(&notes);
    assert_eq!(
        tracks,
        vec![vec![(0, harp(45)), (0, harp(46)), (2, harp(48))], vec![(4, harp(47))]]
    );
    assert!(split_by_layer_gaps(&vec![]).is_empty());
}

#[test]
fn linear_tracks_measure_the_song() {
    let notes = vec![(7, 2, harp(45)), (3, 0, harp(46))];
    let (tracks, length) = linear_tracks(&notes);
    assert_eq!(length, 8);
    assert_eq!(tracks, vec![vec![(3, harp(46))], vec![(7, harp(45))]]);
    assert_eq!(linear_tracks(&vec![]).1, 0);
}

#[test]
fn build_linear_picks_stacked_or_side_by_side() {
    let tracks = vec![vec![(0, harp(45))], vec![(0, harp(46))]];
    match build_linear(&tracks, 0, 1, true, 1) {
        Some(LinearLayouts::SideBySide(m)) => assert_eq!(m.size(), BlockPos::new(12, 2, 4)),
        _ => panic!("expected lanes side by side"),
    }
    match build_linear(&tracks, 2, 0, true, 1) {
        Some(LinearLayouts::Stacked(s)) => assert_eq!(s.size(), BlockPos::new(6, 7, 4)),
        _ => panic!("expected stacked lanes"),
    }
    assert!(build_linear(&tracks, 0, u32::MAX, true, 1).is_none());
    assert!(build_linear(&tracks, 2, 0x7fff_fffa, true, 1).is_none());
}

fn total_delay(tiles: &[Tile]) -> u32 {
    tiles
        .iter()
        .map(|t| match t {
            Tile::Delay(d) | Tile::TurningDelay(d) => *d,
            _ => 0,
        })
        .sum()
}

#[test]
fn track_keeps_chord_timing() {
    let notes = vec![(0, vec![harp(45)]), (9, vec![harp(46), harp(47), harp(48)]), (10, vec![harp(49)])];
    let track = Track::new(notes.clone(), None, None);
    assert_eq!(total_delay(track.tiles()), 11);
    let track = Track::new(notes.clone(), Some(2), Some(3));
    assert_eq!(total_delay(track.tiles()), 11);
    let first_two = Track::new(notes[..2].to_vec(), Some(3), None);
    assert_eq!(total_delay(first_two.tiles()), 10);
    assert!(track.tiles().iter().all(|t| match t {
        Tile::Delay(d) | Tile::TurningDelay(d) => (1..=2).contains(d),
        _ => true,
    }));
}

#[test]
fn tones_of_groups_reads_indices() {
    let notes = vec![(0, 0, harp(45)), (4, 2, harp(46)), (1, 1, harp(47))];
    let groups = vec![vec![(1, 0, 2), (0, 5, 0)], vec![], vec![(4, 0, 1)]];
    assert_eq!(
        tones_of_groups(&notes, &groups),
        vec![vec![(1, harp(47)), (0, harp(45))], vec![], vec![(4, harp(46))]]
    );
}

#[test]
fn group_by_tick_files_chords_in_order() {
    let notes = vec![(4, harp(45)), (0, harp(46)), (4, harp(47)), (2, harp(48))];
    assert_eq!(
        group_by_tick(&notes),
        vec![(0, vec![harp(46)]), (2, vec![harp(48)]), (4, vec![harp(45), harp(47)])]
    );
    assert!(group_by_tick(&vec![]).is_empty());
}
