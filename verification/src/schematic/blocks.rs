//! Block states projected from notes and instruments.

use vstd::prelude::*;
use crate::note::{Tone, Instrument, ImitateInstrument, minecraft_note, minecraft_note_spec};

verus! {

/// A property value of a block state.
#[derive(Clone, Copy, Debug)]
pub enum Prop {
    /// A textual value.
    Text(&'static str),
    /// A numeric value, written in decimal.
    Num(u32),
}

/// A block state: a resource name and its properties.
#[derive(Clone, Debug)]
pub struct BlockState {
    pub name: &'static str,
    pub properties: Vec<(&'static str, Prop)>,
}

/// The mathematical value of a block state.
pub type BlockView = (&'static str, Seq<(&'static str, Prop)>);

impl View for BlockState {
    type V = BlockView;

    open spec fn view(&self) -> BlockView {
        (self.name, self.properties@)
    }
}

/// The value of an optional block state.
pub open spec fn opt_view(b: Option<BlockState>) -> Option<BlockView> {
    match b {
        Some(s) => Some(s@),
        None => None,
    }
}

/// A block state with no properties.
pub open spec fn plain_spec(name: &'static str) -> BlockView {
    (name, seq![])
}

/// A block state with no properties.
pub fn plain(name: &'static str) -> (r: BlockState)
    ensures
        r@ == plain_spec(name),
{
    BlockState { name, properties: Vec::new() }
}

pub open spec fn air_spec() -> BlockView {
    ("minecraft:air", seq![])
}

/// Air: the block state of empty space.
pub fn air() -> (r: BlockState)
    ensures
        r@ == air_spec(),
{
    BlockState { name: "minecraft:air", properties: Vec::new() }
}

pub open spec fn floor_block_spec() -> BlockView {
    ("minecraft:gray_stained_glass", seq![])
}

/// The floor under a layout.
pub fn floor_block() -> (r: BlockState)
    ensures
        r@ == floor_block_spec(),
{
    BlockState { name: "minecraft:gray_stained_glass", properties: Vec::new() }
}

pub open spec fn chain_block_spec() -> BlockView {
    ("minecraft:smooth_stone", seq![])
}

/// The block that carries the signal chain.
pub fn chain_block() -> (r: BlockState)
    ensures
        r@ == chain_block_spec(),
{
    BlockState { name: "minecraft:smooth_stone", properties: Vec::new() }
}

/// In-game facing of a directional block.
#[derive(Clone, Copy, Debug, PartialEq, Eq, Structural)]
pub enum Facing {
    East,
    West,
    North,
    South,
}

impl Facing {
    pub open spec fn invert_spec(self) -> Facing {
        match self {
            Facing::East => Facing::West,
            Facing::West => Facing::East,
            Facing::North => Facing::South,
            Facing::South => Facing::North,
        }
    }

    /// The opposite facing.
    pub fn invert(self) -> (r: Self)
        ensures
            r == self.invert_spec(),
    {
        match self {
            Facing::East => Facing::West,
            Facing::West => Facing::East,
            Facing::North => Facing::South,
            Facing::South => Facing::North,
        }
    }

    pub open spec fn name_spec(self) -> &'static str {
        match self {
            Facing::East => "east",
            Facing::West => "west",
            Facing::North => "north",
            Facing::South => "south",
        }
    }

    /// Property value of this facing.
    pub fn name(self) -> (r: &'static str)
        ensures
            r == self.name_spec(),
    {
        match self {
            Facing::East => "east",
            Facing::West => "west",
            Facing::North => "north",
            Facing::South => "south",
        }
    }
}

pub open spec fn repeater_spec(delay: u32, facing: Facing, powered: bool, locked: bool) -> BlockView {
    (
        "minecraft:repeater",
        seq![
            ("delay", Prop::Num(delay)),
            ("facing", Prop::Text(facing.invert_spec().name_spec())),
            ("locked", Prop::Text(if locked { "true" } else { "false" })),
            ("powered", Prop::Text(if powered { "true" } else { "false" })),
        ],
    )
}

/// Repeater with delay, facing, powered and locked state; the stored
/// facing property is the reverse of the in-game facing.
pub fn repeater(delay: u32, facing: Facing, powered: bool, locked: bool) -> (r: BlockState)
    ensures
        r@ == repeater_spec(delay, facing, powered, locked),
{
    let powered = if powered { "true" } else { "false" };
    let locked = if locked { "true" } else { "false" };
    let properties = vec![
        ("delay", Prop::Num(delay)),
        ("facing", Prop::Text(facing.invert().name())),
        ("locked", Prop::Text(locked)),
        ("powered", Prop::Text(powered)),
    ];
    BlockState { name: "minecraft:repeater", properties }
}

// Tone block states
//
// ++++++++++++============++++++++++++============++++++++++++============

/// Whether this tone is renderable: a built-in instrument with a Minecraft note.
pub open spec fn is_valid_spec(tone: Tone) -> bool {
    !(tone.instrument is Custom) && minecraft_note_spec(tone.key) is Some
}

fn is_valid(tone: &Tone) -> (r: bool)
    ensures
        r == is_valid_spec(*tone),
{
    let custom = match tone.instrument {
        Instrument::Custom(_) => true,
        _ => false,
    };
    !custom && minecraft_note(tone.key).is_some()
}

pub open spec fn note_block_state_spec(tone: Tone) -> Option<BlockView> {
    match minecraft_note_spec(tone.key) {
        Some(note) => Some(
            (
                "minecraft:note_block",
                seq![
                    ("note", Prop::Num(note as u32)),
                    ("powered", Prop::Text("false")),
                    ("instrument", Prop::Text(instrument_note_property_spec(tone.instrument))),
                ],
            ),
        ),
        None => None,
    }
}

pub open spec fn instrument_block_state_spec(tone: Tone) -> Option<BlockView> {
    if !is_valid_spec(tone) || tone.instrument is Imitate {
        None
    } else {
        Some(
            (
                instrument_block_resource_spec(tone.instrument).unwrap(),
                if tone.instrument == Instrument::Banjo {
                    seq![("axis", Prop::Text("y"))]
                } else {
                    seq![]
                },
            ),
        )
    }
}

pub open spec fn head_block_state_spec(tone: Tone) -> Option<BlockView> {
    if !is_valid_spec(tone) || !(tone.instrument is Imitate) {
        None
    } else {
        Some((instrument_block_resource_spec(tone.instrument).unwrap(), seq![]))
    }
}

/// Block states projected from a tone.
pub trait ToneBlocks {
    /// The note block state for this tone.
    fn note_block_state(&self) -> Option<BlockState>;

    /// The block under the note block for this instrument's sound.
    fn instrument_block_state(&self) -> Option<BlockState>;

    /// The mob head block for this tone, if its instrument is a mob head.
    fn head_block_state(&self) -> Option<BlockState>;
}

impl ToneBlocks for Tone {
    fn note_block_state(&self) -> (r: Option<BlockState>)
        ensures
            opt_view(r) == note_block_state_spec(*self),
    {
        let note = match minecraft_note(self.key) {
            Some(n) => n,
            None => return None,
        };
        let instr = self.instrument.note_property();
        let properties = vec![
            ("note", Prop::Num(note as u32)),
            ("powered", Prop::Text("false")),
            ("instrument", Prop::Text(instr)),
        ];
        Some(BlockState { name: "minecraft:note_block", properties })
    }

    fn instrument_block_state(&self) -> (r: Option<BlockState>)
        ensures
            opt_view(r) == instrument_block_state_spec(*self),
    {
        let imitate = match self.instrument {
            Instrument::Imitate(_) => true,
            _ => false,
        };
        if !is_valid(self) || imitate {
            return None;
        }
        let block = match self.instrument.block_resource() {
            Some(b) => b,
            None => return None,
        };
        let properties = match self.instrument {
            Instrument::Banjo => vec![("axis", Prop::Text("y"))],
            _ => Vec::new(),
        };
        Some(BlockState { name: block, properties })
    }

    fn head_block_state(&self) -> (r: Option<BlockState>)
        ensures
            opt_view(r) == head_block_state_spec(*self),
    {
        let imitate = match self.instrument {
            Instrument::Imitate(_) => true,
            _ => false,
        };
        if !is_valid(self) || !imitate {
            return None;
        }
        let block = match self.instrument.block_resource() {
            Some(b) => b,
            None => return None,
        };
        Some(BlockState { name: block, properties: Vec::new() })
    }
}

// Instrument block states
//
// ++++++++++++============++++++++++++============++++++++++++============

pub open spec fn instrument_note_property_spec(i: Instrument) -> &'static str {
    match i {
        Instrument::Harp => "harp",
        Instrument::DoubleBass => "bass",
        Instrument::BassDrum => "basedrum",
        Instrument::SnareDrum => "snare",
        Instrument::Click => "hat",
        Instrument::Guitar => "guitar",
        Instrument::Flute => "flute",
        Instrument::Bell => "bell",
        Instrument::Chime => "chime",
        Instrument::Xylophone => "xylophone",
        Instrument::IronXylophone => "iron_xylophone",
        Instrument::CowBell => "cow_bell",
        Instrument::Didgeridoo => "didgeridoo",
        Instrument::Bit => "bit",
        Instrument::Banjo => "banjo",
        Instrument::Pling => "pling",
        Instrument::Trumpet => "trumpet",
        Instrument::TrumpetExposed => "trumpet_exposed",
        Instrument::TrumpetWeathered => "trumpet_weathered",
        Instrument::TrumpetOxidized => "trumpet_oxidized",
        Instrument::Imitate(m) => imitate_note_property_spec(m),
        Instrument::Custom(_) => "custom",
    }
}

pub open spec fn instrument_block_resource_spec(i: Instrument) -> Option<&'static str> {
    match i {
        Instrument::Harp => Some("minecraft:dirt"),
        Instrument::DoubleBass => Some("minecraft:oak_planks"),
        Instrument::BassDrum => Some("minecraft:stone"),
        Instrument::SnareDrum => Some("minecraft:sand"),
        Instrument::Click => Some("minecraft:glass"),
        Instrument::Guitar => Some("minecraft:white_wool"),
        Instrument::Flute => Some("minecraft:clay"),
        Instrument::Bell => Some("minecraft:gold_block"),
        Instrument::Chime => Some("minecraft:packed_ice"),
        Instrument::Xylophone => Some("minecraft:bone_block"),
        Instrument::IronXylophone => Some("minecraft:iron_block"),
        Instrument::CowBell => Some("minecraft:soul_sand"),
        Instrument::Didgeridoo => Some("minecraft:pumpkin"),
        Instrument::Bit => Some("minecraft:emerald_block"),
        Instrument::Banjo => Some("minecraft:hay_block"),
        Instrument::Pling => Some("minecraft:glowstone"),
        Instrument::Trumpet => Some("minecraft:waxed_copper_block"),
        Instrument::TrumpetExposed => Some("minecraft:waxed_exposed_copper"),
        Instrument::TrumpetWeathered => Some("minecraft:waxed_weathered_copper"),
        Instrument::TrumpetOxidized => Some("minecraft:waxed_oxidized_copper"),
        Instrument::Imitate(m) => Some(imitate_block_resource_spec(m)),
        Instrument::Custom(_) => None,
    }
}

/// Block states projected from an instrument.
pub trait InstrumentBlocks {
    /// The instrument property of the note block state.
    fn note_property(&self) -> &'static str;

    /// The block resource name for this instrument.
    fn block_resource(&self) -> Option<&'static str>;

    /// The block under the note block for this instrument's sound.
    fn instrument_block(&self) -> Option<BlockState>;

    /// The mob head block for this instrument, if it is a mob head.
    fn head_block(&self) -> Option<BlockState>;
}

impl InstrumentBlocks for Instrument {
    fn note_property(&self) -> (r: &'static str)
        ensures
            r == instrument_note_property_spec(*self),
    {
        match self {
            Instrument::Harp => "harp",
            Instrument::DoubleBass => "bass",
            Instrument::BassDrum => "basedrum",
            Instrument::SnareDrum => "snare",
            Instrument::Click => "hat",
            Instrument::Guitar => "guitar",
            Instrument::Flute => "flute",
            Instrument::Bell => "bell",
            Instrument::Chime => "chime",
            Instrument::Xylophone => "xylophone",
            Instrument::IronXylophone => "iron_xylophone",
            Instrument::CowBell => "cow_bell",
            Instrument::Didgeridoo => "didgeridoo",
            Instrument::Bit => "bit",
            Instrument::Banjo => "banjo",
            Instrument::Pling => "pling",
            Instrument::Trumpet => "trumpet",
            Instrument::TrumpetExposed => "trumpet_exposed",
            Instrument::TrumpetWeathered => "trumpet_weathered",
            Instrument::TrumpetOxidized => "trumpet_oxidized",
            Instrument::Imitate(m) => m.note_property(),
            Instrument::Custom(_) => "custom",
        }
    }

    fn block_resource(&self) -> (r: Option<&'static str>)
        ensures
            r == instrument_block_resource_spec(*self),
    {
        match self {
            Instrument::Harp => Some("minecraft:dirt"),
            Instrument::DoubleBass => Some("minecraft:oak_planks"),
            Instrument::BassDrum => Some("minecraft:stone"),
            Instrument::SnareDrum => Some("minecraft:sand"),
            Instrument::Click => Some("minecraft:glass"),
            Instrument::Guitar => Some("minecraft:white_wool"),
            Instrument::Flute => Some("minecraft:clay"),
            Instrument::Bell => Some("minecraft:gold_block"),
            Instrument::Chime => Some("minecraft:packed_ice"),
            Instrument::Xylophone => Some("minecraft:bone_block"),
            Instrument::IronXylophone => Some("minecraft:iron_block"),
            Instrument::CowBell => Some("minecraft:soul_sand"),
            Instrument::Didgeridoo => Some("minecraft:pumpkin"),
            Instrument::Bit => Some("minecraft:emerald_block"),
            Instrument::Banjo => Some("minecraft:hay_block"),
            Instrument::Pling => Some("minecraft:glowstone"),
            Instrument::Trumpet => Some("minecraft:waxed_copper_block"),
            Instrument::TrumpetExposed => Some("minecraft:waxed_exposed_copper"),
            Instrument::TrumpetWeathered => Some("minecraft:waxed_weathered_copper"),
            Instrument::TrumpetOxidized => Some("minecraft:waxed_oxidized_copper"),
            Instrument::Imitate(m) => Some(m.block_resource()),
            Instrument::Custom(_) => None,
        }
    }

    fn instrument_block(&self) -> (r: Option<BlockState>)
        ensures
            opt_view(r) == (if *self is Imitate {
                None
            } else {
                match instrument_block_resource_spec(*self) {
                    Some(b) => Some(plain_spec(b)),
                    None => None,
                }
            }),
    {
        if let Instrument::Imitate(_) = self {
            return None;
        }
        match self.block_resource() {
            Some(b) => Some(plain(b)),
            None => None,
        }
    }

    fn head_block(&self) -> (r: Option<BlockState>)
        ensures
            opt_view(r) == (if !(*self is Imitate) {
                None
            } else {
                match instrument_block_resource_spec(*self) {
                    Some(b) => Some(plain_spec(b)),
                    None => None,
                }
            }),
    {
        let imitate = match self {
            Instrument::Imitate(_) => true,
            _ => false,
        };
        if !imitate {
            return None;
        }
        match self.block_resource() {
            Some(b) => Some(plain(b)),
            None => None,
        }
    }
}

// ImitateInstrument block states
//
// ++++++++++++============++++++++++++============++++++++++++============

pub open spec fn imitate_note_property_spec(m: ImitateInstrument) -> &'static str {
    match m {
        ImitateInstrument::Creeper => "creeper",
        ImitateInstrument::Skeleton => "skeleton",
        ImitateInstrument::Dragon => "ender_dragon",
        ImitateInstrument::WitherSkeleton => "wither_skeleton",
        ImitateInstrument::Piglin => "piglin",
        ImitateInstrument::Zombie => "zombie",
        ImitateInstrument::CustomHead => "custom_head",
    }
}

pub open spec fn imitate_block_resource_spec(m: ImitateInstrument) -> &'static str {
    match m {
        ImitateInstrument::Creeper => "minecraft:creeper_head",
        ImitateInstrument::Skeleton => "minecraft:skeleton_skull",
        ImitateInstrument::Dragon => "minecraft:dragon_head",
        ImitateInstrument::WitherSkeleton => "minecraft:wither_skeleton_skull",
        ImitateInstrument::Piglin => "minecraft:piglin_head",
        ImitateInstrument::Zombie => "minecraft:zombie_head",
        ImitateInstrument::CustomHead => "minecraft:player_head",
    }
}

/// Block states projected from a mob head sound.
pub trait ImitateBlocks {
    /// The instrument property of the note block state.
    fn note_property(self) -> &'static str;

    /// The block resource name of this mob head.
    fn block_resource(self) -> &'static str;
}

impl ImitateBlocks for ImitateInstrument {
    fn note_property(self) -> (r: &'static str)
        ensures
            r == imitate_note_property_spec(self),
    {
        match self {
            ImitateInstrument::Creeper => "creeper",
            ImitateInstrument::Skeleton => "skeleton",
            ImitateInstrument::Dragon => "ender_dragon",
            ImitateInstrument::WitherSkeleton => "wither_skeleton",
            ImitateInstrument::Piglin => "piglin",
            ImitateInstrument::Zombie => "zombie",
            ImitateInstrument::CustomHead => "custom_head",
        }
    }

    fn block_resource(self) -> (r: &'static str)
        ensures
            r == imitate_block_resource_spec(self),
    {
        match self {
            ImitateInstrument::Creeper => "minecraft:creeper_head",
            ImitateInstrument::Skeleton => "minecraft:skeleton_skull",
            ImitateInstrument::Dragon => "minecraft:dragon_head",
            ImitateInstrument::WitherSkeleton => "minecraft:wither_skeleton_skull",
            ImitateInstrument::Piglin => "minecraft:piglin_head",
            ImitateInstrument::Zombie => "minecraft:zombie_head",
            ImitateInstrument::CustomHead => "minecraft:player_head",
        }
    }
}

// Block state helpers
//
// ++++++++++++============++++++++++++============++++++++++++============

pub open spec fn note_block_spec(note: Option<Tone>, fallback: BlockView) -> BlockView {
    match note {
        Some(t) => match note_block_state_spec(t) {
            Some(b) => b,
            None => fallback,
        },
        None => fallback,
    }
}

pub open spec fn inst_block_spec(note: Option<Tone>, fallback: BlockView) -> BlockView {
    match note {
        Some(t) => match instrument_block_state_spec(t) {
            Some(b) => b,
            None => fallback,
        },
        None => fallback,
    }
}

/// Note block of the tone, or the fallback where there is none.
pub fn note_block(note: Option<Tone>, fallback: BlockState) -> (r: BlockState)
    ensures
        r@ == note_block_spec(note, fallback@),
{
    match note {
        Some(t) => match t.note_block_state() {
            Some(b) => b,
            None => fallback,
        },
        None => fallback,
    }
}

/// The block under the note block of the tone, or the fallback where there is none.
pub fn inst_block(note: Option<Tone>, fallback: BlockState) -> (r: BlockState)
    ensures
        r@ == inst_block_spec(note, fallback@),
{
    match note {
        Some(t) => match t.instrument_block_state() {
            Some(b) => b,
            None => fallback,
        },
        None => fallback,
    }
}

/// Connection state of a redstone wire on one side.
#[derive(Clone, Copy, Debug, PartialEq, Eq, Structural)]
pub enum WireConn {
    /// No connection on this side.
    Detached,
    Side,
    Up,
}

impl WireConn {
    pub open spec fn name_spec(self) -> &'static str {
        match self {
            WireConn::Detached => "none",
            WireConn::Side => "side",
            WireConn::Up => "up",
        }
    }

    /// Property value of this connection state.
    pub fn name(self) -> (r: &'static str)
        ensures
            r == self.name_spec(),
    {
        match self {
            WireConn::Detached => "none",
            WireConn::Side => "side",
            WireConn::Up => "up",
        }
    }
}

pub open spec fn wire_state_spec(west: WireConn, east: WireConn, north: WireConn, south: WireConn, power: u32) -> BlockView {
    (
        "minecraft:redstone_wire",
        seq![
            ("power", Prop::Num(power)),
            ("north", Prop::Text(north.name_spec())),
            ("south", Prop::Text(south.name_spec())),
            ("east", Prop::Text(east.name_spec())),
            ("west", Prop::Text(west.name_spec())),
        ],
    )
}

/// Redstone wire with explicit connection states and signal strength: the
/// state a placed wire settles into.
pub fn wire_state(west: WireConn, east: WireConn, north: WireConn, south: WireConn, power: u32) -> (r: BlockState)
    ensures
        r@ == wire_state_spec(west, east, north, south, power),
{
    let properties = vec![
        ("power", Prop::Num(power)),
        ("north", Prop::Text(north.name())),
        ("south", Prop::Text(south.name())),
        ("east", Prop::Text(east.name())),
        ("west", Prop::Text(west.name())),
    ];
    BlockState { name: "minecraft:redstone_wire", properties }
}

pub open spec fn redstone_wire_spec() -> BlockView {
    wire_state_spec(WireConn::Side, WireConn::Side, WireConn::Side, WireConn::Side, 0)
}

/// Redstone wire connected on all sides, unpowered.
pub fn redstone_wire() -> (r: BlockState)
    ensures
        r@ == redstone_wire_spec(),
{
    wire_state(WireConn::Side, WireConn::Side, WireConn::Side, WireConn::Side, 0)
}

pub open spec fn observer_spec(facing: &'static str) -> BlockView {
    ("minecraft:observer", seq![("facing", Prop::Text(facing)), ("powered", Prop::Text("false"))])
}

/// Observer block with facing.
pub fn observer(facing: &'static str) -> (r: BlockState)
    ensures
        r@ == observer_spec(facing),
{
    let properties = vec![("facing", Prop::Text(facing)), ("powered", Prop::Text("false"))];
    BlockState { name: "minecraft:observer", properties }
}

pub open spec fn sticky_piston_spec(facing: &'static str) -> BlockView {
    ("minecraft:sticky_piston", seq![("facing", Prop::Text(facing)), ("extended", Prop::Text("false"))])
}

/// Sticky piston block, not extended.
pub fn sticky_piston(facing: &'static str) -> (r: BlockState)
    ensures
        r@ == sticky_piston_spec(facing),
{
    let properties = vec![("facing", Prop::Text(facing)), ("extended", Prop::Text("false"))];
    BlockState { name: "minecraft:sticky_piston", properties }
}

pub open spec fn redstone_block_spec() -> BlockView {
    ("minecraft:redstone_block", seq![])
}

/// Redstone block.
pub fn redstone_block() -> (r: BlockState)
    ensures
        r@ == redstone_block_spec(),
{
    BlockState { name: "minecraft:redstone_block", properties: Vec::new() }
}

pub open spec fn redstone_torch_spec(facing: Option<&'static str>, lit: bool) -> BlockView {
    let lit = if lit { "true" } else { "false" };
    match facing {
        Some(f) => ("minecraft:redstone_wall_torch", seq![("lit", Prop::Text(lit)), ("facing", Prop::Text(f))]),
        None => ("minecraft:redstone_torch", seq![("lit", Prop::Text(lit))]),
    }
}

/// Redstone torch with lit state and optional wall facing.
pub fn redstone_torch(facing: Option<&'static str>, lit: bool) -> (r: BlockState)
    ensures
        r@ == redstone_torch_spec(facing, lit),
{
    let lit = if lit { "true" } else { "false" };
    match facing {
        Some(f) => BlockState {
            name: "minecraft:redstone_wall_torch",
            properties: vec![("lit", Prop::Text(lit)), ("facing", Prop::Text(f))],
        },
        None => BlockState { name: "minecraft:redstone_torch", properties: vec![("lit", Prop::Text(lit))] },
    }
}

} // verus!
