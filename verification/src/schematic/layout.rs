//! Positions, the layout interface, and layouts that wrap other layouts.

use vstd::prelude::*;
use super::blocks::{BlockState, BlockView, opt_view, air, air_spec, floor_block, floor_block_spec};
use vstd::string::StrSliceExecFns;

verus! {

/// A block position (east, up, south).
#[derive(Clone, Copy, Debug, PartialEq, Eq, Structural)]
pub struct BlockPos {
    pub x: i32,
    pub y: i32,
    pub z: i32,
}

impl BlockPos {
    pub fn new(x: i32, y: i32, z: i32) -> (r: Self)
        ensures
            r == (BlockPos { x, y, z }),
    {
        BlockPos { x, y, z }
    }

    pub open spec fn origin() -> BlockPos {
        BlockPos { x: 0, y: 0, z: 0 }
    }
}

/// Whether `pos` lies in the box spanned from the origin by `size`.
pub open spec fn in_box(size: BlockPos, pos: BlockPos) -> bool {
    &&& 0 <= pos.x < size.x
    &&& 0 <= pos.y < size.y
    &&& 0 <= pos.z < size.z
}

/// A queryable projection layout.
pub trait Layout {
    /// The layout's internal invariant.
    spec fn wf(&self) -> bool;

    /// Total size of the bounding box.
    spec fn size_spec(&self) -> BlockPos;

    /// The block at an in-bounds position.
    spec fn block_spec(&self, pos: BlockPos) -> Option<BlockView>;

    /// Block at the given position, assumed to be in bounds.
    fn block_at(&self, pos: BlockPos) -> (r: Option<BlockState>)
        requires
            self.wf(),
            in_box(self.size_spec(), pos),
        ensures
            opt_view(r) == self.block_spec(pos),
    ;

    /// Total size of the bounding box.
    fn size(&self) -> (r: BlockPos)
        requires
            self.wf(),
        ensures
            r == self.size_spec(),
    ;

    /// Block at the given position, which must be in bounds.
    fn get_block(&self, pos: BlockPos) -> (r: Option<BlockState>)
        requires
            self.wf(),
            in_box(self.size_spec(), pos),
        ensures
            opt_view(r) == self.block_spec(pos),
    {
        self.block_at(pos)
    }

    /// Block at the given position; `None` when it misses the bounding box.
    fn try_get_block(&self, pos: BlockPos) -> (r: Option<BlockState>)
        requires
            self.wf(),
        ensures
            opt_view(r) == (if in_box(self.size_spec(), pos) {
                self.block_spec(pos)
            } else {
                None
            }),
    {
        if self.contains(pos) {
            self.block_at(pos)
        } else {
            None
        }
    }

    /// Whether `pos` is inside the bounding box.
    fn contains(&self, pos: BlockPos) -> (r: bool)
        requires
            self.wf(),
        ensures
            r == in_box(self.size_spec(), pos),
    {
        let size = self.size();
        0 <= pos.x && pos.x < size.x && 0 <= pos.y && pos.y < size.y && 0 <= pos.z && pos.z < size.z
    }
}

/// The block a region holds for a layout's answer: air where it has none.
pub open spec fn block_or_air(b: Option<BlockView>) -> BlockView {
    match b {
        Some(v) => v,
        None => air_spec(),
    }
}

/// Every block of the layout's box, air where it has none, indexed by `y`,
/// then `z`, then `x`: the contents of a region projecting the layout.
pub fn region_blocks<L: Layout>(layout: &L) -> (r: Vec<Vec<Vec<BlockState>>>)
    requires
        layout.wf(),
    ensures
        r@.len() == max_int(layout.size_spec().y as int, 0),
        forall|y: int| 0 <= y < r@.len() ==> #[trigger] r@[y]@.len() == max_int(layout.size_spec().z as int, 0),
        forall|y: int, z: int| 0 <= y < r@.len() && 0 <= z < r@[y]@.len() ==>
            #[trigger] r@[y]@[z]@.len() == max_int(layout.size_spec().x as int, 0),
        forall|y: int, z: int, x: int|
            0 <= y < r@.len() && 0 <= z < r@[y]@.len() && 0 <= x < r@[y]@[z]@.len() ==>
            #[trigger] r@[y]@[z]@[x]@ == block_or_air(layout.block_spec(BlockPos { x: x as i32, y: y as i32, z: z as i32 })),
{
    let size = layout.size();
    let mut layers: Vec<Vec<Vec<BlockState>>> = Vec::new();
    let mut y: i32 = 0;
    while y < size.y
        invariant
            layout.wf(),
            size == layout.size_spec(),
            0 <= y,
            y <= max_int(size.y as int, 0),
            layers@.len() == y,
            forall|a: int| 0 <= a < layers@.len() ==> #[trigger] layers@[a]@.len() == max_int(size.z as int, 0),
            forall|a: int, b: int| 0 <= a < layers@.len() && 0 <= b < layers@[a]@.len() ==>
                #[trigger] layers@[a]@[b]@.len() == max_int(size.x as int, 0),
            forall|a: int, b: int, c: int|
                0 <= a < layers@.len() && 0 <= b < layers@[a]@.len() && 0 <= c < layers@[a]@[b]@.len() ==>
                #[trigger] layers@[a]@[b]@[c]@ == block_or_air(layout.block_spec(BlockPos { x: c as i32, y: a as i32, z: b as i32 })),
        decreases size.y - y,
    {
        let mut rows: Vec<Vec<BlockState>> = Vec::new();
        let mut z: i32 = 0;
        while z < size.z
            invariant
                layout.wf(),
                size == layout.size_spec(),
                0 <= y < size.y,
                0 <= z,
                z <= max_int(size.z as int, 0),
                rows@.len() == z,
                forall|b: int| 0 <= b < rows@.len() ==> #[trigger] rows@[b]@.len() == max_int(size.x as int, 0),
                forall|b: int, c: int| 0 <= b < rows@.len() && 0 <= c < rows@[b]@.len() ==>
                    #[trigger] rows@[b]@[c]@ == block_or_air(layout.block_spec(BlockPos { x: c as i32, y: y, z: b as i32 })),
            decreases size.z - z,
        {
            let mut row: Vec<BlockState> = Vec::new();
            let mut x: i32 = 0;
            while x < size.x
                invariant
                    layout.wf(),
                    size == layout.size_spec(),
                    0 <= y < size.y,
                    0 <= z < size.z,
                    0 <= x,
                    x <= max_int(size.x as int, 0),
                    row@.len() == x,
                    forall|c: int| 0 <= c < row@.len() ==>
                        #[trigger] row@[c]@ == block_or_air(layout.block_spec(BlockPos { x: c as i32, y: y, z: z })),
                decreases size.x - x,
            {
                let b = match layout.get_block(BlockPos::new(x, y, z)) {
                    Some(b) => b,
                    None => air(),
                };
                row.push(b);
                x = x + 1;
            }
            rows.push(row);
            z = z + 1;
        }
        layers.push(rows);
        y = y + 1;
    }
    layers
}

/// A value in the coordinate range.
pub open spec fn fits(v: int) -> bool {
    i32::MIN <= v <= i32::MAX
}

/// No component is negative.
pub open spec fn nonneg(p: BlockPos) -> bool {
    p.x >= 0 && p.y >= 0 && p.z >= 0
}

pub open spec fn max_int(a: int, b: int) -> int {
    if a >= b {
        a
    } else {
        b
    }
}

pub open spec fn max_pos_spec(a: BlockPos, b: BlockPos) -> BlockPos {
    BlockPos { x: max_int(a.x as int, b.x as int) as i32, y: max_int(a.y as int, b.y as int) as i32, z: max_int(a.z as int, b.z as int) as i32 }
}

/// Component-wise maximum of two positions.
pub fn max_pos(a: BlockPos, b: BlockPos) -> (r: BlockPos)
    ensures
        r == max_pos_spec(a, b),
{
    BlockPos {
        x: if a.x >= b.x { a.x } else { b.x },
        y: if a.y >= b.y { a.y } else { b.y },
        z: if a.z >= b.z { a.z } else { b.z },
    }
}

/// `a - b`, component-wise.
pub open spec fn sub_spec(a: BlockPos, b: BlockPos) -> BlockPos {
    BlockPos { x: (a.x - b.x) as i32, y: (a.y - b.y) as i32, z: (a.z - b.z) as i32 }
}

/// `a + b`, component-wise.
pub open spec fn add_spec(a: BlockPos, b: BlockPos) -> BlockPos {
    BlockPos { x: (a.x + b.x) as i32, y: (a.y + b.y) as i32, z: (a.z + b.z) as i32 }
}

/// Whether `a - b` stays in the coordinate range.
pub open spec fn sub_fits(a: BlockPos, b: BlockPos) -> bool {
    fits(a.x - b.x) && fits(a.y - b.y) && fits(a.z - b.z)
}

/// Whether `a + b` stays in the coordinate range.
pub open spec fn add_fits(a: BlockPos, b: BlockPos) -> bool {
    fits(a.x + b.x) && fits(a.y + b.y) && fits(a.z + b.z)
}

fn pos_sub(a: BlockPos, b: BlockPos) -> (r: BlockPos)
    requires
        sub_fits(a, b),
    ensures
        r == sub_spec(a, b),
{
    BlockPos { x: a.x - b.x, y: a.y - b.y, z: a.z - b.z }
}

fn pos_add(a: BlockPos, b: BlockPos) -> (r: BlockPos)
    requires
        add_fits(a, b),
    ensures
        r == add_spec(a, b),
{
    BlockPos { x: a.x + b.x, y: a.y + b.y, z: a.z + b.z }
}

/// Every position of a box shifted by `anchor` can be taken back by subtracting it.
pub open spec fn anchor_fits(size: BlockPos, anchor: BlockPos) -> bool {
    &&& fits(-anchor.x) && fits(-anchor.y) && fits(-anchor.z)
    &&& fits(size.x - 1 - anchor.x) && fits(size.y - 1 - anchor.y) && fits(size.z - 1 - anchor.z)
}

// Mask & Axis
//
// ++++++++++++============++++++++++++============++++++++++++============

/// Component-wise mask (0 or 1 on each axis) for position operations.
#[derive(Clone, Copy, Debug)]
pub struct Mask(BlockPos);

pub open spec fn is_bit(v: i32) -> bool {
    v == 0 || v == 1
}

impl Mask {
    /// The underlying position.
    pub closed spec fn view_pos(self) -> BlockPos {
        self.0
    }

    /// Every component is 0 or 1.
    pub closed spec fn wf(self) -> bool {
        is_bit(self.0.x) && is_bit(self.0.y) && is_bit(self.0.z)
    }

    /// A mask, if every component of `sign` is 0 or 1.
    pub fn new(sign: BlockPos) -> (r: Option<Self>)
        ensures
            r is Some <==> (is_bit(sign.x) && is_bit(sign.y) && is_bit(sign.z)),
            r matches Some(m) ==> m.wf() && m.view_pos() == sign,
    {
        if (sign.x == 0 || sign.x == 1) && (sign.y == 0 || sign.y == 1) && (sign.z == 0 || sign.z == 1) {
            Some(Mask(sign))
        } else {
            None
        }
    }

    /// Unwrap into the underlying position.
    pub fn into_inner(self) -> (r: BlockPos)
        ensures
            r == self.view_pos(),
    {
        self.0
    }

    /// Component-wise product with `rhs`.
    pub fn mul(self, rhs: BlockPos) -> (r: BlockPos)
        requires
            self.wf(),
        ensures
            r == (BlockPos {
                x: (self.view_pos().x * rhs.x) as i32,
                y: (self.view_pos().y * rhs.y) as i32,
                z: (self.view_pos().z * rhs.z) as i32,
            }),
    {
        BlockPos { x: self.0.x * rhs.x, y: self.0.y * rhs.y, z: self.0.z * rhs.z }
    }

    /// Each component times `rhs`.
    pub fn scale(self, rhs: i32) -> (r: BlockPos)
        requires
            self.wf(),
        ensures
            r == (BlockPos {
                x: (self.view_pos().x * rhs) as i32,
                y: (self.view_pos().y * rhs) as i32,
                z: (self.view_pos().z * rhs) as i32,
            }),
    {
        BlockPos { x: self.0.x * rhs, y: self.0.y * rhs, z: self.0.z * rhs }
    }
}

/// Which spatial direction sub-layouts are placed along.
#[derive(Clone, Copy, Debug, PartialEq, Eq, Structural)]
pub enum Axis {
    /// East-west axis (X).
    Easting,
    /// Vertical axis (Y).
    Elevation,
    /// South-north axis (Z).
    Southing,
}

impl Axis {
    pub open spec fn unit_spec(self) -> BlockPos {
        match self {
            Axis::Easting => BlockPos { x: 1, y: 0, z: 0 },
            Axis::Elevation => BlockPos { x: 0, y: 1, z: 0 },
            Axis::Southing => BlockPos { x: 0, y: 0, z: 1 },
        }
    }

    /// Unit mask for this axis.
    pub fn unit(self) -> (r: Mask)
        ensures
            r.wf(),
            r.view_pos() == self.unit_spec(),
    {
        let p = match self {
            Axis::Easting => BlockPos::new(1, 0, 0),
            Axis::Elevation => BlockPos::new(0, 1, 0),
            Axis::Southing => BlockPos::new(0, 0, 1),
        };
        Mask(p)
    }
}

// Reverse
//
// ++++++++++++============++++++++++++============++++++++++++============

/// `bias + factor * p` for a factor of one or minus one.
fn mirror_coord(bias: i32, factor: i32, p: i32) -> (r: i32)
    requires
        factor == 1 || factor == -1,
        0 <= p,
        factor == 1 ==> bias == 0,
        factor == -1 ==> 0 <= p <= bias,
    ensures
        r == bias + factor * p,
{
    if factor == 1 {
        bias + p
    } else {
        bias - p
    }
}

/// The position mirrored on the axes that `sign` selects, within `size`.
pub open spec fn mirror_spec(pos: BlockPos, sign: BlockPos, size: BlockPos) -> BlockPos {
    BlockPos {
        x: if sign.x == 1 { (size.x - 1 - pos.x) as i32 } else { pos.x },
        y: if sign.y == 1 { (size.y - 1 - pos.y) as i32 } else { pos.y },
        z: if sign.z == 1 { (size.z - 1 - pos.z) as i32 } else { pos.z },
    }
}

/// Mirror-reverse a layout along given axes. Block facing unchanged.
pub struct Reverse<L: Layout> {
    layout: L,
    bias: BlockPos,
    factor: BlockPos,
    sign: Ghost<BlockPos>,
}

impl<L: Layout> Reverse<L> {
    pub fn new(layout: L, sign: Mask) -> (r: Self)
        requires
            layout.wf(),
            sign.wf(),
            pos_in_range(layout.size_spec()),
        ensures
            r.wf(),
            r.size_spec() == layout.size_spec(),
            forall|pos: BlockPos| in_box(r.size_spec(), pos) ==> #[trigger] r.block_spec(pos)
                == layout.block_spec(mirror_spec(pos, sign.view_pos(), layout.size_spec())),
    {
        let size = layout.size();
        let one = BlockPos::new(1, 1, 1);
        let bias = sign.mul(BlockPos::new(size.x - 1, size.y - 1, size.z - 1));
        let two = sign.scale(2);
        let factor = BlockPos::new(one.x - two.x, one.y - two.y, one.z - two.z);
        Reverse { layout, bias, factor, sign: Ghost(sign.view_pos()) }
    }
}

impl<L: Layout> Layout for Reverse<L> {
    closed spec fn wf(&self) -> bool {
        let s = self.layout.size_spec();
        let g = self.sign@;
        &&& self.layout.wf()
        &&& pos_in_range(s)
        &&& is_bit(g.x) && is_bit(g.y) && is_bit(g.z)
        &&& self.bias == (BlockPos { x: (g.x * (s.x - 1)) as i32, y: (g.y * (s.y - 1)) as i32, z: (g.z * (s.z - 1)) as i32 })
        &&& self.factor == (BlockPos { x: (1 - 2 * g.x) as i32, y: (1 - 2 * g.y) as i32, z: (1 - 2 * g.z) as i32 })
    }

    closed spec fn size_spec(&self) -> BlockPos {
        self.layout.size_spec()
    }

    closed spec fn block_spec(&self, pos: BlockPos) -> Option<BlockView> {
        self.layout.block_spec(mirror_spec(pos, self.sign@, self.layout.size_spec()))
    }

    fn block_at(&self, pos: BlockPos) -> (r: Option<BlockState>) {
        proof {
            let s = self.layout.size_spec();
            let g = self.sign@;
            if g.x == 1 { assert(self.bias.x == s.x - 1 && self.factor.x == -1); } else { assert(self.bias.x == 0 && self.factor.x == 1); }
            if g.y == 1 { assert(self.bias.y == s.y - 1 && self.factor.y == -1); } else { assert(self.bias.y == 0 && self.factor.y == 1); }
            if g.z == 1 { assert(self.bias.z == s.z - 1 && self.factor.z == -1); } else { assert(self.bias.z == 0 && self.factor.z == 1); }
        }
        let orig = BlockPos::new(
            mirror_coord(self.bias.x, self.factor.x, pos.x),
            mirror_coord(self.bias.y, self.factor.y, pos.y),
            mirror_coord(self.bias.z, self.factor.z, pos.z),
        );
        assert(orig == mirror_spec(pos, self.sign@, self.layout.size_spec()));
        self.layout.get_block(orig)
    }

    fn size(&self) -> (r: BlockPos) {
        self.layout.size()
    }
}

// WithFloor
//
// ++++++++++++============++++++++++++============++++++++++++============

/// Whether two strings hold the same characters.
pub fn str_eq(a: &str, b: &str) -> (r: bool)
    ensures
        r == (a@ == b@),
{
    let n = a.unicode_len();
    if n != b.unicode_len() {
        return false;
    }
    let mut i: usize = 0;
    while i < n
        invariant
            0 <= i <= n,
            n == a@.len(),
            n == b@.len(),
            forall|j: int| 0 <= j < i ==> a@[j] == b@[j],
        decreases n - i,
    {
        if a.get_char(i) != b.get_char(i) {
            return false;
        }
        i = i + 1;
    }
    proof {
        assert(a@ =~= b@);
    }
    true
}

/// Whether a block state is a gravity block that needs floor support.
pub trait NeedsFloor {
    /// Whether this block state needs a floor to hold it up.
    fn needs_floor(&self) -> bool;
}

impl NeedsFloor for BlockState {
    fn needs_floor(&self) -> (r: bool)
        ensures
            r == (self.name@ == "minecraft:sand"@),
    {
        str_eq(self.name, "minecraft:sand")
    }
}

/// A layout wrapper that adds a floor layer beneath another layout.
pub struct WithFloor<L: Layout> {
    layout: L,
    full: bool,
}

impl<L: Layout> WithFloor<L> {
    /// `full`: whether the floor covers the whole bounding box; otherwise only
    /// positions with a gravity block above get a floor.
    pub fn new(layout: L, full: bool) -> (r: Self)
        requires
            layout.wf(),
            layout.size_spec().y < i32::MAX,
            !full ==> layout.size_spec().y > 0,
        ensures
            r.wf(),
            r.inner_spec() == layout,
            r.full_spec() == full,
            r.size_spec() == (BlockPos { x: layout.size_spec().x, y: (layout.size_spec().y + 1) as i32, z: layout.size_spec().z }),
            forall|pos: BlockPos| in_box(r.size_spec(), pos) ==> #[trigger] r.block_spec(pos)
                == with_floor_spec(layout.block_spec(pos), layout.block_spec(BlockPos { x: pos.x, y: (pos.y - 1) as i32, z: pos.z }), full, pos),
    {
        WithFloor { layout, full }
    }

    /// The wrapped layout.
    pub closed spec fn inner_spec(&self) -> L {
        self.layout
    }

    /// Whether the floor covers the whole box.
    pub closed spec fn full_spec(&self) -> bool {
        self.full
    }
}

/// The block of a layout with a floor: the floor at the bottom (everywhere,
/// or under gravity blocks only), the layout above it.
pub open spec fn with_floor_spec(at: Option<BlockView>, above: Option<BlockView>, full: bool, pos: BlockPos) -> Option<BlockView> {
    if pos.y == 0 {
        if full {
            Some(floor_block_spec())
        } else {
            match at {
                Some(b) => if b.0@ == "minecraft:sand"@ { Some(floor_block_spec()) } else { None },
                None => None,
            }
        }
    } else {
        above
    }
}

/// What a floor adds: on the bottom layer a full floor stands everywhere,
/// and a partial floor stands exactly under the layout's sand (a gravity
/// block) and nowhere else; above the bottom layer the layout shows one
/// block lower.
pub proof fn lemma_floor_under_sand<L: Layout>(w: WithFloor<L>, pos: BlockPos)
    ensures
        pos.y == 0 && w.full_spec() ==> w.block_spec(pos) == Some(floor_block_spec()),
        pos.y == 0 && !w.full_spec() ==> forall|b: BlockView| w.inner_spec().block_spec(pos) == Some(b) ==>
            (w.block_spec(pos) == Some(floor_block_spec()) <==> b.0@ == "minecraft:sand"@),
        pos.y == 0 && !w.full_spec() ==> forall|b: BlockView| w.inner_spec().block_spec(pos) == Some(b) && b.0@ != "minecraft:sand"@
            ==> w.block_spec(pos) is None,
        pos.y == 0 && !w.full_spec() && w.inner_spec().block_spec(pos) is None ==> w.block_spec(pos) is None,
        pos.y != 0 ==> w.block_spec(pos) == w.inner_spec().block_spec(BlockPos { x: pos.x, y: (pos.y - 1) as i32, z: pos.z }),
{
}

impl<L: Layout> Layout for WithFloor<L> {
    closed spec fn wf(&self) -> bool {
        &&& self.layout.wf()
        &&& self.layout.size_spec().y < i32::MAX
        &&& !self.full ==> self.layout.size_spec().y > 0
    }

    closed spec fn size_spec(&self) -> BlockPos {
        let s = self.layout.size_spec();
        BlockPos { x: s.x, y: (s.y + 1) as i32, z: s.z }
    }

    closed spec fn block_spec(&self, pos: BlockPos) -> Option<BlockView> {
        with_floor_spec(
            self.layout.block_spec(pos),
            self.layout.block_spec(BlockPos { x: pos.x, y: (pos.y - 1) as i32, z: pos.z }),
            self.full,
            pos,
        )
    }

    fn block_at(&self, pos: BlockPos) -> (r: Option<BlockState>) {
        if pos.y == 0 {
            if self.full {
                Some(floor_block())
            } else {
                match self.layout.get_block(pos) {
                    Some(b) => if b.needs_floor() {
                        Some(floor_block())
                    } else {
                        None
                    },
                    None => None,
                }
            }
        } else {
            self.layout.get_block(BlockPos::new(pos.x, pos.y - 1, pos.z))
        }
    }

    fn size(&self) -> (r: BlockPos) {
        let s = self.layout.size();
        BlockPos::new(s.x, s.y + 1, s.z)
    }
}

/// Floor platform mode of a build.
#[derive(Clone, Copy, Debug, PartialEq, Eq, Structural)]
pub enum Floor {
    /// No floor platform.
    Bare,
    /// Full coverage platform.
    Full,
    /// Platform only below gravity blocks.
    Gravity,
}

impl Floor {
    /// The full-coverage flag for layouts that always carry a floor.
    pub fn full(self) -> (r: bool)
        ensures
            r == (self == Floor::Full),
    {
        match self {
            Floor::Full => true,
            _ => false,
        }
    }
}

// Clipped
//
// ++++++++++++============++++++++++++============++++++++++++============

/// A layout wrapper that clips the inner layout along each axis by `pos`: a
/// non-negative component `n` shifts the inner layout by `n` and shrinks the
/// size by `n`; a negative component keeps the inner layout in place and
/// shrinks the size by `-n`.
pub struct Clipped<L: Layout> {
    layout: L,
    anchor: BlockPos,
    size: BlockPos,
}

pub open spec fn abs_int(v: int) -> int {
    if v >= 0 {
        v
    } else {
        -v
    }
}

impl<L: Layout> Clipped<L> {
    pub fn new(layout: L, pos: BlockPos) -> (r: Self)
        requires
            layout.wf(),
            pos.x > i32::MIN && pos.y > i32::MIN && pos.z > i32::MIN,
            fits(layout.size_spec().x - abs_int(pos.x as int)),
            fits(layout.size_spec().y - abs_int(pos.y as int)),
            fits(layout.size_spec().z - abs_int(pos.z as int)),
        ensures
            r.wf(),
            r.size_spec() == (BlockPos {
                x: (layout.size_spec().x - abs_int(pos.x as int)) as i32,
                y: (layout.size_spec().y - abs_int(pos.y as int)) as i32,
                z: (layout.size_spec().z - abs_int(pos.z as int)) as i32,
            }),
            forall|p: BlockPos| in_box(r.size_spec(), p) ==> #[trigger] r.block_spec(p)
                == layout.block_spec(add_spec(p, max_pos_spec(pos, BlockPos::origin()))),
    {
        let anchor = max_pos(pos, BlockPos::new(0, 0, 0));
        let s = layout.size();
        let size = BlockPos::new(
            s.x - if pos.x >= 0 { pos.x } else { -pos.x },
            s.y - if pos.y >= 0 { pos.y } else { -pos.y },
            s.z - if pos.z >= 0 { pos.z } else { -pos.z },
        );
        Clipped { layout, anchor, size }
    }
}

impl<L: Layout> Layout for Clipped<L> {
    closed spec fn wf(&self) -> bool {
        let s = self.layout.size_spec();
        &&& self.layout.wf()
        &&& self.anchor.x >= 0 && self.anchor.y >= 0 && self.anchor.z >= 0
        &&& self.size.x + self.anchor.x <= s.x
        &&& self.size.y + self.anchor.y <= s.y
        &&& self.size.z + self.anchor.z <= s.z
    }

    closed spec fn size_spec(&self) -> BlockPos {
        self.size
    }

    closed spec fn block_spec(&self, pos: BlockPos) -> Option<BlockView> {
        self.layout.block_spec(add_spec(pos, self.anchor))
    }

    fn block_at(&self, pos: BlockPos) -> (r: Option<BlockState>) {
        self.layout.get_block(pos_add(pos, self.anchor))
    }

    fn size(&self) -> (r: BlockPos) {
        self.size
    }
}

// Overlaid
//
// ++++++++++++============++++++++++++============++++++++++++============

/// Overlaps two positioned sub-layouts; the first wins where they coincide.
pub struct Overlaid<A: Layout, B: Layout> {
    first_anchor: BlockPos,
    first: A,
    second_anchor: BlockPos,
    second: B,
    size: BlockPos,
}

/// The block of the first layout where it has one, else of the second.
pub open spec fn or_else_spec(a: Option<BlockView>, b: Option<BlockView>) -> Option<BlockView> {
    match a {
        Some(x) => Some(x),
        None => b,
    }
}

/// The block of `l` at `pos`, or none outside its box.
pub open spec fn try_block_spec<L: Layout>(l: L, pos: BlockPos) -> Option<BlockView> {
    if in_box(l.size_spec(), pos) {
        l.block_spec(pos)
    } else {
        None
    }
}

impl<A: Layout, B: Layout> Overlaid<A, B> {
    /// The combined size is given, keeping queries free of size arithmetic.
    pub fn new(first_anchor: BlockPos, first: A, second_anchor: BlockPos, second: B, size: BlockPos) -> (r: Self)
        requires
            first.wf(),
            second.wf(),
            anchor_fits(size, first_anchor),
            anchor_fits(size, second_anchor),
        ensures
            r.wf(),
            r.size_spec() == size,
            forall|pos: BlockPos| in_box(size, pos) ==> #[trigger] r.block_spec(pos) == or_else_spec(
                try_block_spec(first, sub_spec(pos, first_anchor)),
                try_block_spec(second, sub_spec(pos, second_anchor)),
            ),
    {
        Overlaid { first_anchor, first, second_anchor, second, size }
    }
}

impl<A: Layout, B: Layout> Layout for Overlaid<A, B> {
    closed spec fn wf(&self) -> bool {
        &&& self.first.wf()
        &&& self.second.wf()
        &&& anchor_fits(self.size, self.first_anchor)
        &&& anchor_fits(self.size, self.second_anchor)
    }

    closed spec fn size_spec(&self) -> BlockPos {
        self.size
    }

    closed spec fn block_spec(&self, pos: BlockPos) -> Option<BlockView> {
        or_else_spec(
            try_block_spec(self.first, sub_spec(pos, self.first_anchor)),
            try_block_spec(self.second, sub_spec(pos, self.second_anchor)),
        )
    }

    fn block_at(&self, pos: BlockPos) -> (r: Option<BlockState>) {
        match self.first.try_get_block(pos_sub(pos, self.first_anchor)) {
            Some(b) => Some(b),
            None => self.second.try_get_block(pos_sub(pos, self.second_anchor)),
        }
    }

    fn size(&self) -> (r: BlockPos) {
        self.size
    }
}

// Arranged
//
// ++++++++++++============++++++++++++============++++++++++++============

/// The component of `p` along the unit axis `unit`.
pub open spec fn along(p: BlockPos, unit: BlockPos) -> int {
    p.x * unit.x + p.y * unit.y + p.z * unit.z
}

/// `unit` scaled by `v`.
pub open spec fn scaled(unit: BlockPos, v: int) -> BlockPos {
    BlockPos { x: (unit.x * v) as i32, y: (unit.y * v) as i32, z: (unit.z * v) as i32 }
}

/// The offset along the axis of the `k`-th sub-layout: the sizes before it,
/// each followed by the gap.
pub open spec fn arranged_offset<L: Layout>(ls: Seq<L>, unit: BlockPos, gap: int, k: int) -> int
    decreases k,
{
    if k <= 0 {
        0
    } else {
        arranged_offset(ls, unit, gap, k - 1) + along(ls[k - 1].size_spec(), unit) + gap
    }
}

/// The component-wise maximum of the first `k` sizes and the origin.
pub open spec fn arranged_extent<L: Layout>(ls: Seq<L>, k: int) -> BlockPos
    decreases k,
{
    if k <= 0 {
        BlockPos::origin()
    } else {
        max_pos_spec(arranged_extent(ls, k - 1), ls[k - 1].size_spec())
    }
}

/// The bounding box of arranged sub-layouts.
pub open spec fn arranged_size<L: Layout>(ls: Seq<L>, unit: BlockPos, gap: int) -> BlockPos {
    let cursor = scaled(unit, arranged_offset(ls, unit, gap, ls.len() as int) - gap);
    max_pos_spec(max_pos_spec(cursor, BlockPos::origin()), arranged_extent(ls, ls.len() as int))
}

/// Whether a sub-layout anchored at `a` starts at or before `pos` on every axis.
pub open spec fn starts_by(a: BlockPos, pos: BlockPos) -> bool {
    a.y <= pos.y && a.z <= pos.z && a.x <= pos.x
}

/// The last band, among the first `n`, that starts by `pos`; -1 if none.
pub open spec fn last_band<L: Layout>(bands: Seq<(L, BlockPos)>, pos: BlockPos, n: int) -> int
    decreases n,
{
    if n <= 0 {
        -1
    } else if starts_by(bands[n - 1].1, pos) {
        n - 1
    } else {
        last_band(bands, pos, n - 1)
    }
}

/// The block of arranged bands: that of the last band starting by `pos`.
pub open spec fn arranged_block<L: Layout>(bands: Seq<(L, BlockPos)>, pos: BlockPos) -> Option<BlockView> {
    let k = last_band(bands, pos, bands.len() as int);
    if k < 0 {
        None
    } else {
        try_block_spec(bands[k].0, sub_spec(pos, bands[k].1))
    }
}

/// The last band that starts by `pos` among the first `n` is the one
/// before the first that does not.
pub proof fn lemma_last_band<L: Layout>(bands: Seq<(L, BlockPos)>, pos: BlockPos, m: int, n: int)
    requires
        0 <= m <= n <= bands.len(),
        forall|k: int| 0 <= k < m ==> starts_by(#[trigger] bands[k].1, pos),
        forall|k: int| m <= k < n ==> !starts_by(#[trigger] bands[k].1, pos),
    ensures
        last_band(bands, pos, n) == m - 1,
    decreases n,
{
    if n > m {
        lemma_last_band(bands, pos, m, n - 1);
    } else if n > 0 {
        assert(starts_by(bands[n - 1].1, pos));
    }
}

/// The component of `p` along an axis is its coordinate on that axis.
pub proof fn lemma_unit_along(axis: Axis, p: BlockPos)
    ensures
        along(p, axis.unit_spec()) == match axis {
            Axis::Easting => p.x as int,
            Axis::Elevation => p.y as int,
            Axis::Southing => p.z as int,
        },
{
    match axis {
        Axis::Easting => assert(along(p, BlockPos { x: 1, y: 0, z: 0 }) == p.x) by (nonlinear_arith),
        Axis::Elevation => assert(along(p, BlockPos { x: 0, y: 1, z: 0 }) == p.y) by (nonlinear_arith),
        Axis::Southing => assert(along(p, BlockPos { x: 0, y: 0, z: 1 }) == p.z) by (nonlinear_arith),
    }
}

/// Scaling an axis unit by a larger non-negative factor lands further along.
pub proof fn lemma_scaled_le(axis: Axis, a: int, b: int)
    requires
        0 <= a <= b <= i32::MAX,
    ensures
        starts_by(scaled(axis.unit_spec(), a), scaled(axis.unit_spec(), b)),
        nonneg(scaled(axis.unit_spec(), a)),
{
    let u = axis.unit_spec();
    assert(u.x * a == if u.x == 1 { a } else { 0 }) by (nonlinear_arith) requires u.x == 0 || u.x == 1;
    assert(u.y * a == if u.y == 1 { a } else { 0 }) by (nonlinear_arith) requires u.y == 0 || u.y == 1;
    assert(u.z * a == if u.z == 1 { a } else { 0 }) by (nonlinear_arith) requires u.z == 0 || u.z == 1;
    assert(u.x * b == if u.x == 1 { b } else { 0 }) by (nonlinear_arith) requires u.x == 0 || u.x == 1;
    assert(u.y * b == if u.y == 1 { b } else { 0 }) by (nonlinear_arith) requires u.y == 0 || u.y == 1;
    assert(u.z * b == if u.z == 1 { b } else { 0 }) by (nonlinear_arith) requires u.z == 0 || u.z == 1;
}

/// Band offsets grow along the arrangement.
pub proof fn lemma_offset_mono<L: Layout>(ls: Seq<L>, unit: BlockPos, gap: int, i: int, j: int)
    requires
        0 <= i <= j <= ls.len(),
        gap >= 0,
        unit == (BlockPos { x: 1, y: 0, z: 0 }) || unit == (BlockPos { x: 0, y: 1, z: 0 }) || unit == (BlockPos { x: 0, y: 0, z: 1 }),
        forall|k: int| 0 <= k < ls.len() ==> nonneg(#[trigger] ls[k].size_spec()),
    ensures
        arranged_offset(ls, unit, gap, i) <= arranged_offset(ls, unit, gap, j),
        i < j ==> arranged_offset(ls, unit, gap, i) + along(ls[i].size_spec(), unit) + gap <= arranged_offset(ls, unit, gap, j),
    decreases j,
{
    if i < j {
        lemma_offset_mono(ls, unit, gap, i, j - 1);
        assert(nonneg(ls[j - 1].size_spec()));
    }
}

/// A layout wrapper that arranges sub-layouts along an axis, each starting
/// `gap` blocks after the previous one ends.
///
/// Queries locate the containing band by a binary search over the anchors,
/// which are sorted along the axis.
pub struct Arranged<L: Layout> {
    bands: Vec<(L, BlockPos)>,
    size: BlockPos,
}

impl<L: Layout> Arranged<L> {
    /// The sub-layouts with their anchors.
    pub closed spec fn bands_spec(&self) -> Seq<(L, BlockPos)> {
        self.bands@
    }

    pub fn new(layouts: Vec<L>, axis: Axis, gap: u32) -> (r: Self)
        requires
            gap <= i32::MAX,
            forall|k: int| 0 <= k < layouts@.len() ==> #[trigger] layouts@[k].wf(),
            forall|k: int| 0 <= k < layouts@.len() ==> nonneg(#[trigger] layouts@[k].size_spec()),
            arranged_offset(layouts@, axis.unit_spec(), gap as int, layouts@.len() as int) <= i32::MAX,
        ensures
            r.wf(),
            r.bands_spec().len() == layouts@.len(),
            forall|k: int| 0 <= k < layouts@.len() ==> #[trigger] r.bands_spec()[k] == (
                layouts@[k],
                scaled(axis.unit_spec(), arranged_offset(layouts@, axis.unit_spec(), gap as int, k)),
            ),
            r.size_spec() == arranged_size(layouts@, axis.unit_spec(), gap as int),
            forall|pos: BlockPos| in_box(r.size_spec(), pos) ==> #[trigger] r.block_spec(pos) == arranged_block(r.bands_spec(), pos),
    {
        let unit = axis.unit();
        let ghost u = axis.unit_spec();
        let ghost ls = layouts@;
        let ghost g = gap as int;
        let n = layouts.len();
        // put the layouts in reverse order, to take them back in order
        let mut layouts = layouts;
        let mut reversed: Vec<L> = Vec::new();
        while layouts.len() > 0
            invariant
                reversed@.len() + layouts@.len() == ls.len(),
                layouts@ == ls.take(layouts@.len() as int),
                forall|j: int| 0 <= j < ls.len() ==> #[trigger] ls[j].wf(),
                forall|j: int| 0 <= j < ls.len() ==> nonneg(#[trigger] ls[j].size_spec()),
                forall|k: int| 0 <= k < reversed@.len() ==> #[trigger] reversed@[k] == ls[ls.len() - 1 - k],
            decreases layouts.len(),
        {
            let l = layouts.pop().unwrap();
            reversed.push(l);
            proof {
                assert(layouts@ =~= ls.take(layouts@.len() as int));
            }
        }
        let gap_i = gap as i32;
        let mut offset: i32 = 0;
        let mut extent = BlockPos::new(0, 0, 0);
        let mut bands: Vec<(L, BlockPos)> = Vec::new();
        let mut k: usize = 0;
        while k < n
            invariant
                0 <= k <= n,
                n == ls.len(),
                u == axis.unit_spec(),
                unit.wf(),
                unit.view_pos() == u,
                gap_i as int == g,
                g == gap as int,
                0 <= g <= i32::MAX,
                forall|j: int| 0 <= j < ls.len() ==> #[trigger] ls[j].wf(),
                forall|j: int| 0 <= j < ls.len() ==> nonneg(#[trigger] ls[j].size_spec()),
                arranged_offset(ls, u, g, n as int) <= i32::MAX,
                reversed@.len() == n - k,
                forall|j: int| 0 <= j < reversed@.len() ==> #[trigger] reversed@[j] == ls[n - 1 - j],
                offset as int == arranged_offset(ls, u, g, k as int),
                extent == arranged_extent(ls, k as int),
                bands@.len() == k,
                forall|j: int| 0 <= j < k ==> #[trigger] bands@[j] == (ls[j], scaled(u, arranged_offset(ls, u, g, j))),
            decreases n - k,
        {
            let l = reversed.pop().unwrap();
            proof {
                assert(l == ls[k as int]);
                lemma_offset_mono(ls, u, g, k as int, n as int);
            }
            let size = l.size();
            let up = unit.into_inner();
            let step = if up.x == 1 { size.x } else if up.y == 1 { size.y } else { size.z };
            proof {
                let sz = ls[k as int].size_spec();
                lemma_unit_along(axis, sz);
            }
            let anchor = unit.scale(offset);
            extent = max_pos(extent, size);
            bands.push((l, anchor));
            offset = offset + step + gap_i;
            k = k + 1;
        }
        proof {
            lemma_offset_mono(ls, u, g, 0, n as int);
        }
        let cursor = unit.scale(offset - gap_i);
        let size = max_pos(max_pos(cursor, BlockPos::new(0, 0, 0)), extent);
        let r = Arranged { bands, size };
        proof {
            assert forall|i: int, j: int| 0 <= i <= j < r.bands@.len() implies #[trigger] starts_by(r.bands@[i].1, r.bands@[j].1) by {
                lemma_offset_mono(ls, u, g, i, j);
                lemma_offset_mono(ls, u, g, 0, i);
                lemma_offset_mono(ls, u, g, j, n as int);
                lemma_scaled_le(axis, arranged_offset(ls, u, g, i), arranged_offset(ls, u, g, j));
            }
            assert forall|j: int| 0 <= j < r.bands@.len() implies nonneg(#[trigger] r.bands@[j].1) by {
                lemma_offset_mono(ls, u, g, 0, j);
                lemma_offset_mono(ls, u, g, j, n as int);
                lemma_scaled_le(axis, 0, arranged_offset(ls, u, g, j));
            }
        }
        r
    }
}

impl<L: Layout> Layout for Arranged<L> {
    closed spec fn wf(&self) -> bool {
        &&& forall|k: int| 0 <= k < self.bands@.len() ==> #[trigger] self.bands@[k].0.wf()
        &&& forall|k: int| 0 <= k < self.bands@.len() ==> nonneg(#[trigger] self.bands@[k].1)
        &&& forall|i: int, j: int| 0 <= i <= j < self.bands@.len() ==> #[trigger] starts_by(self.bands@[i].1, self.bands@[j].1)
    }

    closed spec fn size_spec(&self) -> BlockPos {
        self.size
    }

    closed spec fn block_spec(&self, pos: BlockPos) -> Option<BlockView> {
        arranged_block(self.bands@, pos)
    }

    fn block_at(&self, pos: BlockPos) -> (r: Option<BlockState>) {
        // binary search for the first band that starts after `pos`
        let mut lo: usize = 0;
        let mut hi: usize = self.bands.len();
        while lo < hi
            invariant
                0 <= lo <= hi <= self.bands@.len(),
                self.wf(),
                forall|k: int| 0 <= k < lo ==> starts_by(#[trigger] self.bands@[k].1, pos),
                forall|k: int| hi <= k < self.bands@.len() ==> !starts_by(#[trigger] self.bands@[k].1, pos),
            decreases hi - lo,
        {
            let mid = lo + (hi - lo) / 2;
            let a = self.bands[mid].1;
            if a.y <= pos.y && a.z <= pos.z && a.x <= pos.x {
                proof {
                    assert forall|k: int| 0 <= k < mid + 1 implies starts_by(#[trigger] self.bands@[k].1, pos) by {
                        assert(starts_by(self.bands@[k].1, self.bands@[mid as int].1));
                    }
                }
                lo = mid + 1;
            } else {
                proof {
                    assert forall|k: int| mid <= k < self.bands@.len() implies !starts_by(#[trigger] self.bands@[k].1, pos) by {
                        assert(starts_by(self.bands@[mid as int].1, self.bands@[k].1));
                    }
                }
                hi = mid;
            }
        }
        proof {
            lemma_last_band(self.bands@, pos, lo as int, self.bands@.len() as int);
        }
        if lo == 0 {
            return None;
        }
        let index = lo - 1;
        let anchor = self.bands[index].1;
        let local = pos_sub(pos, anchor);
        self.bands[index].0.try_get_block(local)
    }

    fn size(&self) -> (r: BlockPos) {
        self.size
    }
}

// EdgeArranged
//
// ++++++++++++============++++++++++++============++++++++++++============

/// Arrangements of two sequences whose sizes agree place their items alike.
proof fn lemma_arranged_same_sizes<A: Layout, B: Layout>(a: Seq<A>, b: Seq<B>, unit: BlockPos, gap: int, k: int)
    requires
        a.len() == b.len(),
        0 <= k <= a.len(),
        forall|j: int| 0 <= j < a.len() ==> #[trigger] a[j].size_spec() == b[j].size_spec(),
    ensures
        arranged_offset(a, unit, gap, k) == arranged_offset(b, unit, gap, k),
        arranged_extent(a, k) == arranged_extent(b, k),
    decreases k,
{
    if k > 0 {
        lemma_arranged_same_sizes(a, b, unit, gap, k - 1);
        assert(a[k - 1].size_spec() == b[k - 1].size_spec());
    }
}

/// The band found for a position depends on the anchors alone.
proof fn lemma_last_band_anchors<A: Layout, B: Layout>(a: Seq<(A, BlockPos)>, b: Seq<(B, BlockPos)>, pos: BlockPos, n: int)
    requires
        0 <= n <= a.len(),
        a.len() == b.len(),
        forall|j: int| 0 <= j < a.len() ==> #[trigger] a[j].1 == b[j].1,
    ensures
        last_band(a, pos, n) == last_band(b, pos, n),
    decreases n,
{
    if n > 0 {
        assert(a[n - 1].1 == b[n - 1].1);
        lemma_last_band_anchors(a, b, pos, n - 1);
    }
}

/// A mirrored position of a box stays in the box.
proof fn lemma_mirror_in_box(pos: BlockPos, sign: BlockPos, size: BlockPos)
    requires
        in_box(size, pos),
        is_bit(sign.x) && is_bit(sign.y) && is_bit(sign.z),
    ensures
        in_box(size, mirror_spec(pos, sign, size)),
{
}

/// The bands of an arrangement of `ls`: each item with its anchor.
pub open spec fn arranged_bands<L: Layout>(ls: Seq<L>, unit: BlockPos, gap: int) -> Seq<(L, BlockPos)> {
    Seq::new(ls.len(), |k: int| (ls[k], scaled(unit, arranged_offset(ls, unit, gap, k))))
}

/// The block at `pos` of sub-layouts arranged along `unit` and aligned by
/// their far edges on the axes that `sign` selects: the arrangement of the
/// mirrored sub-layouts, mirrored as a whole.
pub open spec fn edge_block<L: Layout>(ls: Seq<L>, unit: BlockPos, gap: int, sign: BlockPos, pos: BlockPos) -> Option<BlockView> {
    let p = mirror_spec(pos, sign, arranged_size(ls, unit, gap));
    let bands = arranged_bands(ls, unit, gap);
    let k = last_band(bands, p, ls.len() as int);
    if k < 0 {
        None
    } else {
        let local = sub_spec(p, bands[k].1);
        if in_box(ls[k].size_spec(), local) {
            ls[k].block_spec(mirror_spec(local, sign, ls[k].size_spec()))
        } else {
            None
        }
    }
}

/// Like [`Arranged`], but aligns sub-layouts by their far edge on cross axes.
pub struct EdgeArranged<L: Layout>(Reverse<Arranged<Reverse<L>>>);

impl<L: Layout> EdgeArranged<L> {
    /// `align` mirrors both each sub-layout and the whole arrangement.
    pub fn new(layouts: Vec<L>, axis: Axis, gap: u32, align: Mask) -> (r: Self)
        requires
            gap <= i32::MAX,
            align.wf(),
            forall|k: int| 0 <= k < layouts@.len() ==> #[trigger] layouts@[k].wf(),
            forall|k: int| 0 <= k < layouts@.len() ==> nonneg(#[trigger] layouts@[k].size_spec()),
            arranged_offset(layouts@, axis.unit_spec(), gap as int, layouts@.len() as int) <= i32::MAX,
        ensures
            r.wf(),
            r.size_spec() == arranged_size(layouts@, axis.unit_spec(), gap as int),
            forall|pos: BlockPos| in_box(r.size_spec(), pos) ==> #[trigger] r.block_spec(pos)
                == edge_block(layouts@, axis.unit_spec(), gap as int, align.view_pos(), pos),
    {
        let ghost ls = layouts@;
        let ghost u = axis.unit_spec();
        let ghost g = gap as int;
        let ghost sign = align.view_pos();
        let n = layouts.len();
        // mirror each sub-layout, keeping the order
        let mut layouts = layouts;
        let mut backwards: Vec<Reverse<L>> = Vec::new();
        while layouts.len() > 0
            invariant
                backwards@.len() + layouts@.len() == ls.len(),
                layouts@ == ls.take(layouts@.len() as int),
                align.wf(),
                sign == align.view_pos(),
                forall|j: int| 0 <= j < ls.len() ==> #[trigger] ls[j].wf(),
                forall|j: int| 0 <= j < ls.len() ==> nonneg(#[trigger] ls[j].size_spec()),
                forall|k: int| 0 <= k < backwards@.len() ==> #[trigger] backwards@[k].wf(),
                forall|k: int| 0 <= k < backwards@.len() ==> #[trigger] backwards@[k].size_spec() == ls[ls.len() - 1 - k].size_spec(),
                forall|k: int, pos: BlockPos| 0 <= k < backwards@.len() && in_box(backwards@[k].size_spec(), pos) ==>
                    #[trigger] backwards@[k].block_spec(pos) == ls[ls.len() - 1 - k].block_spec(
                        mirror_spec(pos, sign, ls[ls.len() - 1 - k].size_spec())),
            decreases layouts.len(),
        {
            let l = layouts.pop().unwrap();
            proof {
                assert(l == ls[layouts@.len() as int]);
            }
            backwards.push(Reverse::new(l, align));
            proof {
                assert(layouts@ =~= ls.take(layouts@.len() as int));
            }
        }
        let mut mirrored: Vec<Reverse<L>> = Vec::new();
        while backwards.len() > 0
            invariant
                backwards@.len() + mirrored@.len() == ls.len(),
                sign == align.view_pos(),
                forall|j: int| 0 <= j < ls.len() ==> nonneg(#[trigger] ls[j].size_spec()),
                forall|k: int| 0 <= k < backwards@.len() ==> #[trigger] backwards@[k].wf(),
                forall|k: int| 0 <= k < backwards@.len() ==> #[trigger] backwards@[k].size_spec() == ls[ls.len() - 1 - k].size_spec(),
                forall|k: int, pos: BlockPos| 0 <= k < backwards@.len() && in_box(backwards@[k].size_spec(), pos) ==>
                    #[trigger] backwards@[k].block_spec(pos) == ls[ls.len() - 1 - k].block_spec(
                        mirror_spec(pos, sign, ls[ls.len() - 1 - k].size_spec())),
                forall|k: int| 0 <= k < mirrored@.len() ==> #[trigger] mirrored@[k].wf(),
                forall|k: int| 0 <= k < mirrored@.len() ==> #[trigger] mirrored@[k].size_spec() == ls[k].size_spec(),
                forall|k: int, pos: BlockPos| 0 <= k < mirrored@.len() && in_box(mirrored@[k].size_spec(), pos) ==>
                    #[trigger] mirrored@[k].block_spec(pos) == ls[k].block_spec(mirror_spec(pos, sign, ls[k].size_spec())),
            decreases backwards.len(),
        {
            let l = backwards.pop().unwrap();
            mirrored.push(l);
        }
        proof {
            assert forall|j: int| 0 <= j < mirrored@.len() implies nonneg(#[trigger] mirrored@[j].size_spec()) by {
                assert(nonneg(ls[j].size_spec()));
            }
            lemma_arranged_same_sizes(mirrored@, ls, u, g, ls.len() as int);
        }
        let ghost ms = mirrored@;
        let arranged = Arranged::new(mirrored, axis, gap);
        proof {
            let asz = arranged.size_spec();
            assert(asz == arranged_size(ls, u, g));
            assert(nonneg(asz));
        }
        let r = EdgeArranged(Reverse::new(arranged, align));
        proof {
            let bands2 = arranged.bands_spec();
            let bands = arranged_bands(ls, u, g);
            assert forall|j: int| 0 <= j < bands.len() implies #[trigger] bands[j].1 == bands2[j].1 by {
                lemma_arranged_same_sizes(ms, ls, u, g, j);
            }
            assert forall|pos: BlockPos| in_box(r.size_spec(), pos) implies #[trigger] r.block_spec(pos)
                == edge_block(ls, u, g, sign, pos) by {
                let p = mirror_spec(pos, sign, arranged_size(ls, u, g));
                lemma_mirror_in_box(pos, sign, arranged_size(ls, u, g));
                lemma_last_band_anchors(bands, bands2, p, ls.len() as int);
                let k = last_band(bands, p, ls.len() as int);
                if k >= 0 {
                    lemma_last_band_range(bands, p, ls.len() as int);
                    assert(bands2[k].0 == ms[k]);
                }
            }
        }
        r
    }
}

impl<L: Layout> Layout for EdgeArranged<L> {
    closed spec fn wf(&self) -> bool {
        self.0.wf()
    }

    closed spec fn size_spec(&self) -> BlockPos {
        self.0.size_spec()
    }

    closed spec fn block_spec(&self, pos: BlockPos) -> Option<BlockView> {
        self.0.block_spec(pos)
    }

    fn block_at(&self, pos: BlockPos) -> (r: Option<BlockState>) {
        self.0.block_at(pos)
    }

    fn size(&self) -> (r: BlockPos) {
        self.0.size()
    }
}

/// The band found for a position is one of the bands, or none.
proof fn lemma_last_band_range<L: Layout>(bands: Seq<(L, BlockPos)>, pos: BlockPos, n: int)
    requires
        0 <= n,
    ensures
        -1 <= last_band(bands, pos, n) < n,
    decreases n,
{
    if n > 0 {
        lemma_last_band_range(bands, pos, n - 1);
    }
}

/// Each sub-layout of an arrangement shows whole at its anchor: at any
/// position of its box, shifted by its anchor, the arrangement answers that
/// sub-layout's block.
pub proof fn lemma_arranged_shows_bands<L: Layout>(layouts: Seq<L>, axis: Axis, gap: u32, k: int, q: BlockPos)
    requires
        gap <= i32::MAX,
        forall|j: int| 0 <= j < layouts.len() ==> nonneg(#[trigger] layouts[j].size_spec()),
        arranged_offset(layouts, axis.unit_spec(), gap as int, layouts.len() as int) <= i32::MAX,
        0 <= k < layouts.len(),
        in_box(layouts[k].size_spec(), q),
    ensures
        ({
            let bands = arranged_bands(layouts, axis.unit_spec(), gap as int);
            arranged_block(bands, add_spec(bands[k].1, q)) == layouts[k].block_spec(q)
        }),
{
    let u = axis.unit_spec();
    let g = gap as int;
    let n = layouts.len() as int;
    let bands = arranged_bands(layouts, u, g);
    let off = arranged_offset(layouts, u, g, k);
    lemma_offset_mono(layouts, u, g, 0, k);
    lemma_offset_mono(layouts, u, g, k, n);
    let sz = layouts[k].size_spec();
    lemma_unit_along(axis, sz);
    lemma_unit_along(axis, q);
    let a = bands[k].1;
    lemma_scaled_le(axis, off, off);
    assert(a == scaled(u, off));
    let pos = add_spec(a, q);
    // the anchor is `off` along the axis and zero across it
    assert(u.x * off == if u.x == 1 { off } else { 0 }) by (nonlinear_arith) requires u.x == 0 || u.x == 1;
    assert(u.y * off == if u.y == 1 { off } else { 0 }) by (nonlinear_arith) requires u.y == 0 || u.y == 1;
    assert(u.z * off == if u.z == 1 { off } else { 0 }) by (nonlinear_arith) requires u.z == 0 || u.z == 1;
    assert forall|j: int| 0 <= j < k + 1 implies starts_by(#[trigger] bands[j].1, pos) by {
        lemma_offset_mono(layouts, u, g, 0, j);
        lemma_offset_mono(layouts, u, g, j, k);
        let oj = arranged_offset(layouts, u, g, j);
        assert(u.x * oj == if u.x == 1 { oj } else { 0 }) by (nonlinear_arith) requires u.x == 0 || u.x == 1;
        assert(u.y * oj == if u.y == 1 { oj } else { 0 }) by (nonlinear_arith) requires u.y == 0 || u.y == 1;
        assert(u.z * oj == if u.z == 1 { oj } else { 0 }) by (nonlinear_arith) requires u.z == 0 || u.z == 1;
    }
    assert forall|j: int| k + 1 <= j < n implies !starts_by(#[trigger] bands[j].1, pos) by {
        lemma_offset_mono(layouts, u, g, k, j);
        lemma_offset_mono(layouts, u, g, j, n);
        let oj = arranged_offset(layouts, u, g, j);
        assert(u.x * oj == if u.x == 1 { oj } else { 0 }) by (nonlinear_arith) requires u.x == 0 || u.x == 1;
        assert(u.y * oj == if u.y == 1 { oj } else { 0 }) by (nonlinear_arith) requires u.y == 0 || u.y == 1;
        assert(u.z * oj == if u.z == 1 { oj } else { 0 }) by (nonlinear_arith) requires u.z == 0 || u.z == 1;
    }
    lemma_last_band(bands, pos, k + 1, n);
    assert(sub_spec(pos, a) == q);
}

/// Mirroring a position of a box twice gives the position back, so a layout
/// reversed twice along the same axes shows as it was.
pub proof fn lemma_mirror_involution(pos: BlockPos, sign: BlockPos, size: BlockPos)
    requires
        in_box(size, pos),
        is_bit(sign.x) && is_bit(sign.y) && is_bit(sign.z),
    ensures
        mirror_spec(mirror_spec(pos, sign, size), sign, size) == pos,
        in_box(size, mirror_spec(pos, sign, size)),
{
}

// EvenlyArranged
//
// ++++++++++++============++++++++++++============++++++++++++============

pub open spec fn min_int(a: int, b: int) -> int {
    if a <= b {
        a
    } else {
        b
    }
}

/// The dot product of two positions.
pub open spec fn dot_spec(a: BlockPos, b: BlockPos) -> int {
    a.x * b.x + a.y * b.y + a.z * b.z
}

/// The block of `l` at the integer position `(x, y, z)`, none outside its box.
pub open spec fn try_block_at<L: Layout>(l: L, x: int, y: int, z: int) -> Option<BlockView> {
    let s = l.size_spec();
    if 0 <= x < s.x && 0 <= y < s.y && 0 <= z < s.z {
        l.block_spec(BlockPos { x: x as i32, y: y as i32, z: z as i32 })
    } else {
        None
    }
}

/// Scanning items `i` down to `bottom`: the first block found at
/// `local - i * pitch`.
pub open spec fn evenly_scan<L: Layout>(items: Seq<L>, pitch: BlockPos, lx: int, ly: int, lz: int, i: int, bottom: int) -> Option<BlockView>
    decreases i - bottom + 1,
{
    if i < bottom || i < 0 || i >= items.len() {
        None
    } else {
        or_else_spec(
            try_block_at(items[i], lx - pitch.x * i, ly - pitch.y * i, lz - pitch.z * i),
            evenly_scan(items, pitch, lx, ly, lz, i - 1, bottom),
        )
    }
}

/// Sizes of the first `k` items, component-wise maximum with the origin.
pub open spec fn evenly_extent<L: Layout>(items: Seq<L>, k: int) -> BlockPos
    decreases k,
{
    if k <= 0 {
        BlockPos::origin()
    } else {
        max_pos_spec(evenly_extent(items, k - 1), items[k - 1].size_spec())
    }
}

/// The arrangement's values fit the coordinate range.
pub open spec fn evenly_fits<L: Layout>(items: Seq<L>, pitch: BlockPos) -> bool {
    let far = items.len() - 1;
    let e = evenly_extent(items, items.len() as int);
    &&& items.len() <= i32::MAX
    &&& fits(abs_int(pitch.x as int) * far + e.x)
    &&& fits(abs_int(pitch.y as int) * far + e.y)
    &&& fits(abs_int(pitch.z as int) * far + e.z)
    &&& pitch.x > i32::MIN && pitch.y > i32::MIN && pitch.z > i32::MIN
}

/// The shift that takes query positions to item space, keeping every item's
/// anchor `i * pitch` inside the arrangement's box.
pub open spec fn evenly_anchor(pitch: BlockPos, n: int) -> BlockPos {
    BlockPos {
        x: (min_int(pitch.x as int, 0) * (n - 1)) as i32,
        y: (min_int(pitch.y as int, 0) * (n - 1)) as i32,
        z: (min_int(pitch.z as int, 0) * (n - 1)) as i32,
    }
}

/// The block of evenly arranged items at `pos`: that of the highest-index
/// item whose box, anchored at `i * pitch`, holds the position.
pub open spec fn evenly_block<L: Layout>(items: Seq<L>, pitch: BlockPos, pos: BlockPos) -> Option<BlockView> {
    let a = evenly_anchor(pitch, items.len() as int);
    evenly_scan(items, pitch, pos.x + a.x, pos.y + a.y, pos.z + a.z, items.len() - 1, 0)
}

/// Every component of `a` is at most that of `b`.
pub open spec fn le_pos(a: BlockPos, b: BlockPos) -> bool {
    a.x <= b.x && a.y <= b.y && a.z <= b.z
}

/// The extent of items whose sizes are all bounded by `b` is bounded by `b`.
pub proof fn lemma_extent_bounded<L: Layout>(items: Seq<L>, k: int, b: BlockPos)
    requires
        0 <= k <= items.len(),
        nonneg(b),
        forall|j: int| 0 <= j < items.len() ==> le_pos(#[trigger] items[j].size_spec(), b),
    ensures
        le_pos(evenly_extent(items, k), b),
        nonneg(evenly_extent(items, k)),
    decreases k,
{
    if k > 0 {
        lemma_extent_bounded(items, k - 1, b);
        assert(le_pos(items[k - 1].size_spec(), b));
    }
}

/// The extent of the first `k` items covers each of them.
pub proof fn lemma_extent_covers<L: Layout>(items: Seq<L>, k: int, j: int)
    requires
        0 <= j < k <= items.len(),
    ensures
        le_pos(items[j].size_spec(), evenly_extent(items, k)),
    decreases k,
{
    if j < k - 1 {
        lemma_extent_covers(items, k - 1, j);
    }
}

/// The extent of items that all have the size `s` is `s`.
pub proof fn lemma_extent_uniform<L: Layout>(items: Seq<L>, k: int, s: BlockPos)
    requires
        1 <= k <= items.len(),
        nonneg(s),
        forall|j: int| 0 <= j < items.len() ==> #[trigger] items[j].size_spec() == s,
    ensures
        evenly_extent(items, k) == s,
    decreases k,
{
    assert(items[k - 1].size_spec() == s);
    if k > 1 {
        lemma_extent_uniform(items, k - 1, s);
    } else {
        assert(evenly_extent(items, 0) == BlockPos::origin());
    }
    let prev = evenly_extent(items, k - 1);
    assert(evenly_extent(items, k) == max_pos_spec(prev, s));
    assert(max_pos_spec(prev, s) == s);
}

/// The bounding box of evenly arranged items.
pub open spec fn evenly_size<L: Layout>(items: Seq<L>, pitch: BlockPos) -> BlockPos {
    let far = items.len() - 1;
    let e = evenly_extent(items, items.len() as int);
    BlockPos {
        x: (abs_int(pitch.x as int) * far + e.x) as i32,
        y: (abs_int(pitch.y as int) * far + e.y) as i32,
        z: (abs_int(pitch.z as int) * far + e.z) as i32,
    }
}

/// Evenly arranges sub-layouts along `pitch`: item `i` is anchored at
/// `i * pitch`. A query scans only the window of items whose boxes can reach
/// the position, from the highest index down; the first block found wins.
pub struct EvenlyArranged<L: Layout> {
    items: Vec<L>,
    pitch: BlockPos,
    anchor: BlockPos,
    spacing: i128,
    bias: i128,
    span: i128,
    size: BlockPos,
    extent: Ghost<BlockPos>,
}

impl<L: Layout> EvenlyArranged<L> {
    pub closed spec fn items_spec(&self) -> Seq<L> {
        self.items@
    }

    pub closed spec fn pitch_spec(&self) -> BlockPos {
        self.pitch
    }

    /// The window of item indices that a query at `pos` scans, top and bottom.
    pub closed spec fn window(&self, pos: BlockPos) -> (int, int) {
        let lx = pos.x + self.anchor.x;
        let ly = pos.y + self.anchor.y;
        let lz = pos.z + self.anchor.z;
        let offset = self.pitch.x * lx + self.pitch.y * ly + self.pitch.z * lz;
        let top = min_int((offset - self.bias) / (self.spacing as int), self.items@.len() - 1);
        let bottom = max_int(top - self.span, 0);
        (top, bottom)
    }

    /// `pitch` must be non-zero.
    pub fn new(items: Vec<L>, pitch: BlockPos) -> (r: Self)
        requires
            pitch != BlockPos::origin(),
            forall|k: int| 0 <= k < items@.len() ==> #[trigger] items@[k].wf(),
            evenly_fits(items@, pitch),
        ensures
            r.wf(),
            r.items_spec() == items@,
            r.pitch_spec() == pitch,
            r.size_spec() == evenly_size(items@, pitch),
            forall|pos: BlockPos| #[trigger] r.block_spec(pos) == evenly_block(items@, pitch, pos),
    {
        let n = items.len();
        let mut extent = BlockPos::new(0, 0, 0);
        let mut k: usize = 0;
        while k < n
            invariant
                0 <= k <= n,
                n == items@.len(),
                forall|j: int| 0 <= j < items@.len() ==> #[trigger] items@[j].wf(),
                forall|j: int| 0 <= j < k ==> le_pos(#[trigger] items@[j].size_spec(), extent),
                extent == evenly_extent(items@, k as int),
                nonneg(extent),
            decreases n - k,
        {
            let s = items[k].size();
            extent = max_pos(extent, s);
            k = k + 1;
        }
        let px = pitch.x as i128;
        let py = pitch.y as i128;
        let pz = pitch.z as i128;
        let ex = extent.x as i128;
        let ey = extent.y as i128;
        let ez = extent.z as i128;
        let apx = if px >= 0 { px } else { -px };
        let apy = if py >= 0 { py } else { -py };
        let apz = if pz >= 0 { pz } else { -pz };
        let mpx = if px < 0 { px } else { 0 };
        let mpy = if py < 0 { py } else { 0 };
        let mpz = if pz < 0 { pz } else { 0 };
        proof {
            lemma_small_product(px, px);
            lemma_small_product(py, py);
            lemma_small_product(pz, pz);
            lemma_small_product(mpx, ex);
            lemma_small_product(mpy, ey);
            lemma_small_product(mpz, ez);
            lemma_small_product(apx, ex);
            lemma_small_product(apy, ey);
            lemma_small_product(apz, ez);
            assert(mpx * ex <= 0) by (nonlinear_arith) requires mpx <= 0, ex >= 0;
            assert(mpy * ey <= 0) by (nonlinear_arith) requires mpy <= 0, ey >= 0;
            assert(mpz * ez <= 0) by (nonlinear_arith) requires mpz <= 0, ez >= 0;
            assert(apx * ex >= 0) by (nonlinear_arith) requires apx >= 0, ex >= 0;
            assert(apy * ey >= 0) by (nonlinear_arith) requires apy >= 0, ey >= 0;
            assert(apz * ez >= 0) by (nonlinear_arith) requires apz >= 0, ez >= 0;
        }
        let spacing = px * px + py * py + pz * pz;
        let bias = mpx * ex + mpy * ey + mpz * ez;
        proof {
            assert(spacing > 0) by (nonlinear_arith)
                requires spacing == px * px + py * py + pz * pz, px != 0 || py != 0 || pz != 0;
        }
        let span_num = apx * ex + apy * ey + apz * ez;
        let span = span_num / spacing;
        proof {
            vstd::arithmetic::div_mod::lemma_div_pos_is_pos(span_num as int, spacing as int);
            vstd::arithmetic::div_mod::lemma_div_is_ordered_by_denominator(span_num as int, 1, spacing as int);
        }
        let far = n as i32 - 1;
        proof {
            lemma_fits_product(pitch.x as int, far as int, ex as int);
            lemma_fits_product(pitch.y as int, far as int, ey as int);
            lemma_fits_product(pitch.z as int, far as int, ez as int);
        }
        let ax = if pitch.x >= 0 { pitch.x } else { -pitch.x };
        let ay = if pitch.y >= 0 { pitch.y } else { -pitch.y };
        let az = if pitch.z >= 0 { pitch.z } else { -pitch.z };
        let size = BlockPos::new(ax * far + extent.x, ay * far + extent.y, az * far + extent.z);
        let anchor = BlockPos::new(
            (if pitch.x <= 0 { pitch.x } else { 0 }) * far,
            (if pitch.y <= 0 { pitch.y } else { 0 }) * far,
            (if pitch.z <= 0 { pitch.z } else { 0 }) * far,
        );
        let r = EvenlyArranged { items, pitch, anchor, spacing, bias, span, size, extent: Ghost(extent) };
        proof {
            assert(r.anchor == evenly_anchor(pitch, n as int));
            assert(mpx == min_int(pitch.x as int, 0));
            assert(mpy == min_int(pitch.y as int, 0));
            assert(mpz == min_int(pitch.z as int, 0));
        }
        r
    }
}

/// A coordinate times a doubled coordinate stays far inside the 128-bit range.
pub proof fn lemma_wide_product(a: i128, b: i128)
    requires
        -0x8000_0000 <= a <= 0x8000_0000,
        -0x2_0000_0000 <= b <= 0x2_0000_0000,
    ensures
        -0x1_0000_0000_0000_0000 <= a * b <= 0x1_0000_0000_0000_0000,
{
    assert(-0x1_0000_0000_0000_0000 <= a * b <= 0x1_0000_0000_0000_0000) by (nonlinear_arith)
        requires -0x8000_0000 <= a <= 0x8000_0000, -0x2_0000_0000 <= b <= 0x2_0000_0000;
}

/// Products of coordinates stay far inside the 128-bit range.
pub proof fn lemma_small_product(a: i128, b: i128)
    requires
        -0x8000_0000 <= a <= 0x8000_0000,
        -0x8000_0000 <= b <= 0x8000_0000,
    ensures
        -0x4000_0000_0000_0000 <= a * b <= 0x4000_0000_0000_0000,
{
    assert(-0x4000_0000_0000_0000 <= a * b <= 0x4000_0000_0000_0000) by (nonlinear_arith)
        requires -0x8000_0000 <= a <= 0x8000_0000, -0x8000_0000 <= b <= 0x8000_0000;
}

/// If `|p| * far + e` fits, so do `|p| * far` and `min(p, 0) * far`.
pub proof fn lemma_fits_product(p: int, far: int, e: int)
    requires
        fits(abs_int(p) * far + e),
        0 <= e,
        -1 <= far,
        i32::MIN < p <= i32::MAX,
    ensures
        fits(abs_int(p) * far),
        -i32::MAX <= min_int(p, 0) * far <= i32::MAX,
        fits(p * far),
{
    let a = abs_int(p);
    assert(a >= 0);
    assert(a <= i32::MAX);
    if far >= 0 {
        let af = a * far;
        assert(af >= 0) by (nonlinear_arith) requires far >= 0, a >= 0, af == a * far;
        assert(af <= i32::MAX);
        if p >= 0 {
            assert(p * far == af);
            assert(min_int(p, 0) == 0);
            assert(0 * far == 0) by (nonlinear_arith);
        } else {
            assert(p * far == -af) by (nonlinear_arith) requires p == -a, af == a * far;
            assert(min_int(p, 0) * far == -af) by (nonlinear_arith) requires min_int(p, 0) == -a, af == a * far;
        }
    } else {
        assert(a * far == -a) by (nonlinear_arith) requires far == -1;
        assert(min_int(p, 0) * far == -min_int(p, 0)) by (nonlinear_arith) requires far == -1;
        assert(p * far == -p) by (nonlinear_arith) requires far == -1;
    }
}

impl<L: Layout> Layout for EvenlyArranged<L> {
    closed spec fn wf(&self) -> bool {
        let n = self.items@.len();
        let p = self.pitch;
        let e = self.extent@;
        &&& forall|k: int| 0 <= k < n ==> #[trigger] self.items@[k].wf()
        &&& forall|k: int| 0 <= k < n ==> le_pos(#[trigger] self.items@[k].size_spec(), e)
        &&& nonneg(e)
        &&& n <= i32::MAX
        &&& pos_in_range(p)
        &&& self.spacing > 0
        &&& self.spacing == dot_spec(p, p)
        &&& self.bias == min_int(p.x as int, 0) * e.x + min_int(p.y as int, 0) * e.y + min_int(p.z as int, 0) * e.z
        &&& self.span == (abs_int(p.x as int) * e.x + abs_int(p.y as int) * e.y + abs_int(p.z as int) * e.z) / (self.spacing as int)
        &&& -0x4000_0000_0000_0000 * 3 <= self.bias <= 0
        &&& 0 <= self.span <= 0x4000_0000_0000_0000 * 3
        &&& self.anchor == evenly_anchor(p, n as int)
        &&& pos_in_range(self.anchor)
        &&& self.size == evenly_size(self.items@, p)
    }

    closed spec fn size_spec(&self) -> BlockPos {
        self.size
    }

    closed spec fn block_spec(&self, pos: BlockPos) -> Option<BlockView> {
        evenly_block(self.items@, self.pitch, pos)
    }

    fn block_at(&self, pos: BlockPos) -> (r: Option<BlockState>) {
        let lx = pos.x as i128 + self.anchor.x as i128;
        let ly = pos.y as i128 + self.anchor.y as i128;
        let lz = pos.z as i128 + self.anchor.z as i128;
        let px = self.pitch.x as i128;
        let py = self.pitch.y as i128;
        let pz = self.pitch.z as i128;
        proof {
            lemma_wide_product(px, lx);
            lemma_wide_product(py, ly);
            lemma_wide_product(pz, lz);
        }
        let offset = px * lx + py * ly + pz * lz;
        let q = floor_div(offset - self.bias, self.spacing);
        let n = self.items.len() as i128;
        let top = if q <= n - 1 { q } else { n - 1 };
        let bottom = if top - self.span >= 0 { top - self.span } else { 0 };
        proof {
            assert((top as int, bottom as int) == self.window(pos));
            self.lemma_window_complete(lx as int, ly as int, lz as int, top as int, bottom as int);
        }
        if top < bottom {
            return None;
        }
        let mut i = top;
        while i >= bottom
            invariant
                self.wf(),
                bottom <= top + 1,
                bottom - 1 <= i <= top,
                top <= self.items@.len() - 1,
                bottom >= 0,
                -0x8000_0000 * 3 <= lx <= 0x8000_0000 * 3,
                -0x8000_0000 * 3 <= ly <= 0x8000_0000 * 3,
                -0x8000_0000 * 3 <= lz <= 0x8000_0000 * 3,
                px == self.pitch.x as i128,
                py == self.pitch.y as i128,
                pz == self.pitch.z as i128,
                self.block_spec(pos)
                    == evenly_scan(self.items@, self.pitch, lx as int, ly as int, lz as int, i as int, bottom as int),
            decreases i - bottom + 1,
        {
            let item = &self.items[i as usize];
            proof {
                lemma_small_product(px, i);
                lemma_small_product(py, i);
                lemma_small_product(pz, i);
            }
            let qx = lx - px * i;
            let qy = ly - py * i;
            let qz = lz - pz * i;
            let s = item.size();
            let hit = if 0 <= qx && qx < s.x as i128 && 0 <= qy && qy < s.y as i128 && 0 <= qz && qz < s.z as i128 {
                item.block_at(BlockPos::new(qx as i32, qy as i32, qz as i32))
            } else {
                None
            };
            proof {
                assert(opt_view(hit) == try_block_at(
                    self.items@[i as int],
                    lx - self.pitch.x * i,
                    ly - self.pitch.y * i,
                    lz - self.pitch.z * i,
                ));
                assert(evenly_scan(self.items@, self.pitch, lx as int, ly as int, lz as int, i as int, bottom as int)
                    == or_else_spec(opt_view(hit), evenly_scan(self.items@, self.pitch, lx as int, ly as int, lz as int, i - 1, bottom as int)));
            }
            match hit {
                Some(b) => return Some(b),
                None => {},
            }
            i = i - 1;
        }
        None
    }

    fn size(&self) -> (r: BlockPos) {
        self.size
    }
}

impl<L: Layout> EvenlyArranged<L> {
    /// What a well-formed arrangement answers: the block of the highest-index
    /// item holding the position, in the box spanned by all items.
    pub proof fn lemma_semantics(&self)
        requires
            self.wf(),
        ensures
            self.size_spec() == evenly_size(self.items_spec(), self.pitch_spec()),
            forall|pos: BlockPos| #[trigger] self.block_spec(pos) == evenly_block(self.items_spec(), self.pitch_spec(), pos),
            forall|k: int| 0 <= k < self.items_spec().len() ==> #[trigger] self.items_spec()[k].wf(),
    {
    }

    /// Items outside the window of a query miss its position, so scanning the
    /// window finds what scanning every item finds.
    proof fn lemma_window_complete(&self, lx: int, ly: int, lz: int, top: int, bottom: int)
        requires
            self.wf(),
            top == min_int((self.pitch.x * lx + self.pitch.y * ly + self.pitch.z * lz - self.bias) / (self.spacing as int), self.items@.len() - 1),
            bottom == max_int(top - self.span, 0),
        ensures
            evenly_scan(self.items@, self.pitch, lx, ly, lz, self.items@.len() - 1, 0)
                == evenly_scan(self.items@, self.pitch, lx, ly, lz, top, bottom),
    {
        let items = self.items@;
        let n = items.len() as int;
        let p = self.pitch;
        assert forall|i: int| 0 <= i < n && (i > top || i < bottom) implies
            #[trigger] try_block_at(items[i], lx - p.x * i, ly - p.y * i, lz - p.z * i) is None by {
            let sz = items[i].size_spec();
            let qx = lx - p.x * i;
            let qy = ly - p.y * i;
            let qz = lz - p.z * i;
            if 0 <= qx < sz.x && 0 <= qy < sz.y && 0 <= qz < sz.z {
                assert(le_pos(sz, self.extent@));
                lemma_window_bounds(p, self.extent@, qx, qy, qz, i, self.spacing as int, self.bias as int);
                assert(lx == qx + i * p.x && ly == qy + i * p.y && lz == qz + i * p.z) by (nonlinear_arith)
                    requires qx == lx - p.x * i, qy == ly - p.y * i, qz == lz - p.z * i;
            }
        }
        lemma_scan_above(items, p, lx, ly, lz, n - 1, top, 0);
        lemma_scan_below(items, p, lx, ly, lz, top, 0, bottom);
    }
}

/// Whether item `i` misses the local position `(lx, ly, lz)`.
pub open spec fn item_misses<L: Layout>(items: Seq<L>, pitch: BlockPos, lx: int, ly: int, lz: int, i: int) -> bool {
    try_block_at(items[i], lx - pitch.x * i, ly - pitch.y * i, lz - pitch.z * i) is None
}

/// A scan over items that all miss finds nothing.
proof fn lemma_scan_none<L: Layout>(items: Seq<L>, pitch: BlockPos, lx: int, ly: int, lz: int, i: int, lo: int)
    requires
        forall|j: int| lo <= j <= i && 0 <= j < items.len() ==> #[trigger] item_misses(items, pitch, lx, ly, lz, j),
    ensures
        evenly_scan(items, pitch, lx, ly, lz, i, lo) is None,
    decreases i - lo + 1,
{
    if i < lo || i < 0 || i >= items.len() {
    } else {
        assert(item_misses(items, pitch, lx, ly, lz, i));
        lemma_scan_none(items, pitch, lx, ly, lz, i - 1, lo);
    }
}

/// Items above `top` that miss do not change a scan.
proof fn lemma_scan_above<L: Layout>(items: Seq<L>, pitch: BlockPos, lx: int, ly: int, lz: int, hi: int, top: int, lo: int)
    requires
        top <= hi < items.len(),
        forall|j: int| top < j <= hi && 0 <= j ==> #[trigger] item_misses(items, pitch, lx, ly, lz, j),
    ensures
        evenly_scan(items, pitch, lx, ly, lz, hi, lo) == evenly_scan(items, pitch, lx, ly, lz, top, lo),
    decreases hi - top,
{
    if hi > top {
        if hi < lo || hi < 0 {
            lemma_scan_none(items, pitch, lx, ly, lz, top, lo);
        } else {
            assert(item_misses(items, pitch, lx, ly, lz, hi));
            lemma_scan_above(items, pitch, lx, ly, lz, hi - 1, top, lo);
        }
    }
}

/// Items below `bottom` that miss do not change a scan.
proof fn lemma_scan_below<L: Layout>(items: Seq<L>, pitch: BlockPos, lx: int, ly: int, lz: int, i: int, lo: int, bottom: int)
    requires
        lo <= bottom,
        forall|j: int| lo <= j < bottom && 0 <= j < items.len() ==> #[trigger] item_misses(items, pitch, lx, ly, lz, j),
    ensures
        evenly_scan(items, pitch, lx, ly, lz, i, lo) == evenly_scan(items, pitch, lx, ly, lz, i, bottom),
    decreases i - lo + 1,
{
    if i < bottom {
        lemma_scan_none(items, pitch, lx, ly, lz, i, lo);
    } else if i < 0 || i >= items.len() {
    } else {
        lemma_scan_below(items, pitch, lx, ly, lz, i - 1, lo, bottom);
    }
}

/// One axis of the window bound: the term `p * q - min(p, 0) * e` lies in
/// `[0, |p| * e]` for `0 <= q < e`.
proof fn lemma_window_term(p: int, e: int, q: int)
    requires
        0 <= q < e,
    ensures
        0 <= p * q - min_int(p, 0) * e <= abs_int(p) * e,
{
    if p >= 0 {
        assert(0 <= p * q <= p * e) by (nonlinear_arith) requires p >= 0, 0 <= q < e;
        assert(min_int(p, 0) == 0);
        assert(0 * e == 0) by (nonlinear_arith);
    } else {
        assert(0 <= p * q - p * e <= -p * e) by (nonlinear_arith) requires p < 0, 0 <= q < e;
        assert(abs_int(p) * e == -p * e) by (nonlinear_arith) requires abs_int(p) == -p;
    }
}

/// An item whose box holds the local position `q + i * pitch` has its index
/// in the window computed from that position.
proof fn lemma_window_bounds(p: BlockPos, e: BlockPos, qx: int, qy: int, qz: int, i: int, spacing: int, bias: int)
    requires
        0 <= qx < e.x,
        0 <= qy < e.y,
        0 <= qz < e.z,
        spacing == dot_spec(p, p),
        spacing > 0,
        bias == min_int(p.x as int, 0) * e.x + min_int(p.y as int, 0) * e.y + min_int(p.z as int, 0) * e.z,
    ensures
        i <= (p.x * (qx + i * p.x) + p.y * (qy + i * p.y) + p.z * (qz + i * p.z) - bias) / spacing,
        (p.x * (qx + i * p.x) + p.y * (qy + i * p.y) + p.z * (qz + i * p.z) - bias) / spacing
            <= i + (abs_int(p.x as int) * e.x + abs_int(p.y as int) * e.y + abs_int(p.z as int) * e.z) / spacing,
{
    lemma_window_term(p.x as int, e.x as int, qx);
    lemma_window_term(p.y as int, e.y as int, qy);
    lemma_window_term(p.z as int, e.z as int, qz);
    let d = (p.x * qx - min_int(p.x as int, 0) * e.x) + (p.y * qy - min_int(p.y as int, 0) * e.y) + (p.z * qz - min_int(p.z as int, 0) * e.z);
    let span_num = abs_int(p.x as int) * e.x + abs_int(p.y as int) * e.y + abs_int(p.z as int) * e.z;
    let off = p.x * (qx + i * p.x) + p.y * (qy + i * p.y) + p.z * (qz + i * p.z);
    let (px, py, pz) = (p.x as int, p.y as int, p.z as int);
    assert(px * (qx + i * px) == px * qx + i * (px * px)) by (nonlinear_arith);
    assert(py * (qy + i * py) == py * qy + i * (py * py)) by (nonlinear_arith);
    assert(pz * (qz + i * pz) == pz * qz + i * (pz * pz)) by (nonlinear_arith);
    assert(i * (px * px) + i * (py * py) + i * (pz * pz) == i * (px * px + py * py + pz * pz)) by (nonlinear_arith);
    assert(off - bias == d + i * spacing);
    assert(0 <= d <= span_num);
    vstd::arithmetic::div_mod::lemma_hoist_over_denominator(d, i, spacing as nat);
    vstd::arithmetic::div_mod::lemma_div_pos_is_pos(d, spacing);
    vstd::arithmetic::div_mod::lemma_div_is_ordered(d, span_num, spacing);
}

/// Division rounding down, for a positive divisor.
fn floor_div(a: i128, d: i128) -> (r: i128)
    requires
        d > 0,
        -0x4000_0000_0000_0000_0000 <= a <= 0x4000_0000_0000_0000_0000,
    ensures
        r as int == a as int / d as int,
        a >= 0 ==> 0 <= r <= a,
        a < 0 ==> a <= r < 0,
{
    proof {
        let ai = a as int;
        let di = d as int;
        vstd::arithmetic::div_mod::lemma_fundamental_div_mod(ai, di);
        let q = ai / di;
        let m = ai % di;
        assert(0 <= m < di);
        assert(ai == di * q + m);
        if ai >= 0 {
            assert(0 <= q <= ai) by (nonlinear_arith)
                requires ai == di * q + m, 0 <= m, m < di, di >= 1, ai >= 0;
        } else {
            assert(ai <= q < 0) by (nonlinear_arith)
                requires ai == di * q + m, 0 <= m, m < di, di >= 1, ai < 0;
        }
    }
    match a.checked_div_euclid(d) {
        Some(q) => q,
        None => 0,
    }
}

/// No component is the smallest `i32`.
pub open spec fn pos_in_range(p: BlockPos) -> bool {
    p.x > i32::MIN && p.y > i32::MIN && p.z > i32::MIN
}

} // verus!
