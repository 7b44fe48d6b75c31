//! The dungeon generator: rooms are laid out tier by tier on a grid of
//! blocks, written into the voxel map and connected by passages.
use crate::create_start::addressable;
use crate::create_start::create_start;
use crate::create_start::start_of;
use crate::key_order::lemma_u64_keys;
use crate::mst::kruskal_edges;
use crate::rng::gen_ratio;
use crate::room_connection::connect_all;
use crate::room_connection::connection_between;
use crate::room_connection::joins;
use crate::room_connection::lemma_all_pairs_join;
use crate::route_laws::connects;
use crate::route_laws::extends;
use crate::route_laws::floors_covered;
use crate::route_laws::is_passage_class;
use crate::route_laws::lemma_connects_extends;
use crate::route_laws::lemma_rooms_keep_passages;
use crate::route_laws::passages_within;
use crate::route_laws::stairs_clear;
use crate::voxel_map::class_at;
use crate::voxel_map::in_shell;
use crate::voxel_map::in_some_shell;
use crate::voxel_map::lemma_written_cells_are_shells;
use crate::voxel_map::shell;
use crate::voxel_map::lemma_written_rooms_are_disjoint;
use crate::voxel_map::no_wall_stored;
use crate::voxel_map::shell_class;
use crate::voxel_map::widen;
use crate::voxel_map::VoxelMap;
use std::collections::BTreeMap;
use crate::mst::spanning_edges;
use crate::passage::views_of;
use crate::passage::Passage;
use crate::passage::PassageSpec;
use crate::rng::gen_range_u32;
use crate::room_connection::all_pairs;
use crate::room_connection::normalized_pair;
use crate::room_connection::pair_key;
use crate::room_connection::RoomConnection;
use crate::voxel_map::passage_outcome;
use crate::voxel_map::with_rooms;
use crate::constants::VoxelType;
use crate::voxel_map::Cells;
use crate::voxel_map::Pos;
use crate::room::Room;
use crate::room::RoomId;
use crate::voxel_map::VoxelMapError;
use rand::rngs::StdRng;
use std::ops::RangeInclusive;
use vstd::prelude::*;

verus! {

/// The options of the generator.
pub struct Dungeon3DGeneratorConfig {
    /// Width of the entire dungeon (x axis).
    pub width: u32,
    /// Height of the entire dungeon (y axis).
    pub height: u32,
    /// Depth of the entire dungeon (z axis).
    pub depth: u32,
    /// Seed of the random generator; without one the generator is seeded
    /// from the system.
    pub seed: Option<u64>,
    /// The number of tiers stacked in y.
    pub room_hierarchy: u32,
    pub room_width_range: RangeInclusive<u32>,
    pub room_height_range: RangeInclusive<u32>,
    pub room_depth_range: RangeInclusive<u32>,
    pub room_margin_x: u32,
    pub room_margin_y: u32,
    pub room_margin_z: u32,
    /// The height of the corridors.
    pub passage_height: u32,
    /// How far below zero, on every axis, passages may be routed: the
    /// bounds of the voxel map reach from minus this margin to the size of
    /// the volume.
    pub margin_for_bounds: u32,
}

impl Default for Dungeon3DGeneratorConfig {
    /// A volume of 32 by 10 by 32 cells with three tiers of rooms.
    fn default() -> (c: Self)
        ensures
            c.width == 32,
            c.height == 10,
            c.depth == 32,
            c.seed is None,
            c.room_hierarchy == 3,
            c.room_width_range@.start == 5 && c.room_width_range@.end == 10,
            c.room_height_range@.start == 2 && c.room_height_range@.end == 2,
            c.room_depth_range@.start == 5 && c.room_depth_range@.end == 10,
            c.room_margin_x == 4,
            c.room_margin_y == 1,
            c.room_margin_z == 4,
            c.passage_height == 2,
            c.margin_for_bounds == 4,
    {
        Dungeon3DGeneratorConfig {
            width: 32,
            height: 10,
            depth: 32,
            seed: None,
            room_hierarchy: 3,
            room_width_range: RangeInclusive::new(5, 10),
            room_height_range: RangeInclusive::new(2, 2),
            room_depth_range: RangeInclusive::new(5, 10),
            room_margin_x: 4,
            room_margin_y: 1,
            room_margin_z: 4,
            passage_height: 2,
            margin_for_bounds: 4,
        }
    }
}

/// Why no dungeon was generated.
#[derive(Debug, Copy, Clone, PartialEq, Eq, Structural)]
pub enum Dungeon3DGeneratorError {
    /// Not even one room of the smallest width, with its margin, fits into
    /// the width.
    NarrowWidthOrRoomWidthTooLarge,
    /// Not even one room of the smallest depth, with its margin, fits into
    /// the depth.
    NarrowDepthOrRoomDepthTooLarge,
    /// The tiers, each as high as the lowest room with its margin, do not fit
    /// into the height.
    NarrowHeightOrRoomHierarchyTooSmall,
    /// The voxel map refused a room or a required passage.
    VoxelMapError(VoxelMapError),
}

/// A margin as the generator uses it: at least one.
pub open spec fn clamped(margin: u32) -> int {
    if margin < 1 {
        1
    } else {
        margin as int
    }
}

/// What the layout works with: the configuration with its margins clamped,
/// and how many blocks fit side by side at most.
pub struct Plan {
    pub width: u32,
    pub height: u32,
    pub depth: u32,
    pub tiers: u32,
    pub width_range: (u32, u32),
    pub height_range: (u32, u32),
    pub depth_range: (u32, u32),
    pub margin: (u32, u32, u32),
    /// The greatest number of blocks in x.
    pub columns_max: u32,
    /// The greatest number of blocks in z.
    pub rows_max: u32,
}

impl Dungeon3DGeneratorConfig {
    /// The inputs that the generator is made for: at least one tier, room
    /// sizes with the lower bound not above the upper, and a volume small
    /// enough for the rooms to be counted and addressed.
    pub open spec fn valid(&self) -> bool {
        &&& self.room_hierarchy >= 1
        &&& self.room_width_range@.start <= self.room_width_range@.end
        &&& self.room_height_range@.start <= self.room_height_range@.end
        &&& self.room_depth_range@.start <= self.room_depth_range@.end
        &&& self.room_hierarchy * self.width * self.depth < 0x4000_0000_0000_0000
        &&& self.width <= i32::MAX && self.height <= i32::MAX && self.depth <= i32::MAX
        &&& self.passage_height <= i32::MAX
    }

    /// The error that the configuration is rejected with, if any: the width
    /// is checked first, then the depth, then the height.
    pub open spec fn rejection(&self) -> Option<Dungeon3DGeneratorError> {
        if (self.width as int) / (self.room_width_range@.start + clamped(self.room_margin_x)) == 0 {
            Some(Dungeon3DGeneratorError::NarrowWidthOrRoomWidthTooLarge)
        } else if (self.depth as int) / (self.room_depth_range@.start + clamped(self.room_margin_z)) == 0 {
            Some(Dungeon3DGeneratorError::NarrowDepthOrRoomDepthTooLarge)
        } else if self.room_hierarchy * (self.room_height_range@.start + clamped(
            self.room_margin_y,
        )) > self.height {
            Some(Dungeon3DGeneratorError::NarrowHeightOrRoomHierarchyTooSmall)
        } else {
            None
        }
    }

    /// The plan of an accepted configuration.
    pub open spec fn plan(&self) -> Plan {
        Plan {
            width: self.width,
            height: self.height,
            depth: self.depth,
            tiers: self.room_hierarchy,
            width_range: (self.room_width_range@.start, self.room_width_range@.end),
            height_range: (self.room_height_range@.start, self.room_height_range@.end),
            depth_range: (self.room_depth_range@.start, self.room_depth_range@.end),
            margin: (
                clamped(self.room_margin_x) as u32,
                clamped(self.room_margin_y) as u32,
                clamped(self.room_margin_z) as u32,
            ),
            columns_max: ((self.width as int) / (self.room_width_range@.start + clamped(
                self.room_margin_x,
            ))) as u32,
            rows_max: ((self.depth as int) / (self.room_depth_range@.start + clamped(
                self.room_margin_z,
            ))) as u32,
        }
    }

    /// Checks the configuration and works out the plan for the layout.
    pub fn validate(&self) -> (r: Result<Plan, Dungeon3DGeneratorError>)
        requires
            self.valid(),
        ensures
            match r {
                Ok(plan) => self.rejection() is None && plan == self.plan() && plan.wf(),
                Err(e) => self.rejection() == Some(e),
            },
    {
        let margin_x: u32 = if self.room_margin_x < 1 {
            1
        } else {
            self.room_margin_x
        };
        let margin_y: u32 = if self.room_margin_y < 1 {
            1
        } else {
            self.room_margin_y
        };
        let margin_z: u32 = if self.room_margin_z < 1 {
            1
        } else {
            self.room_margin_z
        };
        let width_min: u32 = *self.room_width_range.start();
        let height_min: u32 = *self.room_height_range.start();
        let depth_min: u32 = *self.room_depth_range.start();
        let columns_max: u64 = self.width as u64 / (width_min as u64 + margin_x as u64);
        if columns_max == 0 {
            return Err(Dungeon3DGeneratorError::NarrowWidthOrRoomWidthTooLarge);
        }
        let rows_max: u64 = self.depth as u64 / (depth_min as u64 + margin_z as u64);
        if rows_max == 0 {
            return Err(Dungeon3DGeneratorError::NarrowDepthOrRoomDepthTooLarge);
        }
        let piece: u128 = height_min as u128 + margin_y as u128;
        assert(self.room_hierarchy as u128 * piece <= 0xffff_ffff * 0x2_0000_0000)
            by (nonlinear_arith)
            requires
                self.room_hierarchy <= 0xffff_ffff,
                0 <= piece <= 0x2_0000_0000,
        ;
        if self.room_hierarchy as u128 * piece > self.height as u128 {
            return Err(Dungeon3DGeneratorError::NarrowHeightOrRoomHierarchyTooSmall);
        }
        let plan = Plan {
            width: self.width,
            height: self.height,
            depth: self.depth,
            tiers: self.room_hierarchy,
            width_range: (width_min, *self.room_width_range.end()),
            height_range: (height_min, *self.room_height_range.end()),
            depth_range: (depth_min, *self.room_depth_range.end()),
            margin: (margin_x, margin_y, margin_z),
            columns_max: columns_max as u32,
            rows_max: rows_max as u32,
        };
        proof {
            lemma_block_holds_room(
                self.height as int,
                self.room_hierarchy as int,
                height_min + margin_y,
            );
            assert(self.room_hierarchy * columns_max * rows_max <= self.room_hierarchy
                * self.width * self.depth) by (nonlinear_arith)
                requires
                    0 <= columns_max <= self.width,
                    0 <= rows_max <= self.depth,
                    0 <= self.room_hierarchy,
            ;
        }
        Ok(plan)
    }
}

/// If `count` pieces of the size `piece` fit into `whole`, then `whole`
/// divided into `count` blocks gives blocks that hold a piece each.
pub proof fn lemma_block_holds_room(whole: int, count: int, piece: int)
    requires
        count >= 1,
        piece >= 0,
        count * piece <= whole,
    ensures
        whole / count >= piece,
{
    assert(whole / count >= piece) by (nonlinear_arith)
        requires
            count >= 1,
            piece >= 0,
            count * piece <= whole,
    ;
}

/// A division into at most `whole / piece` blocks gives blocks that hold a
/// piece each.
pub proof fn lemma_fewer_blocks_hold_room(whole: int, count: int, piece: int)
    requires
        piece >= 1,
        1 <= count <= whole / piece,
    ensures
        whole / count >= piece,
{
    assert(count * piece <= whole) by (nonlinear_arith)
        requires
            piece >= 1,
            1 <= count <= whole / piece,
    ;
    lemma_block_holds_room(whole, count, piece);
}

/// The block with the index `index` of `count` blocks ends inside the whole.
pub proof fn lemma_block_inside(whole: int, count: int, index: int)
    requires
        count >= 1,
        0 <= index < count,
        whole >= 0,
    ensures
        0 <= index * (whole / count),
        index * (whole / count) + whole / count <= whole,
{
    assert(index * (whole / count) + whole / count <= whole && 0 <= index * (whole / count))
        by (nonlinear_arith)
        requires
            count >= 1,
            0 <= index < count,
            whole >= 0,
    ;
}

impl Plan {
    /// The plan of an accepted configuration: no size range is empty, every
    /// margin is at least one, at least one
    /// block fits in x and in z and all tiers fit in y, each with room for
    /// the smallest room and its margin.
    pub open spec fn wf(&self) -> bool {
        &&& self.tiers >= 1
        &&& self.width_range.0 <= self.width_range.1
        &&& self.height_range.0 <= self.height_range.1
        &&& self.depth_range.0 <= self.depth_range.1
        &&& self.margin.0 >= 1 && self.margin.1 >= 1 && self.margin.2 >= 1
        &&& 1 <= self.columns_max <= (self.width as int) / (self.width_range.0 + self.margin.0)
        &&& 1 <= self.rows_max <= (self.depth as int) / (self.depth_range.0 + self.margin.2)
        &&& (self.height as int) / (self.tiers as int) >= self.height_range.0 + self.margin.1
        &&& self.tiers * self.columns_max * self.rows_max < 0x4000_0000_0000_0000
    }

    /// The room lies inside the volume and its size is within the ranges.
    pub open spec fn admits(&self, room: Room) -> bool {
        &&& self.width_range.0 <= room.width <= self.width_range.1
        &&& self.height_range.0 <= room.height <= self.height_range.1
        &&& self.depth_range.0 <= room.depth <= self.depth_range.1
        &&& room.origin.0 + room.width + self.margin.0 <= self.width
        &&& room.origin.1 + room.height + self.margin.1 <= self.height
        &&& room.origin.2 + room.depth + self.margin.2 <= self.depth
    }
}

/// A block of the grid that one room is placed in.
#[derive(Copy, Clone, Debug)]
pub struct Block {
    pub origin: (u32, u32, u32),
    pub size: (u32, u32, u32),
}

/// The room with the given size at the given offset inside the block.
///
/// The room and its margin must fit into the block at that offset.
pub fn room_in_block(
    id: RoomId,
    block: &Block,
    size: (u32, u32, u32),
    offset: (u32, u32, u32),
    margin: (u32, u32, u32),
) -> (room: Room)
    requires
        offset.0 + size.0 + margin.0 <= block.size.0,
        offset.1 + size.1 + margin.1 <= block.size.1,
        offset.2 + size.2 + margin.2 <= block.size.2,
        block.origin.0 + block.size.0 <= u32::MAX,
        block.origin.1 + block.size.1 <= u32::MAX,
        block.origin.2 + block.size.2 <= u32::MAX,
    ensures
        room.id == id,
        room.width == size.0 && room.height == size.1 && room.depth == size.2,
        room.origin.0 == block.origin.0 + offset.0,
        room.origin.1 == block.origin.1 + offset.1,
        room.origin.2 == block.origin.2 + offset.2,
        room.origin.0 + room.width + margin.0 <= block.origin.0 + block.size.0,
        room.origin.1 + room.height + margin.1 <= block.origin.1 + block.size.1,
        room.origin.2 + room.depth + margin.2 <= block.origin.2 + block.size.2,
{
    Room::new(
        id,
        size.0,
        size.1,
        size.2,
        (block.origin.0 + offset.0, block.origin.1 + offset.1, block.origin.2 + offset.2),
    )
}

/// The smaller of two numbers.
fn smaller(a: u32, b: u32) -> (m: u32)
    ensures
        m <= a,
        m <= b,
        m == a || m == b,
{
    if a < b {
        a
    } else {
        b
    }
}

/// Draws a room for the block: a size within the ranges that leaves room for
/// the margin, and an offset that keeps the room and its margin inside the
/// block.
pub fn draw_room(plan: &Plan, rng: &mut StdRng, id: RoomId, block: &Block) -> (room: Room)
    requires
        plan.wf(),
        block.size.0 >= plan.width_range.0 + plan.margin.0,
        block.size.1 >= plan.height_range.0 + plan.margin.1,
        block.size.2 >= plan.depth_range.0 + plan.margin.2,
        block.origin.0 + block.size.0 <= plan.width,
        block.origin.1 + block.size.1 <= plan.height,
        block.origin.2 + block.size.2 <= plan.depth,
    ensures
        room.id == id,
        plan.admits(room),
        block.origin.0 <= room.origin.0,
        block.origin.1 <= room.origin.1,
        block.origin.2 <= room.origin.2,
        room.origin.0 + room.width + plan.margin.0 <= block.origin.0 + block.size.0,
        room.origin.1 + room.height + plan.margin.1 <= block.origin.1 + block.size.1,
        room.origin.2 + room.depth + plan.margin.2 <= block.origin.2 + block.size.2,
{
    let width = gen_range_u32(
        rng,
        plan.width_range.0,
        smaller(block.size.0 - plan.margin.0, plan.width_range.1),
    );
    let height = gen_range_u32(
        rng,
        plan.height_range.0,
        smaller(block.size.1 - plan.margin.1, plan.height_range.1),
    );
    let depth = gen_range_u32(
        rng,
        plan.depth_range.0,
        smaller(block.size.2 - plan.margin.2, plan.depth_range.1),
    );
    let x = gen_range_u32(rng, 0, block.size.0 - width - plan.margin.0);
    let y = gen_range_u32(rng, 0, block.size.1 - height - plan.margin.1);
    let z = gen_range_u32(rng, 0, block.size.2 - depth - plan.margin.2);
    room_in_block(id, block, (width, height, depth), (x, y, z), plan.margin)
}

/// The shell of `a` ends before the shell of `b` begins: in x, in z, or in
/// y, where the shell of `b` begins with the floor beneath it.
pub open spec fn clear_of(a: Room, b: Room) -> bool {
    ||| a.origin.0 + a.width <= b.origin.0
    ||| a.origin.2 + a.depth <= b.origin.2
    ||| a.origin.1 + a.height < b.origin.1
}

/// Every room is clear of every later room.
pub open spec fn all_clear(rooms: Seq<Room>) -> bool {
    forall|i: int, j: int| 0 <= i < j < rooms.len() ==> clear_of(#[trigger] rooms[i], #[trigger] rooms[j])
}

/// The room, with its margin, ends at or before the given limits: in y at
/// `below`; or in y at `tier` and in x at `left`; or in y at `tier`, in x
/// at `column` and in z at `front`.
pub open spec fn placed_before(
    room: Room,
    margin: (u32, u32, u32),
    below: int,
    tier: int,
    left: int,
    column: int,
    front: int,
) -> bool {
    ||| room.origin.1 + room.height + margin.1 <= below
    ||| room.origin.1 + room.height + margin.1 <= tier && room.origin.0 + room.width + margin.0
        <= left
    ||| room.origin.1 + room.height + margin.1 <= tier && room.origin.0 + room.width + margin.0
        <= column && room.origin.2 + room.depth + margin.2 <= front
}

/// Rooms of which each is clear of every later one share no cell.
pub proof fn lemma_clear_rooms_do_not_meet(a: Room, b: Room)
    requires
        clear_of(a, b),
    ensures
        forall|p: Pos| !(in_shell(a, p) && in_shell(b, p)),
{
}

/// Rooms of which each is clear of every later one can all be written into
/// an empty map.
pub proof fn lemma_clear_rooms_fit(rooms: Seq<Room>)
    requires
        all_clear(rooms),
    ensures
        with_rooms(Map::empty(), rooms) is Some,
        forall|p: Pos| #[trigger]
            with_rooms(Map::empty(), rooms)->0.contains_key(p) ==> exists|i: int|
                0 <= i < rooms.len() && in_shell(#[trigger] rooms[i], p),
    decreases rooms.len(),
{
    let nothing: Cells = Map::empty();
    if rooms.len() > 0 {
        let front = rooms.drop_last();
        let last = rooms.last();
        assert forall|i: int, j: int| 0 <= i < j < front.len() implies clear_of(
            #[trigger] front[i],
            #[trigger] front[j],
        ) by {
            assert(front[i] == rooms[i] && front[j] == rooms[j]);
        }
        lemma_clear_rooms_fit(front);
        let before = with_rooms(nothing, front)->0;
        assert forall|p: Pos| in_shell(last, p) implies !#[trigger] before.contains_key(p) by {
            if before.contains_key(p) {
                let i = choose|i: int| 0 <= i < front.len() && in_shell(#[trigger] front[i], p);
                assert(front[i] == rooms[i]);
                assert(clear_of(rooms[i], rooms[rooms.len() - 1]));
                lemma_clear_rooms_do_not_meet(rooms[i], last);
            }
        }
        let after = before.union_prefer_right(shell(last));
        assert forall|p: Pos| #[trigger] after.contains_key(p) implies exists|i: int|
            0 <= i < rooms.len() && in_shell(#[trigger] rooms[i], p) by {
            if in_shell(last, p) {
                assert(in_shell(rooms[rooms.len() - 1], p));
            } else {
                assert(before.contains_key(p));
                let i = choose|i: int| 0 <= i < front.len() && in_shell(#[trigger] front[i], p);
                assert(front[i] == rooms[i]);
            }
        }
    }
}

/// Lays out the rooms: every tier is divided into a random number of
/// columns, every column into a random number of blocks, and every block
/// gets one room of random size at a random place inside it.
///
/// The rooms come in the order of their identifiers, which count up from
/// the first identifier. No two of them meet, not even with their margins.
pub fn layout_rooms(plan: &Plan, rng: &mut StdRng) -> (rooms: Vec<Room>)
    requires
        plan.wf(),
    ensures
        rooms@.len() >= plan.tiers,
        forall|i: int| 0 <= i < rooms@.len() ==> plan.admits(#[trigger] rooms@[i]),
        forall|i: int| 0 <= i < rooms@.len() ==> (#[trigger] rooms@[i]).id.spec_inner() == i + 1,
        all_clear(rooms@),
{
    let mut room_id = RoomId::first();
    let mut rooms: Vec<Room> = Vec::new();
    let tier_height: u32 = plan.height / plan.tiers;
    let ghost per_tier: int = plan.columns_max * plan.rows_max;
    let ghost th = tier_height as int;
    let mut ry: u32 = 0;
    proof {
        assert(plan.tiers * per_tier == plan.tiers * plan.columns_max * plan.rows_max)
            by (nonlinear_arith)
            requires
                per_tier == plan.columns_max * plan.rows_max,
        ;
        assert(0 * per_tier == 0);
        assert(0 * th == 0);
    }
    while ry < plan.tiers
        invariant
            plan.wf(),
            tier_height == plan.height / plan.tiers,
            th == tier_height,
            per_tier == plan.columns_max * plan.rows_max,
            plan.tiers * per_tier < 0x4000_0000_0000_0000,
            ry <= plan.tiers,
            ry <= rooms@.len() <= ry * per_tier,
            room_id.spec_inner() == rooms@.len() + 1,
            forall|i: int| 0 <= i < rooms@.len() ==> plan.admits(#[trigger] rooms@[i]),
            forall|i: int|
                0 <= i < rooms@.len() ==> (#[trigger] rooms@[i]).id.spec_inner() == i + 1,
            all_clear(rooms@),
            forall|i: int|
                0 <= i < rooms@.len() ==> (#[trigger] rooms@[i]).origin.1 + rooms@[i].height
                    + plan.margin.1 <= ry * th,
        decreases plan.tiers - ry,
    {
        let columns = gen_range_u32(rng, 1, plan.columns_max);
        let column_width: u32 = plan.width / columns;
        let ghost tier_start = rooms@.len() as int;
        let ghost below = ry * th;
        let ghost cw = column_width as int;
        proof {
            lemma_fewer_blocks_hold_room(
                plan.width as int,
                columns as int,
                plan.width_range.0 + plan.margin.0,
            );
            lemma_block_inside(plan.height as int, plan.tiers as int, ry as int);
            assert(ry * per_tier + per_tier <= plan.tiers * per_tier) by (nonlinear_arith)
                requires
                    ry < plan.tiers,
                    per_tier >= 0,
            ;
            assert(0 * plan.rows_max == 0);
            assert(0 * cw == 0);
        }
        let mut rx: u32 = 0;
        while rx < columns
            invariant
                plan.wf(),
                tier_height == plan.height / plan.tiers,
                th == tier_height,
                cw == column_width,
                below == ry * th,
                per_tier == plan.columns_max * plan.rows_max,
                plan.tiers * per_tier < 0x4000_0000_0000_0000,
                ry < plan.tiers,
                ry * per_tier + per_tier <= plan.tiers * per_tier,
                1 <= columns <= plan.columns_max,
                column_width == plan.width / columns,
                column_width >= plan.width_range.0 + plan.margin.0,
                tier_height >= plan.height_range.0 + plan.margin.1,
                ry * tier_height + tier_height <= plan.height,
                0 <= ry * tier_height,
                rx <= columns,
                ry <= tier_start <= ry * per_tier,
                tier_start + (if rx > 0 { 1int } else { 0int }) <= rooms@.len() <= tier_start + rx
                    * plan.rows_max,
                room_id.spec_inner() == rooms@.len() + 1,
                forall|i: int| 0 <= i < rooms@.len() ==> plan.admits(#[trigger] rooms@[i]),
                forall|i: int|
                    0 <= i < rooms@.len() ==> (#[trigger] rooms@[i]).id.spec_inner() == i + 1,
                all_clear(rooms@),
                forall|i: int|
                    0 <= i < rooms@.len() ==> placed_before(
                        #[trigger] rooms@[i],
                        plan.margin,
                        below,
                        below + th,
                        rx * cw,
                        rx * cw,
                        0,
                    ),
            decreases columns - rx,
        {
            let rows = gen_range_u32(rng, 1, plan.rows_max);
            let row_depth: u32 = plan.depth / rows;
            let ghost column_start = rooms@.len() as int;
            let ghost left = rx * cw;
            let ghost rd = row_depth as int;
            proof {
                lemma_fewer_blocks_hold_room(
                    plan.depth as int,
                    rows as int,
                    plan.depth_range.0 + plan.margin.2,
                );
                lemma_block_inside(plan.width as int, columns as int, rx as int);
                assert(rx * plan.rows_max + plan.rows_max <= plan.columns_max * plan.rows_max)
                    by (nonlinear_arith)
                    requires
                        rx < plan.columns_max,
                        plan.rows_max >= 0,
                ;
                assert(0 * rd == 0);
            }
            let mut rz: u32 = 0;
            while rz < rows
                invariant
                    plan.wf(),
                    th == tier_height,
                    cw == column_width,
                    rd == row_depth,
                    below == ry * th,
                    left == rx * cw,
                    per_tier == plan.columns_max * plan.rows_max,
                    plan.tiers * per_tier < 0x4000_0000_0000_0000,
                    ry * per_tier + per_tier <= plan.tiers * per_tier,
                    tier_start <= ry * per_tier,
                    rx * plan.rows_max + plan.rows_max <= per_tier,
                    column_width >= plan.width_range.0 + plan.margin.0,
                    tier_height >= plan.height_range.0 + plan.margin.1,
                    row_depth >= plan.depth_range.0 + plan.margin.2,
                    row_depth == plan.depth / rows,
                    1 <= rows <= plan.rows_max,
                    rz <= rows,
                    ry * tier_height + tier_height <= plan.height,
                    0 <= ry * tier_height,
                    rx * column_width + column_width <= plan.width,
                    0 <= rx * column_width,
                    column_start <= tier_start + rx * plan.rows_max,
                    rooms@.len() == column_start + rz,
                    room_id.spec_inner() == rooms@.len() + 1,
                    forall|i: int| 0 <= i < rooms@.len() ==> plan.admits(#[trigger] rooms@[i]),
                    forall|i: int|
                        0 <= i < rooms@.len() ==> (#[trigger] rooms@[i]).id.spec_inner() == i + 1,
                    all_clear(rooms@),
                    forall|i: int|
                        0 <= i < rooms@.len() ==> placed_before(
                            #[trigger] rooms@[i],
                            plan.margin,
                            below,
                            below + th,
                            left,
                            left + cw,
                            rz * rd,
                        ),
                decreases rows - rz,
            {
                proof {
                    lemma_block_inside(plan.depth as int, rows as int, rz as int);
                }
                let block = Block {
                    origin: (rx * column_width, ry * tier_height, rz * row_depth),
                    size: (column_width, tier_height, row_depth),
                };
                let id = room_id.gen_id();
                let room = draw_room(plan, rng, id, &block);
                let ghost before = rooms@;
                rooms.push(room);
                rz = rz + 1;
                proof {
                    assert(rz * rd == (rz - 1) * rd + rd) by (nonlinear_arith);
                    assert forall|i: int, j: int| 0 <= i < j < rooms@.len() implies clear_of(
                        #[trigger] rooms@[i],
                        #[trigger] rooms@[j],
                    ) by {
                        if j < before.len() {
                            assert(clear_of(before[i], before[j]));
                        } else {
                            assert(placed_before(
                                before[i],
                                plan.margin,
                                below,
                                below + th,
                                left,
                                left + cw,
                                (rz - 1) * rd,
                            ));
                        }
                    }
                    assert forall|i: int| 0 <= i < rooms@.len() implies placed_before(
                        #[trigger] rooms@[i],
                        plan.margin,
                        below,
                        below + th,
                        left,
                        left + cw,
                        rz * rd,
                    ) by {
                        if i < before.len() {
                            assert(placed_before(
                                before[i],
                                plan.margin,
                                below,
                                below + th,
                                left,
                                left + cw,
                                (rz - 1) * rd,
                            ));
                        }
                    }
                }
            }
            rx = rx + 1;
            proof {
                assert(rx * plan.rows_max == (rx - 1) * plan.rows_max + plan.rows_max)
                    by (nonlinear_arith);
                assert(rx * cw == (rx - 1) * cw + cw) by (nonlinear_arith);
                assert forall|i: int| 0 <= i < rooms@.len() implies placed_before(
                    #[trigger] rooms@[i],
                    plan.margin,
                    below,
                    below + th,
                    rx * cw,
                    rx * cw,
                    0,
                ) by {
                    assert(placed_before(
                        rooms@[i],
                        plan.margin,
                        below,
                        below + th,
                        left,
                        left + cw,
                        rz * rd,
                    ));
                }
            }
        }
        ry = ry + 1;
        proof {
            assert(columns * plan.rows_max <= per_tier) by (nonlinear_arith)
                requires
                    columns <= plan.columns_max,
                    plan.rows_max >= 0,
                    per_tier == plan.columns_max * plan.rows_max,
            ;
            assert(ry * per_tier == (ry - 1) * per_tier + per_tier) by (nonlinear_arith);
            assert(ry * th == (ry - 1) * th + th) by (nonlinear_arith);
            assert forall|i: int| 0 <= i < rooms@.len() implies (#[trigger] rooms@[i]).origin.1
                + rooms@[i].height + plan.margin.1 <= ry * th by {
                assert(placed_before(
                    rooms@[i],
                    plan.margin,
                    below,
                    below + th,
                    rx * cw,
                    rx * cw,
                    0,
                ));
            }
        }
    }
    rooms
}

/// The pair `a` comes before the pair `b`: by the first number, then by the
/// second.
pub open spec fn pair_before(a: (u64, u64), b: (u64, u64)) -> bool {
    a.0 < b.0 || (a.0 == b.0 && a.1 < b.1)
}

/// The ordered pairs `keys` with `k` put in its place, if it is not there.
pub open spec fn inserted(keys: Seq<(u64, u64)>, k: (u64, u64)) -> Seq<(u64, u64)>
    decreases keys.len(),
{
    if keys.len() == 0 {
        seq![k]
    } else if pair_before(keys.last(), k) {
        keys.push(k)
    } else if keys.last() == k {
        keys
    } else {
        inserted(keys.drop_last(), k).push(keys.last())
    }
}

/// The pairs that the edges of the spanning tree connect, each with the
/// smaller number first, in ascending order and each once: the connections
/// that must get a passage, in the order in which they get it.
pub open spec fn required_keys(tree: Seq<(u64, u64, u64)>) -> Seq<(u64, u64)>
    decreases tree.len(),
{
    if tree.len() == 0 {
        Seq::empty()
    } else {
        inserted(required_keys(tree.drop_last()), pair_key((tree.last().0, tree.last().1)))
    }
}

/// Every pair of `keys` satisfies `pred`.
pub open spec fn all_pairs_satisfy(keys: Seq<(u64, u64)>, pred: spec_fn((u64, u64)) -> bool) -> bool {
    forall|i: int| 0 <= i < keys.len() ==> pred(#[trigger] keys[i])
}

/// What holds of all pairs and of the new pair holds of all pairs after the
/// new pair was put in.
pub proof fn lemma_inserted_satisfy(
    keys: Seq<(u64, u64)>,
    k: (u64, u64),
    pred: spec_fn((u64, u64)) -> bool,
)
    requires
        all_pairs_satisfy(keys, pred),
        pred(k),
    ensures
        all_pairs_satisfy(inserted(keys, k), pred),
    decreases keys.len(),
{
    if keys.len() == 0 {
    } else if pair_before(keys.last(), k) {
    } else if keys.last() == k {
    } else {
        let front = keys.drop_last();
        assert forall|i: int| 0 <= i < front.len() implies pred(#[trigger] front[i]) by {
            assert(front[i] == keys[i]);
        }
        lemma_inserted_satisfy(front, k, pred);
        assert(pred(keys[keys.len() - 1]));
    }
}

/// Puts the pair in its place among the ordered pairs, if it is not there.
pub fn insert_pair(keys: &mut Vec<(u64, u64)>, k: (u64, u64))
    ensures
        final(keys)@ == inserted(old(keys)@, k),
{
    let ghost before = keys@;
    let mut at: usize = keys.len();
    let ghost mut tail: Seq<(u64, u64)> = Seq::empty();
    proof {
        assert(before.subrange(0, at as int) =~= before);
    }
    loop
        invariant
            before == old(keys)@,
            keys@ == before,
            at <= before.len(),
            tail == before.subrange(at as int, before.len() as int),
            inserted(before, k) == inserted(before.subrange(0, at as int), k) + tail,
        decreases at,
    {
        let ghost front = before.subrange(0, at as int);
        if at == 0 {
            keys.insert(0, k);
            proof {
                assert(front =~= Seq::<(u64, u64)>::empty());
                assert(keys@ =~= seq![k] + tail);
            }
            return ;
        }
        let last = keys[at - 1];
        proof {
            assert(front.last() == last);
        }
        if last.0 < k.0 || (last.0 == k.0 && last.1 < k.1) {
            keys.insert(at, k);
            proof {
                assert(keys@ =~= front.push(k) + tail);
            }
            return ;
        }
        if last.0 == k.0 && last.1 == k.1 {
            proof {
                assert(keys@ =~= front + tail);
            }
            return ;
        }
        proof {
            let shorter = before.subrange(0, at - 1);
            assert(front.drop_last() =~= shorter);
            assert(inserted(front, k) == inserted(shorter, k).push(last));
            let longer = before.subrange(at - 1, before.len() as int);
            assert(longer =~= seq![last] + tail);
            assert(inserted(shorter, k).push(last) + tail =~= inserted(shorter, k) + longer);
            tail = longer;
        }
        at = at - 1;
    }
}

/// The connections that must get a passage, from the edges of the spanning
/// tree.
pub fn required_pairs(tree: &Vec<(u64, u64, u64)>) -> (keys: Vec<(u64, u64)>)
    ensures
        keys@ == required_keys(tree@),
{
    let mut keys: Vec<(u64, u64)> = Vec::new();
    let mut i: usize = 0;
    proof {
        assert(tree@.subrange(0, 0) =~= Seq::<(u64, u64, u64)>::empty());
    }
    while i < tree.len()
        invariant
            i <= tree@.len(),
            keys@ == required_keys(tree@.subrange(0, i as int)),
        decreases tree@.len() - i,
    {
        proof {
            assert(tree@.subrange(0, i + 1).drop_last() =~= tree@.subrange(0, i as int));
            assert(tree@.subrange(0, i + 1).last() == tree@[i as int]);
        }
        let edge = tree[i];
        insert_pair(&mut keys, normalized_pair((edge.0, edge.1)));
        i = i + 1;
    }
    proof {
        assert(tree@.subrange(0, tree@.len() as int) =~= tree@);
    }
    keys
}

/// Whether the pair is among the pairs.
pub fn has_pair(keys: &Vec<(u64, u64)>, k: (u64, u64)) -> (r: bool)
    ensures
        r == keys@.contains(k),
{
    let mut i: usize = 0;
    while i < keys.len()
        invariant
            i <= keys@.len(),
            forall|j: int| 0 <= j < i ==> keys@[j] != k,
        decreases keys@.len() - i,
    {
        let at = keys[i];
        if at.0 == k.0 && at.1 == k.1 {
            return true;
        }
        i = i + 1;
    }
    false
}

/// The identifiers of the rooms count up from one in the order of the rooms.
pub open spec fn ids_in_order(rooms: Seq<Room>) -> bool {
    forall|i: int| 0 <= i < rooms.len() ==> (#[trigger] rooms[i]).id.spec_inner() == i + 1
}

/// The rooms by the numbers of their identifiers.
pub open spec fn table_of(rooms: Seq<Room>) -> Map<u64, Room> {
    Map::new(|id: u64| 1 <= id <= rooms.len(), |id: u64| rooms[id - 1])
}

/// Both numbers of the pair are numbers of rooms.
pub open spec fn names_rooms(rooms: Seq<Room>, pair: (u64, u64)) -> bool {
    1 <= pair.0 <= rooms.len() && 1 <= pair.1 <= rooms.len()
}

/// `names_rooms` as a property of pairs.
pub open spec fn naming(rooms: Seq<Room>) -> spec_fn((u64, u64)) -> bool {
    |pair: (u64, u64)| names_rooms(rooms, pair)
}

/// The boundary point recorded for the pair of rooms, if there is one.
pub open spec fn hit_of(hits: Map<(u64, u64), (i32, i32)>, pair: (u64, u64)) -> Option<
    (i32, i32),
> {
    if hits.contains_key(pair) {
        Some(hits[pair])
    } else {
        None
    }
}

/// Where the passages are built: the bounds of the map, the rooms, the
/// boundary points that the start picker found and the height of the
/// corridors.
pub struct Site {
    pub lower: Pos,
    pub upper: Pos,
    pub rooms: Seq<Room>,
    pub hits: Map<(u64, u64), (i32, i32)>,
    pub height: i32,
}

/// The passage between the two rooms of the pair.
pub open spec fn passage_between(
    rooms: Seq<Room>,
    hits: Map<(u64, u64), (i32, i32)>,
    pair: (u64, u64),
    height: i32,
) -> PassageSpec {
    let s = start_of(rooms[pair.0 - 1], rooms[pair.1 - 1], hit_of(hits, pair));
    PassageSpec {
        cells: Seq::empty(),
        start: s.2,
        start_dirs: s.3,
        start_room_id: s.0,
        end_room_id: s.1,
        height,
    }
}

/// The passage between the two rooms of the pair, on the site.
pub open spec fn passage_for(site: Site, pair: (u64, u64)) -> PassageSpec {
    passage_between(site.rooms, site.hits, pair, site.height)
}

/// The classification after the passages of all pairs were carved one after
/// the other, or the error of the first that could not be carved.
pub open spec fn routed_all(site: Site, cells: Cells, pairs: Seq<(u64, u64)>) -> Result<
    Cells,
    VoxelMapError,
>
    decreases pairs.len(),
{
    if pairs.len() == 0 {
        Ok(cells)
    } else {
        match routed_all(site, cells, pairs.drop_last()) {
            Err(e) => Err(e),
            Ok(before) => {
                let outcome = passage_outcome(
                    before,
                    site.lower,
                    site.upper,
                    passage_for(site, pairs.last()),
                    table_of(site.rooms),
                );
                match outcome.0 {
                    Ok(_) => Ok(outcome.1),
                    Err(e) => Err(e),
                }
            },
        }
    }
}

/// The passages of the pairs, in order.
pub open spec fn passages_for(site: Site, pairs: Seq<(u64, u64)>) -> Seq<PassageSpec> {
    pairs.map_values(|pair: (u64, u64)| passage_for(site, pair))
}

/// The classification and the passages after the optional connections were
/// tried, one after the other.
///
/// A connection is tried when its coin shows `true` and it is not among the
/// required ones. If its passage can be carved it is carved and recorded;
/// if not, nothing changes.
pub open spec fn routed_extra(
    site: Site,
    start: (Cells, Seq<PassageSpec>),
    required: Seq<(u64, u64)>,
    extras: Seq<(u64, u64)>,
    flips: Seq<bool>,
) -> (Cells, Seq<PassageSpec>)
    decreases extras.len(),
{
    if extras.len() == 0 || flips.len() == 0 {
        start
    } else {
        let before = routed_extra(site, start, required, extras.drop_last(), flips.drop_last());
        if flips.last() && !required.contains(pair_key(extras.last())) {
            let passage = passage_for(site, extras.last());
            let outcome = passage_outcome(
                before.0,
                site.lower,
                site.upper,
                passage,
                table_of(site.rooms),
            );
            if outcome.0 is Ok {
                (outcome.1, before.1.push(passage))
            } else {
                before
            }
        } else {
            before
        }
    }
}

/// The connections as weighted edges.
pub open spec fn edges_of(connections: Seq<RoomConnection>) -> Seq<(u64, u64, u64)> {
    connections.map_values(|c: RoomConnection| c.spec_edge())
}

/// The site of a configuration: the bounds reach from the margin below zero
/// to the size of the volume.
pub open spec fn site_of(
    config: &Dungeon3DGeneratorConfig,
    rooms: Seq<Room>,
    hits: Map<(u64, u64), (i32, i32)>,
) -> Site {
    Site {
        lower: (
            (0 - config.margin_for_bounds) as i64,
            (0 - config.margin_for_bounds) as i64,
            (0 - config.margin_for_bounds) as i64,
        ),
        upper: (config.width as i64, config.height as i64, config.depth as i64),
        rooms,
        hits,
        height: config.passage_height as i32,
    }
}

/// What the generator makes of the rooms, given how the coins of the
/// optional connections fell: the classification and the passages, or the
/// error that ended the generation.
///
/// The rooms are written first. The connections of the minimum spanning
/// tree over the squared distances between the rooms' centres are required:
/// each must get its passage. The optional connections are tried after that.
pub open spec fn generated(site: Site, extras: Seq<(u64, u64)>, flips: Seq<bool>) -> Result<
    (Cells, Seq<PassageSpec>),
    Dungeon3DGeneratorError,
> {
    match with_rooms(Map::empty(), site.rooms) {
        None => Err(Dungeon3DGeneratorError::VoxelMapError(VoxelMapError::Conflict)),
        Some(with_shells) => {
            let required = required_keys(spanning_edges(edges_of(all_pairs(site.rooms))));
            match routed_all(site, with_shells, required) {
                Err(e) => Err(Dungeon3DGeneratorError::VoxelMapError(e)),
                Ok(with_required) => Ok(
                    routed_extra(
                        site,
                        (with_required, passages_for(site, required)),
                        required,
                        extras,
                        flips,
                    ),
                ),
            }
        },
    }
}

/// An optional connection is tried with the chance of this numerator in the
/// denominator below: three in ten.
pub const OPTIONAL_CHANCE_NUMERATOR: u32 = 3;

/// The denominator of the chance with which an optional connection is tried.
pub const OPTIONAL_CHANCE_DENOMINATOR: u32 = 10;

/// Pairs of numbers are ordered as the ordered maps need them to be.
pub open spec fn pairs_ordered() -> bool {
    vstd::laws_cmp::obeys_cmp::<(u64, u64)>()
}

/// Pairs of numbers are ordered as the ordered maps need them to be.
pub proof fn lemma_pairs_ordered()
    ensures
        pairs_ordered(),
{
    broadcast use vstd::laws_cmp::group_laws_cmp;

}

/// The rooms by the numbers of their identifiers.
pub fn build_table(rooms: &Vec<Room>) -> (table: BTreeMap<u64, Room>)
    requires
        ids_in_order(rooms@),
    ensures
        table@ == table_of(rooms@),
{
    broadcast use vstd::std_specs::btree::group_btree_axioms;

    let mut table: BTreeMap<u64, Room> = BTreeMap::new();
    let mut i: usize = 0;
    proof {
        assert(table@ =~= table_of(rooms@.subrange(0, 0)));
    }
    while i < rooms.len()
        invariant
            ids_in_order(rooms@),
            i <= rooms@.len(),
            table@ == table_of(rooms@.subrange(0, i as int)),
        decreases rooms@.len() - i,
    {
        proof {
            lemma_u64_keys();
        }
        let room = rooms[i];
        table.insert(room.id.inner(), room);
        proof {
            let before = rooms@.subrange(0, i as int);
            let after = rooms@.subrange(0, i + 1);
            assert forall|id: u64| 1 <= id <= after.len() implies #[trigger] after[id - 1] == (if id
                == i + 1 {
                room
            } else {
                before[id - 1]
            }) by {}
            assert(table@ =~= table_of(after));
        }
        i = i + 1;
    }
    proof {
        assert(rooms@.subrange(0, rooms@.len() as int) =~= rooms@);
    }
    table
}

/// The passage between the two rooms of the pair: it starts where the start
/// picker says, at the boundary point recorded for the pair if there is one.
pub fn plan_passage(
    rooms: &Vec<Room>,
    hits: &BTreeMap<(u64, u64), (i32, i32)>,
    pair: (u64, u64),
    height: i32,
) -> (passage: Passage)
    requires
        names_rooms(rooms@, pair),
        forall|i: int| 0 <= i < rooms@.len() ==> addressable(#[trigger] rooms@[i]),
    ensures
        passage@ == passage_between(rooms@, hits@, pair, height),
{
    broadcast use vstd::std_specs::btree::group_btree_axioms;

    proof {
        lemma_pairs_ordered();
    }
    let hit = match hits.get(&pair) {
        Some(point) => Some(*point),
        None => None,
    };
    let n = rooms.len();
    assert(pair.0 - 1 < n && pair.1 - 1 < n);
    let at0: usize = (pair.0 - 1) as usize;
    let at1: usize = (pair.1 - 1) as usize;
    let room0 = &rooms[at0];
    let room1 = &rooms[at1];
    let (start_room_id, end_room_id, start, start_dirs) = create_start(room0, room1, hit);
    Passage { cells: Vec::new(), start, start_dirs, start_room_id, end_room_id, height }
}

/// The connections as weighted edges.
pub fn weighted_edges(connections: &Vec<RoomConnection>) -> (edges: Vec<(u64, u64, u64)>)
    ensures
        edges@ == edges_of(connections@),
{
    let mut edges: Vec<(u64, u64, u64)> = Vec::new();
    let mut i: usize = 0;
    while i < connections.len()
        invariant
            i <= connections@.len(),
            edges@ == edges_of(connections@.subrange(0, i as int)),
        decreases connections@.len() - i,
    {
        edges.push(connections[i].edge());
        proof {
            assert(edges@ =~= edges_of(connections@.subrange(0, i + 1)));
        }
        i = i + 1;
    }
    proof {
        assert(connections@.subrange(0, connections@.len() as int) =~= connections@);
    }
    edges
}

/// Every connection that the spanning tree picks is between two rooms.
pub proof fn lemma_required_name_rooms(rooms: Seq<Room>, tree: Seq<(u64, u64, u64)>)
    requires
        forall|i: int| 0 <= i < tree.len() ==> names_rooms(rooms, ((#[trigger] tree[i]).0, tree[i].1)),
    ensures
        all_pairs_satisfy(required_keys(tree), naming(rooms)),
    decreases tree.len(),
{
    if tree.len() > 0 {
        let front = tree.drop_last();
        assert forall|i: int| 0 <= i < front.len() implies names_rooms(
            rooms,
            ((#[trigger] front[i]).0, front[i].1),
        ) by {
            assert(front[i] == tree[i]);
        }
        lemma_required_name_rooms(rooms, front);
        let last = tree[tree.len() - 1];
        assert(names_rooms(rooms, (last.0, last.1)));
        lemma_inserted_satisfy(required_keys(front), pair_key((last.0, last.1)), naming(rooms));
    }
}

/// What is left of a generation: the rooms by the numbers of their
/// identifiers, the voxel map and the passages that were carved.
#[derive(Debug)]
pub struct Dungeon3DGeneratorResult {
    pub rooms: BTreeMap<u64, Room>,
    pub voxel_map: VoxelMap,
    pub passages: Vec<Passage>,
}

/// What a generation ended with, as plain values.
pub open spec fn outcome_of(r: Result<Dungeon3DGeneratorResult, Dungeon3DGeneratorError>) -> Result<
    (Cells, Seq<PassageSpec>),
    Dungeon3DGeneratorError,
> {
    match r {
        Ok(result) => Ok((result.voxel_map@, views_of(result.passages@))),
        Err(e) => Err(e),
    }
}

/// The classification is in order: no wall is stored, every passage cell
/// lies inside the bounds in x and z and between one layer below and `h`
/// layers above them in y and, with corridors at least one cell high, every
/// floor is covered, every stair is clear and every passage connects its
/// start with its end room.
pub open spec fn healthy(cells: Cells, lower: Pos, upper: Pos, h: int, passages: Seq<PassageSpec>) -> bool {
    &&& no_wall_stored(cells)
    &&& passages_within(cells, lower, upper, h)
    &&& h >= 1 ==> {
        &&& floors_covered(cells)
        &&& stairs_clear(cells, h)
        &&& forall|i: int|
            0 <= i < passages.len() ==> connects(
                cells,
                widen((#[trigger] passages[i]).start),
                passages[i].start_dirs,
                passages[i].end_room_id,
            )
    }
}

/// The room lies inside the volume of the configuration.
pub open spec fn inside_volume(config: &Dungeon3DGeneratorConfig, room: Room) -> bool {
    &&& room.origin.0 + room.width <= config.width
    &&& room.origin.1 + room.height <= config.height
    &&& room.origin.2 + room.depth <= config.depth
}

/// Every occupied cell is a passage cell or a cell of a room's shell.
pub open spec fn housed(cells: Cells, rooms: Seq<Room>) -> bool {
    forall|c: Pos| #[trigger]
        cells.contains_key(c) ==> is_passage_class(cells[c]) || in_some_shell(rooms, c)
}

/// Every occupied cell lies inside the bounds in x and z, and between one
/// layer below them and `h` layers above them in y.
pub open spec fn cells_within(cells: Cells, lower: Pos, upper: Pos, h: int) -> bool {
    forall|c: Pos| #[trigger]
        cells.contains_key(c) ==> {
            &&& lower.0 <= c.0 < upper.0
            &&& lower.2 <= c.2 < upper.2
            &&& lower.1 - 1 <= c.1 < upper.1 + h
        }
}

/// Carves one more passage into a classification that is in order and
/// records it if it could be carved.
///
/// Returns what `add_passage` returned. The classification stays in order.
pub fn carve(
    voxel_map: &mut VoxelMap,
    passages: &mut Vec<Passage>,
    passage: Passage,
    table: &BTreeMap<u64, Room>,
) -> (r: Result<(), VoxelMapError>)
    requires
        old(voxel_map).wf(),
        passage.height >= 0,
        healthy(
            old(voxel_map)@,
            old(voxel_map).lower(),
            old(voxel_map).upper(),
            passage.height as int,
            views_of(old(passages)@),
        ),
    ensures
        final(voxel_map).wf(),
        final(voxel_map).lower() == old(voxel_map).lower(),
        final(voxel_map).upper() == old(voxel_map).upper(),
        (r, final(voxel_map)@) == passage_outcome(
            old(voxel_map)@,
            old(voxel_map).lower(),
            old(voxel_map).upper(),
            passage@,
            table@,
        ),
        r is Ok ==> views_of(final(passages)@) == views_of(old(passages)@).push(passage@),
        r is Err ==> final(passages)@ == old(passages)@,
        extends(old(voxel_map)@, final(voxel_map)@),
        forall|c: Pos|
            final(voxel_map)@.contains_key(c) && !old(voxel_map)@.contains_key(c)
                ==> is_passage_class(#[trigger] final(voxel_map)@[c]),
        healthy(
            final(voxel_map)@,
            old(voxel_map).lower(),
            old(voxel_map).upper(),
            passage.height as int,
            views_of(final(passages)@),
        ),
{
    let ghost before = voxel_map@;
    let ghost recorded = views_of(passages@);
    let ghost asked = passage@;
    let r = voxel_map.add_passage(&passage, table);
    proof {
        let h = passage.height as int;
        assert(passages_within(before, voxel_map.lower(), voxel_map.upper(), h));
        if h >= 1 {
            assert(stairs_clear(before, h));
            assert forall|i: int| 0 <= i < recorded.len() implies connects(
                voxel_map@,
                widen((#[trigger] recorded[i]).start),
                recorded[i].start_dirs,
                recorded[i].end_room_id,
            ) by {
                lemma_connects_extends(
                    before,
                    voxel_map@,
                    widen(recorded[i].start),
                    recorded[i].start_dirs,
                    recorded[i].end_room_id,
                );
            }
        }
    }
    match r {
        Ok(()) => {
            passages.push(passage);
            proof {
                assert(views_of(passages@) =~= recorded.push(asked));
            }
        },
        Err(_) => {},
    }
    r
}

/// Writes the rooms into a fresh voxel map and connects them with passages.
///
/// `hits` holds, for a pair of rooms by the numbers of their identifiers,
/// the point where the line between their centres crosses the boundary of
/// the lower room. `extra_edges` are the optional connections; each gets a
/// coin from `rng`.
///
/// A room that meets another room and a required passage that cannot be
/// carved end the generation with the voxel map's error.
pub fn connect_rooms(
    config: &Dungeon3DGeneratorConfig,
    rooms: &Vec<Room>,
    hits: &BTreeMap<(u64, u64), (i32, i32)>,
    extra_edges: &Vec<(u64, u64)>,
    rng: &mut StdRng,
) -> (r: Result<Dungeon3DGeneratorResult, Dungeon3DGeneratorError>)
    requires
        config.passage_height <= i32::MAX,
        ids_in_order(rooms@),
        forall|i: int| 0 <= i < rooms@.len() ==> addressable(#[trigger] rooms@[i]),
        forall|i: int| 0 <= i < extra_edges@.len() ==> names_rooms(rooms@, #[trigger] extra_edges@[i]),
    ensures
        exists|flips: Seq<bool>|
            flips.len() == extra_edges@.len() && outcome_of(r) == #[trigger] generated(
                site_of(config, rooms@, hits@),
                extra_edges@,
                flips,
            ),
        r matches Ok(result) ==> {
            &&& result.rooms@ == table_of(rooms@)
            &&& result.voxel_map.wf()
            &&& result.voxel_map.lower() == site_of(config, rooms@, hits@).lower
            &&& result.voxel_map.upper() == site_of(config, rooms@, hits@).upper
            &&& healthy(
                result.voxel_map@,
                result.voxel_map.lower(),
                result.voxel_map.upper(),
                config.passage_height as int,
                views_of(result.passages@),
            )
            &&& forall|i: int, j: int, p: Pos|
                0 <= i < j < rooms@.len() ==> !(#[trigger] in_shell(rooms@[i], p)
                    && #[trigger] in_shell(rooms@[j], p))
            &&& forall|i: int, p: Pos|
                0 <= i < rooms@.len() && #[trigger] in_shell(rooms@[i], p) ==> class_at(
                    result.voxel_map@,
                    p,
                ) == shell_class(rooms@[i], p)
            &&& housed(result.voxel_map@, rooms@)
            &&& (forall|i: int| 0 <= i < rooms@.len() ==> inside_volume(config, #[trigger] rooms@[i]))
                ==> cells_within(
                result.voxel_map@,
                result.voxel_map.lower(),
                result.voxel_map.upper(),
                config.passage_height as int,
            )
        },
{
    let ghost site = site_of(config, rooms@, hits@);
    let ghost no_flips = Seq::new(extra_edges@.len(), |i: int| false);
    let margin = config.margin_for_bounds as i64;
    let mut voxel_map = VoxelMap::from_bounds(
        (-margin, -margin, -margin),
        (config.width as i64, config.height as i64, config.depth as i64),
    );
    let height: i32 = config.passage_height as i32;
    let ghost h = height as int;
    let ghost nothing: Cells = Map::empty();
    match voxel_map.add_rooms(rooms) {
        Ok(()) => {},
        Err(e) => {
            proof {
                assert(outcome_of(Err(Dungeon3DGeneratorError::VoxelMapError(e))) == generated(
                    site,
                    extra_edges@,
                    no_flips,
                ));
            }
            return Err(Dungeon3DGeneratorError::VoxelMapError(e));
        },
    }
    let ghost with_shells = voxel_map@;
    proof {
        lemma_rooms_keep_passages(nothing, rooms@, site.lower, site.upper, h);
        lemma_written_rooms_are_disjoint(nothing, rooms@);
        lemma_written_cells_are_shells(nothing, rooms@);
    }
    let connections = connect_all(rooms);
    let edges = weighted_edges(&connections);
    let tree = kruskal_edges(&edges);
    let required = required_pairs(&tree);
    proof {
        lemma_all_pairs_join(rooms@);
        assert forall|i: int| 0 <= i < tree@.len() implies names_rooms(
            rooms@,
            ((#[trigger] tree@[i]).0, tree@[i].1),
        ) by {
            let t = tree@[i];
            assert(edges@.contains(t));
            let k = choose|k: int| 0 <= k < edges@.len() && edges@[k] == t;
            let c = connections@[k];
            assert(t == c.spec_edge());
            assert(joins(rooms@, c));
            let (a, b) = choose|a: int, b: int|
                0 <= a < b < rooms@.len() && c == #[trigger] connection_between(
                    rooms@[a],
                    rooms@[b],
                );
            assert(rooms@[a].id.spec_inner() == a + 1);
            assert(rooms@[b].id.spec_inner() == b + 1);
        }
        lemma_required_name_rooms(rooms@, tree@);
    }
    let table = build_table(rooms);
    let mut passages: Vec<Passage> = Vec::new();
    let mut i: usize = 0;
    proof {
        assert(required@.subrange(0, 0) =~= Seq::<(u64, u64)>::empty());
        assert(views_of(passages@) =~= passages_for(site, required@.subrange(0, 0)));
    }
    while i < required.len()
        invariant
            site == site_of(config, rooms@, hits@),
            site.height == height,
            h == height,
            h >= 0,
            table@ == table_of(rooms@),
            all_pairs_satisfy(required@, naming(rooms@)),
            forall|i: int| 0 <= i < rooms@.len() ==> addressable(#[trigger] rooms@[i]),
            nothing == Map::<Pos, VoxelType>::empty(),
            with_rooms(nothing, rooms@) == Some(with_shells),
            required@ == required_keys(spanning_edges(edges_of(all_pairs(rooms@)))),
            i <= required@.len(),
            voxel_map.wf(),
            voxel_map.lower() == site.lower,
            voxel_map.upper() == site.upper,
            extends(with_shells, voxel_map@),
            housed(voxel_map@, rooms@),
            routed_all(site, with_shells, required@.subrange(0, i as int)) == Ok::<
                Cells,
                VoxelMapError,
            >(voxel_map@),
            views_of(passages@) == passages_for(site, required@.subrange(0, i as int)),
            healthy(voxel_map@, site.lower, site.upper, h, views_of(passages@)),
            no_flips.len() == extra_edges@.len(),
        decreases required@.len() - i,
    {
        let ghost done = required@.subrange(0, i as int);
        let ghost more = required@.subrange(0, i + 1);
        proof {
            assert(more.drop_last() =~= done);
            assert(more.last() == required@[i as int]);
            assert(naming(rooms@)(required@[i as int]));
        }
        let passage = plan_passage(rooms, hits, required[i], height);
        proof {
            assert(passage@ == passage_for(site, required@[i as int]));
            assert(passages_for(site, more) =~= passages_for(site, done).push(
                passage_for(site, required@[i as int]),
            ));
        }
        match carve(&mut voxel_map, &mut passages, passage, &table) {
            Ok(()) => {
                proof {
                    assert(views_of(passages@) =~= passages_for(site, more));
                }
            },
            Err(e) => {
                proof {
                    assert(routed_all(site, with_shells, more) == Err::<Cells, VoxelMapError>(e));
                    lemma_routed_all_prefix(site, with_shells, required@, i + 1);
                    assert(outcome_of(Err(Dungeon3DGeneratorError::VoxelMapError(e))) == generated(
                        site,
                        extra_edges@,
                        no_flips,
                    ));
                }
                return Err(Dungeon3DGeneratorError::VoxelMapError(e));
            },
        }
        i = i + 1;
    }
    let ghost with_required = voxel_map@;
    let ghost required_passages = views_of(passages@);
    let ghost mut flips: Seq<bool> = Seq::empty();
    let mut k: usize = 0;
    proof {
        assert(required@.subrange(0, required@.len() as int) =~= required@);
        assert(extra_edges@.subrange(0, 0) =~= Seq::<(u64, u64)>::empty());
    }
    while k < extra_edges.len()
        invariant
            site == site_of(config, rooms@, hits@),
            site.height == height,
            h == height,
            h >= 0,
            table@ == table_of(rooms@),
            forall|i: int| 0 <= i < rooms@.len() ==> addressable(#[trigger] rooms@[i]),
            forall|i: int|
                0 <= i < extra_edges@.len() ==> names_rooms(rooms@, #[trigger] extra_edges@[i]),
            k <= extra_edges@.len(),
            flips.len() == k,
            voxel_map.wf(),
            voxel_map.lower() == site.lower,
            voxel_map.upper() == site.upper,
            extends(with_shells, voxel_map@),
            housed(voxel_map@, rooms@),
            (voxel_map@, views_of(passages@)) == routed_extra(
                site,
                (with_required, required_passages),
                required@,
                extra_edges@.subrange(0, k as int),
                flips,
            ),
            healthy(voxel_map@, site.lower, site.upper, h, views_of(passages@)),
        decreases extra_edges@.len() - k,
    {
        let flip = gen_ratio(rng, OPTIONAL_CHANCE_NUMERATOR, OPTIONAL_CHANCE_DENOMINATOR);
        let edge = extra_edges[k];
        let ghost longer = flips.push(flip);
        proof {
            assert(extra_edges@.subrange(0, k + 1).drop_last() =~= extra_edges@.subrange(
                0,
                k as int,
            ));
            assert(extra_edges@.subrange(0, k + 1).last() == edge);
            assert(longer.drop_last() =~= flips);
            assert(longer.last() == flip);
        }
        let ghost before = (voxel_map@, views_of(passages@));
        if flip && !has_pair(&required, normalized_pair(edge)) {
            let passage = plan_passage(rooms, hits, edge, height);
            proof {
                assert(passage@ == passage_for(site, edge));
            }
            let _ = carve(&mut voxel_map, &mut passages, passage, &table);
        }
        proof {
            assert(before == routed_extra(
                site,
                (with_required, required_passages),
                required@,
                extra_edges@.subrange(0, k + 1).drop_last(),
                longer.drop_last(),
            ));
            assert((voxel_map@, views_of(passages@)) == routed_extra(
                site,
                (with_required, required_passages),
                required@,
                extra_edges@.subrange(0, k + 1),
                longer,
            ));
            flips = longer;
        }
        k = k + 1;
    }
    proof {
        assert(extra_edges@.subrange(0, extra_edges@.len() as int) =~= extra_edges@);
        assert(Ok::<(Cells, Seq<PassageSpec>), Dungeon3DGeneratorError>((voxel_map@, views_of(passages@)))
            == generated(site, extra_edges@, flips));
        if forall|i: int| 0 <= i < rooms@.len() ==> inside_volume(config, #[trigger] rooms@[i]) {
            assert forall|c: Pos| #[trigger] voxel_map@.contains_key(c) implies site.lower.0 <= c.0
                < site.upper.0 && site.lower.2 <= c.2 < site.upper.2 && site.lower.1 - 1 <= c.1
                < site.upper.1 + h by {
                if !is_passage_class(voxel_map@[c]) {
                    let i = choose|i: int| 0 <= i < rooms@.len() && in_shell(#[trigger] rooms@[i], c);
                    assert(inside_volume(config, rooms@[i]));
                }
            }
        }
        assert forall|i: int, p: Pos|
            0 <= i < rooms@.len() && #[trigger] in_shell(rooms@[i], p) implies class_at(
            voxel_map@,
            p,
        ) == shell_class(rooms@[i], p) by {
            assert(class_at(with_shells, p) == shell_class(rooms@[i], p));
            assert(with_shells.contains_key(p));
        }
    }
    Ok(Dungeon3DGeneratorResult { rooms: table, voxel_map, passages })
}

/// If the first `n` passages cannot all be carved, the whole sequence
/// cannot, and it fails with the same error.
pub proof fn lemma_routed_all_prefix(site: Site, cells: Cells, pairs: Seq<(u64, u64)>, n: int)
    requires
        0 <= n <= pairs.len(),
        routed_all(site, cells, pairs.subrange(0, n)) is Err,
    ensures
        routed_all(site, cells, pairs) == routed_all(site, cells, pairs.subrange(0, n)),
    decreases pairs.len() - n,
{
    if n < pairs.len() {
        assert(pairs.subrange(0, n + 1).drop_last() =~= pairs.subrange(0, n));
        lemma_routed_all_prefix(site, cells, pairs, n + 1);
    } else {
        assert(pairs.subrange(0, n) =~= pairs);
    }
}

/// Checks the configuration and lays out the rooms.
pub fn generate_rooms(config: &Dungeon3DGeneratorConfig, rng: &mut StdRng) -> (r: Result<
    Vec<Room>,
    Dungeon3DGeneratorError,
>)
    requires
        config.valid(),
    ensures
        match r {
            Ok(rooms) => {
                &&& config.rejection() is None
                &&& rooms@.len() >= config.room_hierarchy
                &&& ids_in_order(rooms@)
                &&& forall|i: int| 0 <= i < rooms@.len() ==> config.plan().admits(#[trigger] rooms@[i])
                &&& forall|i: int| 0 <= i < rooms@.len() ==> addressable(#[trigger] rooms@[i])
                &&& all_clear(rooms@)
            },
            Err(e) => config.rejection() == Some(e),
        },
{
    match config.validate() {
        Err(e) => Err(e),
        Ok(plan) => {
            let rooms = layout_rooms(&plan, rng);
            proof {
                assert forall|i: int| 0 <= i < rooms@.len() implies addressable(
                    #[trigger] rooms@[i],
                ) by {
                    assert(plan.admits(rooms@[i]));
                }
            }
            Ok(rooms)
        },
    }
}

/// Rooms that were laid out can always be written: the generation does not
/// end with a conflict between rooms.
pub proof fn lemma_laid_out_rooms_do_not_conflict(
    site: Site,
    extras: Seq<(u64, u64)>,
    flips: Seq<bool>,
)
    requires
        all_clear(site.rooms),
    ensures
        generated(site, extras, flips) != Err::<
            (Cells, Seq<PassageSpec>),
            Dungeon3DGeneratorError,
        >(Dungeon3DGeneratorError::VoxelMapError(VoxelMapError::Conflict)),
{
    lemma_clear_rooms_fit(site.rooms);
    let with_shells = with_rooms(Map::empty(), site.rooms)->0;
    let required = required_keys(spanning_edges(edges_of(all_pairs(site.rooms))));
    lemma_routed_all_never_conflicts(site, with_shells, required);
}

/// Carving passages never fails with a conflict.
pub proof fn lemma_routed_all_never_conflicts(site: Site, cells: Cells, pairs: Seq<(u64, u64)>)
    ensures
        routed_all(site, cells, pairs) != Err::<Cells, VoxelMapError>(VoxelMapError::Conflict),
    decreases pairs.len(),
{
    if pairs.len() > 0 {
        lemma_routed_all_never_conflicts(site, cells, pairs.drop_last());
    }
}

} // verus!
