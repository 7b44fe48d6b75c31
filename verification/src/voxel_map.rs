//! The voxel map: which class every cell of the grid has.
//!
//! Only cells that are not solid wall are stored. Rooms are written whole or
//! not at all; passages are carved by the router and merged in once a route
//! has reached its goal.
use crate::constants::VoxelType;
use crate::key_order::lemma_u64_keys;
use crate::passage::Passage;
use crate::passage::PassageSpec;
use crate::room::Room;
use crate::route::find_route;
use crate::route::ground_of;
use crate::route::routed;
use crate::route_laws::connects;
use crate::route_laws::extends;
use crate::route_laws::floors_covered;
use crate::route_laws::is_passage_class;
use crate::route_laws::lemma_merge_extends;
use crate::route_laws::lemma_merge_sound;
use crate::route_laws::lemma_routed_is_clean;
use crate::route_laws::lemma_routed_is_sound;
use crate::route_laws::passages_within;
use crate::route_laws::stairs_clear;
use crate::room::RoomId;
use std::collections::BTreeMap;
use vstd::prelude::*;

verus! {

/// The address of a cell: (x, y, z), with y vertical.
///
/// Cells are addressed with 64-bit coordinates so that the shell of a room
/// or a passage next to the edge of the 32-bit range still has an address.
pub type Pos = (i64, i64, i64);

/// A classification of cells; a cell without an entry is solid wall.
pub type Cells = Map<Pos, VoxelType>;

/// A 32-bit point as a cell address.
pub open spec fn widen(p: (i32, i32, i32)) -> Pos {
    (p.0 as i64, p.1 as i64, p.2 as i64)
}

/// The class of the cell at `p`.
pub open spec fn class_at(m: Cells, p: Pos) -> VoxelType {
    if m.contains_key(p) {
        m[p]
    } else {
        VoxelType::Wall
    }
}

/// No entry says "wall": a stored cell is an occupied cell.
pub open spec fn no_wall_stored(m: Cells) -> bool {
    forall|p: Pos| #[trigger] m.contains_key(p) ==> m[p] != VoxelType::Wall
}

/// Every coordinate of `p` is far from the ends of the 64-bit range.
pub open spec fn within_reach(p: Pos) -> bool {
    &&& -0x2_0000_0000 <= p.0 <= 0x2_0000_0000
    &&& -0x2_0000_0000 <= p.1 <= 0x2_0000_0000
    &&& -0x2_0000_0000 <= p.2 <= 0x2_0000_0000
}

/// `p` lies in the half-open box from `lower` to `upper`.
pub open spec fn in_box(lower: Pos, upper: Pos, p: Pos) -> bool {
    &&& lower.0 <= p.0 < upper.0
    &&& lower.1 <= p.1 < upper.1
    &&& lower.2 <= p.2 < upper.2
}

/// `p` belongs to the shell of `room`: its interior and the floor layer
/// directly beneath it.
pub open spec fn in_shell(room: Room, p: Pos) -> bool {
    &&& room.origin.0 <= p.0 < room.origin.0 + room.width
    &&& room.origin.1 - 1 <= p.1 < room.origin.1 + room.height
    &&& room.origin.2 <= p.2 < room.origin.2 + room.depth
}

/// The class that the shell of `room` gives to `p`: floor beneath the room,
/// the walkable layer at the room's own height, air above.
pub open spec fn shell_class(room: Room, p: Pos) -> VoxelType {
    if p.1 == room.origin.1 - 1 {
        VoxelType::RoomFloor(room.id)
    } else if p.1 == room.origin.1 {
        VoxelType::RoomBottomSpace(room.id)
    } else {
        VoxelType::RoomSpace(room.id)
    }
}

/// The shell of `room` as a classification of its cells.
pub open spec fn shell(room: Room) -> Cells {
    Map::new(|p: Pos| in_shell(room, p), |p: Pos| shell_class(room, p))
}

/// No cell of the shell of `room` is occupied in `m`.
pub open spec fn shell_is_free(m: Cells, room: Room) -> bool {
    forall|p: Pos| in_shell(room, p) ==> !#[trigger] m.contains_key(p)
}

/// `p` is a cell of the shell that the writing order reaches before the cell
/// (x, y, z): layer by layer, row by row.
pub open spec fn shell_before(room: Room, p: Pos, x: int, y: int, z: int) -> bool {
    in_shell(room, p) && (p.1 < y || (p.1 == y && (p.2 < z || (p.2 == z && p.0 < x))))
}

/// The order on cell addresses is the lexicographic order of their
/// coordinates, which is what the ordered maps of this crate rely on.
pub open spec fn pos_ordered() -> bool {
    vstd::laws_cmp::obeys_cmp::<Pos>() && vstd::std_specs::btree::key_obeys_cmp_spec::<Pos>()
}

/// Cell addresses are ordered as the ordered maps need them to be.
pub proof fn lemma_pos_ordered()
    ensures
        pos_ordered(),
{
    broadcast use vstd::laws_cmp::group_laws_cmp;
    broadcast use vstd::std_specs::btree::group_btree_axioms;

}

/// Why the voxel map refused a change.
#[derive(Debug, Copy, Clone, PartialEq, Eq, Structural)]
pub enum VoxelMapError {
    /// A cell that was to be written is occupied.
    Conflict,
    /// A passage names a room that is not in the table of rooms.
    NoRoom(RoomId),
    /// The router found no route to the target room.
    Unreachable,
}

/// The committed classification of the grid, with the bounds inside which
/// passages may be routed.
#[derive(Debug)]
pub struct VoxelMap {
    /// The class of every occupied cell. The contracts speak of it through
    /// the view; `cells` hands it out with its contract.
    pub map: BTreeMap<Pos, VoxelType>,
    pub(crate) start: Pos,
    pub(crate) end: Pos,
}

impl View for VoxelMap {
    type V = Cells;

    /// The class of every occupied cell.
    closed spec fn view(&self) -> Cells {
        self.map@
    }
}

impl Clone for VoxelMap {
    /// A copy with the same cells and the same bounds.
    fn clone(&self) -> (r: Self)
        ensures
            r@ == self@,
            r.lower() == self.lower(),
            r.upper() == self.upper(),
    {
        VoxelMap { map: self.map.clone(), start: self.start, end: self.end }
    }
}

impl VoxelMap {
    /// The corner of the bounds with the smallest coordinates.
    pub closed spec fn lower(&self) -> Pos {
        self.start
    }

    /// The corner of the bounds past the greatest coordinates.
    pub closed spec fn upper(&self) -> Pos {
        self.end
    }

    /// The invariant: no stored cell is wall, and the bounds are far from the
    /// ends of the coordinate range.
    pub open spec fn wf(&self) -> bool {
        &&& no_wall_stored(self@)
        &&& within_reach(self.lower())
        &&& within_reach(self.upper())
    }

    /// An empty map whose bounds start at (x, y, z) and extend by the given
    /// width, height and depth.
    pub fn new(x: i32, y: i32, z: i32, width: i32, height: i32, depth: i32) -> (m: Self)
        ensures
            m.wf(),
            m@ == Map::<Pos, VoxelType>::empty(),
            m.lower() == widen((x, y, z)),
            m.upper() == (
                (x + width) as i64,
                (y + height) as i64,
                (z + depth) as i64,
            ),
    {
        VoxelMap {
            map: BTreeMap::new(),
            start: (x as i64, y as i64, z as i64),
            end: (x as i64 + width as i64, y as i64 + height as i64, z as i64 + depth as i64),
        }
    }

    /// An empty map with the bounds from `lower` up to, not including,
    /// `upper`.
    pub fn from_bounds(lower: Pos, upper: Pos) -> (m: Self)
        requires
            within_reach(lower),
            within_reach(upper),
        ensures
            m.wf(),
            m@ == Map::<Pos, VoxelType>::empty(),
            m.lower() == lower,
            m.upper() == upper,
    {
        VoxelMap { map: BTreeMap::new(), start: lower, end: upper }
    }

    /// The bounds: the corner with the smallest coordinates and the corner
    /// past the greatest.
    pub fn bounds(&self) -> (b: (Pos, Pos))
        ensures
            b.0 == self.lower(),
            b.1 == self.upper(),
    {
        (self.start, self.end)
    }

    /// The class of the cell at `point`; `Wall` where nothing is stored.
    pub fn get(&self, point: &(i32, i32, i32)) -> (class: VoxelType)
        ensures
            class == class_at(self@, widen(*point)),
    {
        self.get_at(&(point.0 as i64, point.1 as i64, point.2 as i64))
    }

    /// The class of the cell at the address `p`; `Wall` where nothing is
    /// stored.
    pub fn get_at(&self, p: &Pos) -> (class: VoxelType)
        ensures
            class == class_at(self@, *p),
    {
        broadcast use vstd::std_specs::btree::group_btree_axioms;

        proof {
            lemma_pos_ordered();
        }
        match self.map.get(p) {
            Some(class) => *class,
            None => VoxelType::Wall,
        }
    }

    /// The number of occupied cells.
    pub fn len(&self) -> (n: usize)
        ensures
            n == self@.dom().len(),
    {
        broadcast use vstd::std_specs::btree::group_btree_axioms;

        proof {
            lemma_pos_ordered();
        }
        self.map.len()
    }

    /// Every occupied cell with its class, each cell once.
    pub fn cells(&self) -> (r: Vec<(Pos, VoxelType)>)
        ensures
            r@.len() == self@.dom().len(),
            forall|i: int|
                0 <= i < r@.len() ==> self@.contains_key((#[trigger] r@[i]).0) && self@[r@[i].0]
                    == r@[i].1,
            forall|p: Pos| #[trigger]
                self@.contains_key(p) ==> exists|i: int|
                    0 <= i < r@.len() && (#[trigger] r@[i]).0 == p,
    {
        broadcast use vstd::std_specs::btree::group_btree_axioms;

        proof {
            lemma_pos_ordered();
        }
        let mut out: Vec<(Pos, VoxelType)> = Vec::new();
        for kv in it: self.map.iter()
            invariant
                it.seq().len() == self@.dom().len(),
                forall|i: int|
                    0 <= i < it.seq().len() ==> self@.contains_key(*(#[trigger] it.seq()[i]).0)
                        && self@[*it.seq()[i].0] == *it.seq()[i].1,
                forall|p: Pos| #[trigger]
                    self@.contains_key(p) ==> (exists|i: int|
                        0 <= i < out@.len() && (#[trigger] out@[i]).0 == p) || (exists|i: int|
                        it.index() <= i < it.seq().len() && *(#[trigger] it.seq()[i]).0 == p),
                out@.len() == it.index(),
                forall|i: int|
                    0 <= i < out@.len() ==> (#[trigger] out@[i]).0 == *it.seq()[i].0 && out@[i].1
                        == *it.seq()[i].1,
        {
            let (k, v) = kv;
            let ghost idx = it.index() as int;
            let ghost prev = out@;
            out.push((*k, *v));
            proof {
                assert forall|p: Pos| #[trigger] self@.contains_key(p) implies (exists|i: int|
                    0 <= i < out@.len() && (#[trigger] out@[i]).0 == p) || (exists|i: int|
                    idx + 1 <= i < it.seq().len() && *(#[trigger] it.seq()[i]).0 == p) by {
                    if exists|i: int| 0 <= i < prev.len() && (#[trigger] prev[i]).0 == p {
                        let i = choose|i: int| 0 <= i < prev.len() && (#[trigger] prev[i]).0 == p;
                        assert(out@[i].0 == p);
                    } else {
                        let i = choose|i: int|
                            idx <= i < it.seq().len() && *(#[trigger] it.seq()[i]).0 == p;
                        if i == idx {
                            assert(out@[idx].0 == p);
                        }
                    }
                }
            }
        }
        out
    }

    /// Writes every cell of `cells` into the map; where a cell is already
    /// stored, the new class replaces the old one.
    pub(crate) fn commit(&mut self, cells: &BTreeMap<Pos, VoxelType>)
        ensures
            final(self)@ == old(self)@.union_prefer_right(cells@),
            final(self).lower() == old(self).lower(),
            final(self).upper() == old(self).upper(),
    {
        broadcast use vstd::std_specs::btree::group_btree_axioms;

        proof {
            lemma_pos_ordered();
        }
        let ghost before = self.map@;
        let ghost mut done: Set<Pos> = Set::empty();
        for kv in it: cells.iter()
            invariant
                self.start == old(self).start,
                self.end == old(self).end,
                forall|i: int|
                    0 <= i < it.seq().len() ==> cells@.contains_key(*(#[trigger] it.seq()[i]).0)
                        && cells@[*it.seq()[i].0] == *it.seq()[i].1,
                forall|p: Pos| #[trigger]
                    cells@.contains_key(p) && !done.contains(p) ==> exists|i: int|
                        it.index() <= i < it.seq().len() && *(#[trigger] it.seq()[i]).0 == p,
                forall|p: Pos| #[trigger] done.contains(p) ==> cells@.contains_key(p),
                self.map@ == before.union_prefer_right(cells@.restrict(done)),
        {
            let (k, v) = kv;
            let ghost idx = it.index();
            assert(it.seq()[idx as int] == kv);
            self.map.insert(*k, *v);
            proof {
                done = done.insert(*k);
                assert(self.map@ =~= before.union_prefer_right(cells@.restrict(done)));
            }
        }
        proof {
            assert(cells@.restrict(done) =~= cells@);
        }
    }

    /// Writes the shell of `room`: the floor layer beneath it, its walkable
    /// layer and the air above.
    ///
    /// Fails with `Conflict`, leaving the map as it was, if any cell of the
    /// shell is occupied.
    pub fn add_room(&mut self, room: &Room) -> (r: Result<(), VoxelMapError>)
        requires
            old(self).wf(),
        ensures
            final(self).wf(),
            final(self).lower() == old(self).lower(),
            final(self).upper() == old(self).upper(),
            r is Ok <==> shell_is_free(old(self)@, *room),
            r is Ok ==> final(self)@ == old(self)@.union_prefer_right(shell(*room)),
            r is Err ==> r == Err::<(), VoxelMapError>(VoxelMapError::Conflict) && final(self)@
                == old(self)@,
    {
        broadcast use vstd::std_specs::btree::group_btree_axioms;

        proof {
            lemma_pos_ordered();
        }
        let x0: i64 = room.origin.0 as i64;
        let y0: i64 = room.origin.1 as i64 - 1;
        let z0: i64 = room.origin.2 as i64;
        let x1: i64 = room.origin.0 as i64 + room.width as i64;
        let y1: i64 = room.origin.1 as i64 + room.height as i64;
        let z1: i64 = room.origin.2 as i64 + room.depth as i64;
        let mut fresh: BTreeMap<Pos, VoxelType> = BTreeMap::new();
        let mut y: i64 = y0;
        while y < y1
            invariant
                x0 == room.origin.0,
                y0 == room.origin.1 - 1,
                z0 == room.origin.2,
                x1 == room.origin.0 + room.width,
                y1 == room.origin.1 + room.height,
                z1 == room.origin.2 + room.depth,
                y0 <= y <= y1,
                *self == *old(self),
                self.wf(),
                pos_ordered(),
                fresh@ == Map::new(
                    |p: Pos| shell_before(*room, p, x0 as int, y as int, z0 as int),
                    |p: Pos| shell_class(*room, p),
                ),
                forall|p: Pos|
                    shell_before(*room, p, x0 as int, y as int, z0 as int)
                        ==> !#[trigger] self@.contains_key(p),
            decreases y1 - y,
        {
            let mut z: i64 = z0;
            while z < z1
                invariant
                    x0 == room.origin.0,
                    y0 == room.origin.1 - 1,
                    z0 == room.origin.2,
                    x1 == room.origin.0 + room.width,
                    y1 == room.origin.1 + room.height,
                    z1 == room.origin.2 + room.depth,
                    y0 <= y < y1,
                    z0 <= z <= z1,
                    *self == *old(self),
                self.wf(),
                    pos_ordered(),
                    fresh@ == Map::new(
                        |p: Pos| shell_before(*room, p, x0 as int, y as int, z as int),
                        |p: Pos| shell_class(*room, p),
                    ),
                    forall|p: Pos|
                        shell_before(*room, p, x0 as int, y as int, z as int)
                            ==> !#[trigger] self@.contains_key(p),
                decreases z1 - z,
            {
                let mut x: i64 = x0;
                while x < x1
                    invariant
                        x0 == room.origin.0,
                        y0 == room.origin.1 - 1,
                        z0 == room.origin.2,
                        x1 == room.origin.0 + room.width,
                        y1 == room.origin.1 + room.height,
                        z1 == room.origin.2 + room.depth,
                        y0 <= y < y1,
                        z0 <= z < z1,
                        x0 <= x <= x1,
                        *self == *old(self),
                self.wf(),
                        pos_ordered(),
                        fresh@ == Map::new(
                            |p: Pos| shell_before(*room, p, x as int, y as int, z as int),
                            |p: Pos| shell_class(*room, p),
                        ),
                        forall|p: Pos|
                            shell_before(*room, p, x as int, y as int, z as int)
                                ==> !#[trigger] self@.contains_key(p),
                    decreases x1 - x,
                {
                    let p: Pos = (x, y, z);
                    if self.map.contains_key(&p) {
                        proof {
                            assert(in_shell(*room, p));
                        }
                        return Err(VoxelMapError::Conflict);
                    }
                    let class = if y == y0 {
                        VoxelType::RoomFloor(room.id)
                    } else if y == y0 + 1 {
                        VoxelType::RoomBottomSpace(room.id)
                    } else {
                        VoxelType::RoomSpace(room.id)
                    };
                    fresh.insert(p, class);
                    x = x + 1;
                    proof {
                        assert(fresh@ =~= Map::new(
                            |p: Pos| shell_before(*room, p, x as int, y as int, z as int),
                            |p: Pos| shell_class(*room, p),
                        ));
                    }
                }
                z = z + 1;
                proof {
                    assert(fresh@ =~= Map::new(
                        |p: Pos| shell_before(*room, p, x0 as int, y as int, z as int),
                        |p: Pos| shell_class(*room, p),
                    ));
                }
            }
            y = y + 1;
            proof {
                assert(fresh@ =~= Map::new(
                    |p: Pos| shell_before(*room, p, x0 as int, y as int, z0 as int),
                    |p: Pos| shell_class(*room, p),
                ));
            }
        }
        proof {
            assert(fresh@ =~= shell(*room));
            assert forall|p: Pos| in_shell(*room, p) implies !#[trigger] self@.contains_key(p) by {
                assert(shell_before(*room, p, x0 as int, y as int, z0 as int));
            }
        }
        self.commit(&fresh);
        Ok(())
    }

    /// Writes the shells of the rooms, one after the other.
    ///
    /// Fails with `Conflict` at the first room whose shell meets an occupied
    /// cell; the rooms before it have been written then.
    pub fn add_rooms(&mut self, rooms: &Vec<Room>) -> (r: Result<(), VoxelMapError>)
        requires
            old(self).wf(),
        ensures
            final(self).wf(),
            final(self).lower() == old(self).lower(),
            final(self).upper() == old(self).upper(),
            r is Ok <==> with_rooms(old(self)@, rooms@) is Some,
            r is Ok ==> final(self)@ == with_rooms(old(self)@, rooms@)->0,
            r is Err ==> r == Err::<(), VoxelMapError>(VoxelMapError::Conflict),
    {
        let n = rooms.len();
        let mut i: usize = 0;
        proof {
            assert(rooms@.subrange(0, 0) =~= Seq::<Room>::empty());
        }
        while i < n
            invariant
                n == rooms@.len(),
                i <= n,
                self.wf(),
                self.lower() == old(self).lower(),
                self.upper() == old(self).upper(),
                with_rooms(old(self)@, rooms@.subrange(0, i as int)) == Some(self@),
            decreases n - i,
        {
            proof {
                assert(rooms@.subrange(0, i + 1).drop_last() =~= rooms@.subrange(0, i as int));
                assert(rooms@.subrange(0, i + 1).last() == rooms@[i as int]);
            }
            match self.add_room(&rooms[i]) {
                Ok(()) => {},
                Err(e) => {
                    proof {
                        lemma_with_rooms_prefix(old(self)@, rooms@, i + 1);
                    }
                    return Err(e);
                },
            }
            i = i + 1;
        }
        proof {
            assert(rooms@.subrange(0, n as int) =~= rooms@);
        }
        Ok(())
    }

    /// Carves the passage: searches a route from the passage's start to the
    /// walkable layer of its end room and, if one is found, writes its cells.
    ///
    /// Fails with `NoRoom` if `rooms`, which is keyed by the number of the
    /// room's identifier, does not hold the end room, and with `Unreachable`
    /// if the search finds no route. A failure leaves the map as it was.
    pub fn add_passage(&mut self, passage: &Passage, rooms: &BTreeMap<u64, Room>) -> (r: Result<
        (),
        VoxelMapError,
    >)
        requires
            old(self).wf(),
        ensures
            final(self).wf(),
            final(self).lower() == old(self).lower(),
            final(self).upper() == old(self).upper(),
            (r, final(self)@) == passage_outcome(
                old(self)@,
                old(self).lower(),
                old(self).upper(),
                passage@,
                rooms@,
            ),
            r is Err ==> final(self)@ == old(self)@,
            extends(old(self)@, final(self)@),
            forall|c: Pos|
                final(self)@.contains_key(c) && !old(self)@.contains_key(c) ==> is_passage_class(
                    #[trigger] final(self)@[c],
                ),
            forall|h: int|
                0 <= h && passage.height <= h && #[trigger] passages_within(
                    old(self)@,
                    old(self).lower(),
                    old(self).upper(),
                    h,
                ) ==> passages_within(final(self)@, old(self).lower(), old(self).upper(), h),
            passage.height >= 1 && floors_covered(old(self)@) ==> floors_covered(final(self)@),
            forall|h: int|
                1 <= h <= passage.height && #[trigger] stairs_clear(old(self)@, h) ==> stairs_clear(
                    final(self)@,
                    h,
                ),
            passage.height >= 1 && r is Ok ==> connects(
                final(self)@,
                widen(passage.start),
                passage.start_dirs,
                passage.end_room_id,
            ),
    {
        broadcast use vstd::std_specs::btree::group_btree_axioms;

        proof {
            lemma_u64_keys();
        }
        let ghost before = self@;
        let end_room = match rooms.get(&passage.end_room_id.inner()) {
            Some(room) => room,
            None => {
                return Err(VoxelMapError::NoRoom(passage.end_room_id));
            },
        };
        let found = find_route(&self.map, self.start, self.end, passage, end_room);
        match found {
            None => Err(VoxelMapError::Unreachable),
            Some(cells) => {
                proof {
                    let g = ground_of(before, self.start, self.end, passage@, *end_room);
                    lemma_routed_is_clean(before, self.start, self.end, passage@, *end_room);
                    assert forall|h: int|
                        0 <= h && passage.height <= h && #[trigger] passages_within(
                            before,
                            self.start,
                            self.end,
                            h,
                        ) implies passages_within(
                        before.union_prefer_right(cells@),
                        self.start,
                        self.end,
                        h,
                    ) by {
                        lemma_merge_extends(g, cells@, h);
                    }
                    lemma_merge_extends(g, cells@, 0);
                    if passage.height >= 1 {
                        lemma_routed_is_sound(before, self.start, self.end, passage@, *end_room);
                        assert forall|h: int|
                            1 <= h <= passage.height && #[trigger] stairs_clear(
                                before,
                                h,
                            ) implies stairs_clear(before.union_prefer_right(cells@), h) by {
                            lemma_merge_sound(
                                g,
                                widen(passage.start),
                                passage.start_dirs,
                                cells@,
                                h,
                            );
                        }
                        lemma_merge_sound(g, widen(passage.start), passage.start_dirs, cells@, 1);
                    }
                }
                self.commit(&cells);
                Ok(())
            },
        }
    }
}

/// The classification after the shells of the rooms were written one after
/// the other, or `None` if one of them met an occupied cell.
pub open spec fn with_rooms(cells: Cells, rooms: Seq<Room>) -> Option<Cells>
    decreases rooms.len(),
{
    if rooms.len() == 0 {
        Some(cells)
    } else {
        match with_rooms(cells, rooms.drop_last()) {
            None => None,
            Some(before) => if shell_is_free(before, rooms.last()) {
                Some(before.union_prefer_right(shell(rooms.last())))
            } else {
                None
            },
        }
    }
}

/// If the first `n` rooms cannot be written, the whole sequence cannot.
pub proof fn lemma_with_rooms_prefix(cells: Cells, rooms: Seq<Room>, n: int)
    requires
        0 <= n <= rooms.len(),
        with_rooms(cells, rooms.subrange(0, n)) is None,
    ensures
        with_rooms(cells, rooms) is None,
    decreases rooms.len() - n,
{
    if n < rooms.len() {
        assert(rooms.subrange(0, n + 1).drop_last() =~= rooms.subrange(0, n));
        lemma_with_rooms_prefix(cells, rooms, n + 1);
    } else {
        assert(rooms.subrange(0, n) =~= rooms);
    }
}

/// Some room's shell holds the cell.
pub open spec fn in_some_shell(rooms: Seq<Room>, p: Pos) -> bool {
    exists|i: int| 0 <= i < rooms.len() && in_shell(#[trigger] rooms[i], p)
}

/// Writing rooms adds cells of their shells only.
pub proof fn lemma_written_cells_are_shells(cells: Cells, rooms: Seq<Room>)
    requires
        with_rooms(cells, rooms) is Some,
    ensures
        forall|p: Pos| #[trigger]
            with_rooms(cells, rooms)->0.contains_key(p) ==> cells.contains_key(p) || in_some_shell(
                rooms,
                p,
            ),
    decreases rooms.len(),
{
    if rooms.len() > 0 {
        let front = rooms.drop_last();
        let last = rooms.last();
        let before = with_rooms(cells, front)->0;
        lemma_written_cells_are_shells(cells, front);
        assert forall|p: Pos| #[trigger]
            with_rooms(cells, rooms)->0.contains_key(p) implies cells.contains_key(p)
            || in_some_shell(rooms, p) by {
            if in_shell(last, p) {
                assert(in_shell(rooms[rooms.len() - 1], p));
            } else {
                assert(before.contains_key(p));
                if !cells.contains_key(p) {
                    let i = choose|i: int| 0 <= i < front.len() && in_shell(#[trigger] front[i], p);
                    assert(front[i] == rooms[i]);
                }
            }
        }
    }
}

/// Rooms that were all written share no cell with each other, and every
/// cell of every shell has the class that its room gave it.
pub proof fn lemma_written_rooms_are_disjoint(cells: Cells, rooms: Seq<Room>)
    requires
        with_rooms(cells, rooms) is Some,
    ensures
        forall|i: int, j: int, p: Pos|
            0 <= i < j < rooms.len() ==> !(#[trigger] in_shell(rooms[i], p) && #[trigger] in_shell(
                rooms[j],
                p,
            )),
        forall|i: int, p: Pos|
            0 <= i < rooms.len() && #[trigger] in_shell(rooms[i], p) ==> !cells.contains_key(p)
                && class_at(with_rooms(cells, rooms)->0, p) == shell_class(rooms[i], p),
        forall|p: Pos| #[trigger]
            cells.contains_key(p) ==> with_rooms(cells, rooms)->0.contains_key(p) && with_rooms(
                cells,
                rooms,
            )->0[p] == cells[p],
    decreases rooms.len(),
{
    if rooms.len() > 0 {
        let front = rooms.drop_last();
        let last = rooms.last();
        let before = with_rooms(cells, front)->0;
        let after = with_rooms(cells, rooms)->0;
        lemma_written_rooms_are_disjoint(cells, front);
        assert forall|i: int, j: int, p: Pos| 0 <= i < j < rooms.len() implies !(
        #[trigger] in_shell(rooms[i], p) && #[trigger] in_shell(rooms[j], p)) by {
            if j < rooms.len() - 1 {
                assert(front[i] == rooms[i] && front[j] == rooms[j]);
            } else if in_shell(rooms[i], p) {
                assert(front[i] == rooms[i]);
                assert(class_at(before, p) == shell_class(front[i], p));
                assert(before.contains_key(p));
            }
        }
        assert forall|i: int, p: Pos|
            0 <= i < rooms.len() && #[trigger] in_shell(rooms[i], p) implies !cells.contains_key(p)
            && class_at(after, p) == shell_class(rooms[i], p) by {
            if i < rooms.len() - 1 {
                assert(front[i] == rooms[i]);
                assert(class_at(before, p) == shell_class(front[i], p));
                assert(before.contains_key(p));
                assert(!in_shell(last, p));
            } else {
                assert(shell(last).contains_key(p));
                if cells.contains_key(p) {
                    assert(before.contains_key(p));
                }
            }
        }
        assert forall|p: Pos| #[trigger] cells.contains_key(p) implies after.contains_key(p)
            && after[p] == cells[p] by {
            assert(before.contains_key(p));
            assert(!in_shell(last, p));
        }
    }
}

/// What `add_passage` returns and leaves in the map, as a function of what
/// it is given: the map's cells and bounds, the passage and the rooms.
pub open spec fn passage_outcome(
    before: Cells,
    lower: Pos,
    upper: Pos,
    passage: PassageSpec,
    rooms: Map<u64, Room>,
) -> (Result<(), VoxelMapError>, Cells) {
    if !rooms.contains_key(passage.end_room_id.spec_inner()) {
        (Err(VoxelMapError::NoRoom(passage.end_room_id)), before)
    } else {
        match routed(before, lower, upper, passage, rooms[passage.end_room_id.spec_inner()]) {
            Some(cells) => (Ok(()), before.union_prefer_right(cells)),
            None => (Err(VoxelMapError::Unreachable), before),
        }
    }
}

/// `add_passage` never fails with a conflict, and a failure leaves the map
/// as it was.
pub proof fn lemma_passage_outcome_on_failure(
    before: Cells,
    lower: Pos,
    upper: Pos,
    passage: PassageSpec,
    rooms: Map<u64, Room>,
)
    ensures
        passage_outcome(before, lower, upper, passage, rooms).0 != Err::<(), VoxelMapError>(
            VoxelMapError::Conflict,
        ),
        passage_outcome(before, lower, upper, passage, rooms).0 is Err ==> passage_outcome(
            before,
            lower,
            upper,
            passage,
            rooms,
        ).1 == before,
{
}

} // verus!
