//! A second generator: rooms are taken from a catalogue of candidates and
//! attached to each other, exit to entrance, starting from one room at the
//! origin.
use crate::constants::Direction4;
use crate::rng::gen_index;
use crate::rng::shuffle;
use crate::room::RoomId;
use rand::rngs::StdRng;
use std::collections::BTreeMap;
use std::collections::BTreeSet;
use std::collections::VecDeque;
use vstd::prelude::*;
use vstd::std_specs::cmp::OrdSpec;
use vstd::std_specs::iter::IteratorSpec;

verus! {

/// A place where a room can be left or entered: a cell of the room and the
/// direction in which the room is left there.
pub type Exit = ((i32, i32, i32), Direction4);

/// The address of a cell, wide enough for any sum of a few 32-bit numbers.
pub type Cell = (i64, i64, i64);

/// A kind of room in the catalogue.
#[derive(Debug)]
pub struct CEDRoomCandidate {
    pub width: u32,
    pub height: u32,
    pub depth: u32,
    /// The exits, as cells of the room counted from its origin (x, y, z).
    pub exit_and_entrances: Vec<Exit>,
    /// Whether a room of this kind may have a single neighbour.
    pub can_be_terminal: bool,
}

impl Default for CEDRoomCandidate {
    /// A room of three by one by three cells without exits.
    fn default() -> (c: Self)
        ensures
            c.width == 3,
            c.height == 1,
            c.depth == 3,
            c.exit_and_entrances@ == Seq::<Exit>::empty(),
            c.can_be_terminal,
    {
        CEDRoomCandidate {
            width: 3,
            height: 1,
            depth: 3,
            exit_and_entrances: Vec::new(),
            can_be_terminal: true,
        }
    }
}

/// The options of the generator.
pub struct CEDConfig {
    pub room_candidates: Vec<CEDRoomCandidate>,
    /// The generator stops adding rooms when it has this many.
    pub room_size_max: usize,
    /// Seed of the random generator; without one the generator is seeded
    /// from the system.
    pub seed: Option<u64>,
}

/// A candidate with the given size and exits.
fn candidate(size: (u32, u32, u32), exits: Vec<Exit>, can_be_terminal: bool) -> (c:
    CEDRoomCandidate)
    ensures
        c.width == size.0,
        c.height == size.1,
        c.depth == size.2,
        c.exit_and_entrances@ == exits@,
        c.can_be_terminal == can_be_terminal,
{
    CEDRoomCandidate {
        width: size.0,
        height: size.1,
        depth: size.2,
        exit_and_entrances: exits,
        can_be_terminal,
    }
}

impl Default for CEDConfig {
    /// A catalogue of a square room, four rooms with three exits and four
    /// stairs, and at most twenty rooms.
    fn default() -> (c: Self)
        ensures
            c.room_candidates@.len() == 9,
            c.room_size_max == 20,
            c.seed is None,
            forall|i: int| 0 <= i < 9 ==> valid_candidate(#[trigger] c.room_candidates@[i]),
    {
        let mut room_candidates: Vec<CEDRoomCandidate> = Vec::new();
        // square
        room_candidates.push(
            candidate(
                (3, 1, 3),
                vec![
                    ((0, 0, 1), Direction4::Left),
                    ((2, 0, 1), Direction4::Right),
                    ((1, 0, 2), Direction4::Near),
                    ((1, 0, 0), Direction4::Far),
                ],
                true,
            ),
        );
        // three exits, open to the near side
        room_candidates.push(
            candidate(
                (3, 1, 2),
                vec![
                    ((0, 0, 1), Direction4::Left),
                    ((2, 0, 1), Direction4::Right),
                    ((1, 0, 1), Direction4::Near),
                ],
                true,
            ),
        );
        // three exits, open to the far side
        room_candidates.push(
            candidate(
                (3, 1, 2),
                vec![
                    ((0, 0, 0), Direction4::Left),
                    ((2, 0, 0), Direction4::Right),
                    ((1, 0, 0), Direction4::Far),
                ],
                true,
            ),
        );
        // three exits, open to the left
        room_candidates.push(
            candidate(
                (2, 1, 3),
                vec![
                    ((1, 0, 2), Direction4::Near),
                    ((1, 0, 0), Direction4::Far),
                    ((0, 0, 1), Direction4::Left),
                ],
                true,
            ),
        );
        // three exits, open to the right
        room_candidates.push(
            candidate(
                (2, 1, 3),
                vec![
                    ((0, 0, 2), Direction4::Near),
                    ((0, 0, 0), Direction4::Far),
                    ((1, 0, 1), Direction4::Right),
                ],
                true,
            ),
        );
        // stair from the left up to the right
        room_candidates.push(
            candidate(
                (1, 2, 1),
                vec![((0, 0, 0), Direction4::Left), ((0, 1, 0), Direction4::Right)],
                false,
            ),
        );
        // stair from the right up to the left
        room_candidates.push(
            candidate(
                (1, 2, 1),
                vec![((0, 1, 0), Direction4::Left), ((0, 0, 0), Direction4::Right)],
                false,
            ),
        );
        // stair from the near side up to the far side
        room_candidates.push(
            candidate(
                (1, 2, 1),
                vec![((0, 0, 0), Direction4::Near), ((0, 1, 0), Direction4::Far)],
                false,
            ),
        );
        // stair from the far side up to the near side
        room_candidates.push(
            candidate(
                (1, 2, 1),
                vec![((0, 1, 0), Direction4::Near), ((0, 0, 0), Direction4::Far)],
                false,
            ),
        );
        CEDConfig { room_candidates, room_size_max: 20, seed: None }
    }
}

/// A room that was placed: its kind, as an index into the catalogue, and
/// its origin.
#[derive(Debug, Copy, Clone)]
pub struct RoomCandidateEntity {
    pub index: usize,
    pub origin: (i32, i32, i32),
}

/// What is left of a generation: the catalogue, the rooms that were placed
/// and, for each room, the rooms attached to it, all by the numbers of
/// their identifiers.
#[derive(Debug)]
pub struct CEDResult {
    pub room_candidates: Vec<CEDRoomCandidate>,
    pub room_candidate_entities: BTreeMap<u64, RoomCandidateEntity>,
    pub room_candidate_connections: BTreeMap<u64, BTreeSet<u64>>,
}

/// Why no dungeon was generated.
#[derive(Debug, Copy, Clone, PartialEq, Eq, Structural)]
pub enum CEDError {
    /// The candidate at `index` has an exit that is not on the side of the
    /// room that it leaves, or not at a height inside the room.
    InvalidRoomCandidateExitAndEntrance { index: usize },
}

/// The exit at (x, z) lies on the side of the room that `dir` leaves.
pub open spec fn spec_validate_dir(x: i32, z: i32, width: u32, depth: u32, dir: Direction4) -> bool {
    ||| x == 0 && dir == Direction4::Left
    ||| x == width - 1 && dir == Direction4::Right
    ||| z == 0 && dir == Direction4::Far
    ||| z == depth - 1 && dir == Direction4::Near
}

/// Whether the exit at (x, z) lies on the side of the room that `dir`
/// leaves.
pub fn validate_dir_of_room_candidate(x: i32, z: i32, width: u32, depth: u32, dir: Direction4) -> (r:
    bool)
    ensures
        r == spec_validate_dir(x, z, width, depth, dir),
{
    (x == 0 && dir == Direction4::Left) || (x as i64 == width as i64 - 1 && dir
        == Direction4::Right) || (z == 0 && dir == Direction4::Far) || (z as i64 == depth as i64
        - 1 && dir == Direction4::Near)
}

/// The exit is at a height inside the room and on the side that it leaves.
pub open spec fn valid_exit(c: CEDRoomCandidate, e: Exit) -> bool {
    0 <= e.0.1 < c.height && spec_validate_dir(e.0.0, e.0.2, c.width, c.depth, e.1)
}

/// Every exit of the candidate is valid.
pub open spec fn valid_candidate(c: CEDRoomCandidate) -> bool {
    forall|i: int| 0 <= i < c.exit_and_entrances@.len() ==> valid_exit(c, #[trigger] c.exit_and_entrances@[i])
}

/// Whether every exit of the candidate is valid.
pub fn check_candidate(c: &CEDRoomCandidate) -> (r: bool)
    ensures
        r == valid_candidate(*c),
{
    let mut i: usize = 0;
    while i < c.exit_and_entrances.len()
        invariant
            i <= c.exit_and_entrances@.len(),
            forall|j: int| 0 <= j < i ==> valid_exit(*c, #[trigger] c.exit_and_entrances@[j]),
        decreases c.exit_and_entrances@.len() - i,
    {
        let e = c.exit_and_entrances[i];
        let y = e.0.1;
        if y < 0 || c.height as i64 <= y as i64 || !validate_dir_of_room_candidate(
            e.0.0,
            e.0.2,
            c.width,
            c.depth,
            e.1,
        ) {
            return false;
        }
        i = i + 1;
    }
    true
}

/// The first candidate of the catalogue that has an invalid exit, if any.
pub fn find_invalid_candidate(candidates: &Vec<CEDRoomCandidate>) -> (r: Option<usize>)
    ensures
        match r {
            Some(index) => index < candidates@.len() && !valid_candidate(candidates@[index as int])
                && forall|j: int| 0 <= j < index ==> valid_candidate(#[trigger] candidates@[j]),
            None => forall|j: int|
                0 <= j < candidates@.len() ==> valid_candidate(#[trigger] candidates@[j]),
        },
{
    let mut i: usize = 0;
    while i < candidates.len()
        invariant
            i <= candidates@.len(),
            forall|j: int| 0 <= j < i ==> valid_candidate(#[trigger] candidates@[j]),
        decreases candidates@.len() - i,
    {
        if !check_candidate(&candidates[i]) {
            return Some(i);
        }
        i = i + 1;
    }
    None
}

/// The cell of the last exit that leaves in the direction `dir`, if there is
/// one.
pub open spec fn spec_exit_of(exits: Seq<Exit>, dir: Direction4) -> Option<(i32, i32, i32)>
    decreases exits.len(),
{
    if exits.len() == 0 {
        None
    } else if exits.last().1 == dir {
        Some(exits.last().0)
    } else {
        spec_exit_of(exits.drop_last(), dir)
    }
}

/// The cell of the candidate's exit in the direction `dir`: of the last one
/// listed, if several leave that way.
pub fn exit_of(c: &CEDRoomCandidate, dir: Direction4) -> (r: Option<(i32, i32, i32)>)
    ensures
        r == spec_exit_of(c.exit_and_entrances@, dir),
{
    let mut i: usize = c.exit_and_entrances.len();
    proof {
        assert(c.exit_and_entrances@.subrange(0, i as int) =~= c.exit_and_entrances@);
    }
    while i > 0
        invariant
            i <= c.exit_and_entrances@.len(),
            spec_exit_of(c.exit_and_entrances@, dir) == spec_exit_of(
                c.exit_and_entrances@.subrange(0, i as int),
                dir,
            ),
        decreases i,
    {
        let e = c.exit_and_entrances[i - 1];
        proof {
            let front = c.exit_and_entrances@.subrange(0, i as int);
            assert(front.last() == e);
            assert(front.drop_last() =~= c.exit_and_entrances@.subrange(0, i - 1));
        }
        if e.1 == dir {
            return Some(e.0);
        }
        i = i - 1;
    }
    None
}

/// The exits of one candidate that leave in the direction `dir`, each with
/// the index of the candidate, in the order in which they are listed.
pub open spec fn exits_towards(exits: Seq<Exit>, index: usize, dir: Direction4) -> Seq<
    (usize, (i32, i32, i32)),
>
    decreases exits.len(),
{
    if exits.len() == 0 {
        Seq::empty()
    } else if exits.last().1 == dir {
        exits_towards(exits.drop_last(), index, dir).push((index, exits.last().0))
    } else {
        exits_towards(exits.drop_last(), index, dir)
    }
}

/// The exits of all candidates that leave in the direction `dir`, candidate
/// after candidate.
pub open spec fn all_towards(candidates: Seq<CEDRoomCandidate>, dir: Direction4) -> Seq<
    (usize, (i32, i32, i32)),
>
    decreases candidates.len(),
{
    if candidates.len() == 0 {
        Seq::empty()
    } else {
        all_towards(candidates.drop_last(), dir) + exits_towards(
            candidates.last().exit_and_entrances@,
            (candidates.len() - 1) as usize,
            dir,
        )
    }
}

/// The exits of all candidates that leave in the direction `dir`, each with
/// the index of its candidate.
pub fn entrances_towards(candidates: &Vec<CEDRoomCandidate>, dir: Direction4) -> (out: Vec<
    (usize, (i32, i32, i32)),
>)
    ensures
        out@ == all_towards(candidates@, dir),
{
    let mut out: Vec<(usize, (i32, i32, i32))> = Vec::new();
    let mut i: usize = 0;
    proof {
        assert(candidates@.subrange(0, 0) =~= Seq::<CEDRoomCandidate>::empty());
    }
    while i < candidates.len()
        invariant
            i <= candidates@.len(),
            out@ == all_towards(candidates@.subrange(0, i as int), dir),
        decreases candidates@.len() - i,
    {
        let exits = &candidates[i].exit_and_entrances;
        let ghost before = out@;
        let mut j: usize = 0;
        proof {
            assert(exits@.subrange(0, 0) =~= Seq::<Exit>::empty());
            assert(before + Seq::<(usize, (i32, i32, i32))>::empty() =~= before);
        }
        while j < exits.len()
            invariant
                j <= exits@.len(),
                out@ == before + exits_towards(exits@.subrange(0, j as int), i, dir),
            decreases exits@.len() - j,
        {
            let e = exits[j];
            proof {
                let front = exits@.subrange(0, j + 1);
                assert(front.last() == e);
                assert(front.drop_last() =~= exits@.subrange(0, j as int));
            }
            if e.1 == dir {
                out.push((i, e.0));
                proof {
                    let short = exits_towards(exits@.subrange(0, j as int), i, dir);
                    assert(out@ =~= before + short.push((i, e.0)));
                }
            }
            j = j + 1;
        }
        proof {
            assert(exits@.subrange(0, exits@.len() as int) =~= exits@);
            let front = candidates@.subrange(0, i + 1);
            assert(front.last() == candidates@[i as int]);
            assert(front.drop_last() =~= candidates@.subrange(0, i as int));
        }
        i = i + 1;
    }
    proof {
        assert(candidates@.subrange(0, candidates@.len() as int) =~= candidates@);
    }
    out
}

/// `p` is a cell of the box of the given size at `origin`.
pub open spec fn in_cuboid(origin: Cell, size: (u32, u32, u32), p: Cell) -> bool {
    &&& origin.0 <= p.0 < origin.0 + size.0
    &&& origin.1 <= p.1 < origin.1 + size.1
    &&& origin.2 <= p.2 < origin.2 + size.2
}

/// Some cell of the box is taken.
pub open spec fn cuboid_taken(cells: Map<Cell, usize>, origin: Cell, size: (u32, u32, u32)) -> bool {
    exists|p: Cell| in_cuboid(origin, size, p) && #[trigger] cells.contains_key(p)
}

/// Every coordinate is a sum of a few 32-bit numbers at most.
pub open spec fn nearby(p: Cell) -> bool {
    &&& -0x100_0000_0000 <= p.0 <= 0x100_0000_0000
    &&& -0x100_0000_0000 <= p.1 <= 0x100_0000_0000
    &&& -0x100_0000_0000 <= p.2 <= 0x100_0000_0000
}

/// `p` is a cell of the box that the order of writing reaches before the
/// cell (x, y, z): column by column.
pub open spec fn cuboid_before(origin: Cell, size: (u32, u32, u32), p: Cell, x: int, y: int, z: int) -> bool {
    in_cuboid(origin, size, p) && (p.0 < x || (p.0 == x && (p.1 < y || (p.1 == y && p.2 < z))))
}

/// Cell addresses are ordered as the ordered maps need them to be.
pub open spec fn cells_ordered() -> bool {
    &&& vstd::laws_cmp::obeys_cmp::<Cell>()
    &&& vstd::laws_cmp::obeys_cmp::<u64>()
    &&& vstd::std_specs::btree::key_obeys_cmp_spec::<u64>()
}

/// Cell addresses are ordered as the ordered maps need them to be.
pub proof fn lemma_cells_ordered()
    ensures
        cells_ordered(),
{
    broadcast use vstd::laws_cmp::group_laws_cmp;
    broadcast use vstd::std_specs::btree::group_btree_axioms;

}

/// Whether some cell of the box of a room of the given size at `origin` is
/// taken.
pub fn any_cell(cells: &BTreeMap<Cell, usize>, origin: Cell, size: (u32, u32, u32)) -> (r: bool)
    requires
        nearby(origin),
    ensures
        r == cuboid_taken(cells@, origin, size),
{
    broadcast use vstd::std_specs::btree::group_btree_axioms;

    proof {
        lemma_cells_ordered();
    }
    let x1: i64 = origin.0 + size.0 as i64;
    let y1: i64 = origin.1 + size.1 as i64;
    let z1: i64 = origin.2 + size.2 as i64;
    let mut x: i64 = origin.0;
    while x < x1
        invariant
            cells_ordered(),
            nearby(origin),
            x1 == origin.0 + size.0,
            y1 == origin.1 + size.1,
            z1 == origin.2 + size.2,
            origin.0 <= x <= x1,
            forall|p: Cell|
                cuboid_before(origin, size, p, x as int, origin.1 as int, origin.2 as int)
                    ==> !#[trigger] cells@.contains_key(p),
        decreases x1 - x,
    {
        let mut y: i64 = origin.1;
        while y < y1
            invariant
                cells_ordered(),
                nearby(origin),
                x1 == origin.0 + size.0,
                y1 == origin.1 + size.1,
                z1 == origin.2 + size.2,
                origin.0 <= x < x1,
                origin.1 <= y <= y1,
                forall|p: Cell|
                    cuboid_before(origin, size, p, x as int, y as int, origin.2 as int)
                        ==> !#[trigger] cells@.contains_key(p),
            decreases y1 - y,
        {
            let mut z: i64 = origin.2;
            while z < z1
                invariant
                    cells_ordered(),
                    nearby(origin),
                    x1 == origin.0 + size.0,
                    y1 == origin.1 + size.1,
                    z1 == origin.2 + size.2,
                    origin.0 <= x < x1,
                    origin.1 <= y < y1,
                    origin.2 <= z <= z1,
                    forall|p: Cell|
                        cuboid_before(origin, size, p, x as int, y as int, z as int)
                            ==> !#[trigger] cells@.contains_key(p),
                decreases z1 - z,
            {
                let p: Cell = (x, y, z);
                if cells.contains_key(&p) {
                    proof {
                        assert(in_cuboid(origin, size, p));
                    }
                    return true;
                }
                z = z + 1;
            }
            y = y + 1;
        }
        x = x + 1;
    }
    proof {
        assert forall|p: Cell| in_cuboid(origin, size, p) implies !#[trigger] cells@.contains_key(
            p,
        ) by {
            assert(cuboid_before(origin, size, p, x as int, origin.1 as int, origin.2 as int));
        }
    }
    false
}

/// Marks every cell of the box of a room of the given size at `origin` as
/// taken by the candidate `index`.
pub fn occupy(cells: &mut BTreeMap<Cell, usize>, origin: Cell, size: (u32, u32, u32), index: usize)
    requires
        nearby(origin),
    ensures
        final(cells)@ == old(cells)@.union_prefer_right(
            Map::new(|p: Cell| in_cuboid(origin, size, p), |p: Cell| index),
        ),
{
    broadcast use vstd::std_specs::btree::group_btree_axioms;

    proof {
        lemma_cells_ordered();
    }
    let ghost before = cells@;
    let x1: i64 = origin.0 + size.0 as i64;
    let y1: i64 = origin.1 + size.1 as i64;
    let z1: i64 = origin.2 + size.2 as i64;
    let mut x: i64 = origin.0;
    proof {
        assert(cells@ =~= before.union_prefer_right(
            Map::new(
                |p: Cell| cuboid_before(origin, size, p, x as int, origin.1 as int, origin.2 as int),
                |p: Cell| index,
            ),
        ));
    }
    while x < x1
        invariant
            cells_ordered(),
            nearby(origin),
            x1 == origin.0 + size.0,
            y1 == origin.1 + size.1,
            z1 == origin.2 + size.2,
            origin.0 <= x <= x1,
            cells@ == before.union_prefer_right(
                Map::new(
                    |p: Cell|
                        cuboid_before(origin, size, p, x as int, origin.1 as int, origin.2 as int),
                    |p: Cell| index,
                ),
            ),
        decreases x1 - x,
    {
        let mut y: i64 = origin.1;
        while y < y1
            invariant
                cells_ordered(),
                nearby(origin),
                x1 == origin.0 + size.0,
                y1 == origin.1 + size.1,
                z1 == origin.2 + size.2,
                origin.0 <= x < x1,
                origin.1 <= y <= y1,
                cells@ == before.union_prefer_right(
                    Map::new(
                        |p: Cell| cuboid_before(origin, size, p, x as int, y as int, origin.2 as int),
                        |p: Cell| index,
                    ),
                ),
            decreases y1 - y,
        {
            let mut z: i64 = origin.2;
            while z < z1
                invariant
                    cells_ordered(),
                    nearby(origin),
                    x1 == origin.0 + size.0,
                    y1 == origin.1 + size.1,
                    z1 == origin.2 + size.2,
                    origin.0 <= x < x1,
                    origin.1 <= y < y1,
                    origin.2 <= z <= z1,
                    cells@ == before.union_prefer_right(
                        Map::new(
                            |p: Cell| cuboid_before(origin, size, p, x as int, y as int, z as int),
                            |p: Cell| index,
                        ),
                    ),
                decreases z1 - z,
            {
                cells.insert((x, y, z), index);
                z = z + 1;
                proof {
                    assert(cells@ =~= before.union_prefer_right(
                        Map::new(
                            |p: Cell| cuboid_before(origin, size, p, x as int, y as int, z as int),
                            |p: Cell| index,
                        ),
                    ));
                }
            }
            y = y + 1;
            proof {
                assert(cells@ =~= before.union_prefer_right(
                    Map::new(
                        |p: Cell| cuboid_before(origin, size, p, x as int, y as int, origin.2 as int),
                        |p: Cell| index,
                    ),
                ));
            }
        }
        x = x + 1;
        proof {
            assert(cells@ =~= before.union_prefer_right(
                Map::new(
                    |p: Cell|
                        cuboid_before(origin, size, p, x as int, origin.1 as int, origin.2 as int),
                    |p: Cell| index,
                ),
            ));
        }
    }
    proof {
        assert(cells@ =~= before.union_prefer_right(
            Map::new(|p: Cell| in_cuboid(origin, size, p), |p: Cell| index),
        ));
    }
}

/// The point as a cell address.
pub open spec fn wide(p: (i32, i32, i32)) -> Cell {
    (p.0 as i64, p.1 as i64, p.2 as i64)
}

/// The cell has 32-bit coordinates.
pub open spec fn fits32(p: Cell) -> bool {
    &&& i32::MIN <= p.0 <= i32::MAX
    &&& i32::MIN <= p.1 <= i32::MAX
    &&& i32::MIN <= p.2 <= i32::MAX
}

/// The cell `a` moved back by `b`.
pub open spec fn minus(a: Cell, b: (i32, i32, i32)) -> Cell {
    ((a.0 - b.0) as i64, (a.1 - b.1) as i64, (a.2 - b.2) as i64)
}

/// The candidate named by `item` can be attached with its entrance at the
/// cell `entrance`, which it is entered through against the direction `dir`:
/// none of its cells is taken when its own exit in that direction lies on
/// the entrance, and its origin, which is the entrance moved back by the
/// exit that `item` names, has 32-bit coordinates.
pub open spec fn placeable(
    cells: Map<Cell, usize>,
    candidates: Seq<CEDRoomCandidate>,
    item: (usize, (i32, i32, i32)),
    entrance: Cell,
    dir: Direction4,
) -> bool {
    &&& item.0 < candidates.len()
    &&& spec_exit_of(candidates[item.0 as int].exit_and_entrances@, dir) matches Some(own)
    &&& !cuboid_taken(
        cells,
        minus(entrance, own),
        (
            candidates[item.0 as int].width,
            candidates[item.0 as int].height,
            candidates[item.0 as int].depth,
        ),
    )
    &&& fits32(minus(entrance, item.1))
}

/// The cell `a` moved back by `b`.
fn moved_back(a: Cell, b: (i32, i32, i32)) -> (r: Cell)
    requires
        -0x8_0000_0000 <= a.0 <= 0x8_0000_0000,
        -0x8_0000_0000 <= a.1 <= 0x8_0000_0000,
        -0x8_0000_0000 <= a.2 <= 0x8_0000_0000,
    ensures
        r == minus(a, b),
        nearby(r),
{
    (a.0 - b.0 as i64, a.1 - b.1 as i64, a.2 - b.2 as i64)
}

/// Whether the candidate named by `item` can be attached at `entrance`.
pub fn can_place(
    cells: &BTreeMap<Cell, usize>,
    candidates: &Vec<CEDRoomCandidate>,
    item: (usize, (i32, i32, i32)),
    entrance: Cell,
    dir: Direction4,
) -> (r: bool)
    requires
        -0x8_0000_0000 <= entrance.0 <= 0x8_0000_0000,
        -0x8_0000_0000 <= entrance.1 <= 0x8_0000_0000,
        -0x8_0000_0000 <= entrance.2 <= 0x8_0000_0000,
    ensures
        r == placeable(cells@, candidates@, item, entrance, dir),
{
    if item.0 >= candidates.len() {
        return false;
    }
    let c = &candidates[item.0];
    let own = match exit_of(c, dir) {
        None => {
            return false;
        },
        Some(own) => own,
    };
    if any_cell(cells, moved_back(entrance, own), (c.width, c.height, c.depth)) {
        return false;
    }
    let origin = moved_back(entrance, item.1);
    i32::MIN as i64 <= origin.0 && origin.0 <= i32::MAX as i64 && i32::MIN as i64 <= origin.1
        && origin.1 <= i32::MAX as i64 && i32::MIN as i64 <= origin.2 && origin.2
        <= i32::MAX as i64
}

/// The first entry of `list` whose candidate can be attached at `entrance`.
pub fn find_placeable(
    cells: &BTreeMap<Cell, usize>,
    candidates: &Vec<CEDRoomCandidate>,
    list: &Vec<(usize, (i32, i32, i32))>,
    entrance: Cell,
    dir: Direction4,
) -> (r: Option<usize>)
    requires
        -0x8_0000_0000 <= entrance.0 <= 0x8_0000_0000,
        -0x8_0000_0000 <= entrance.1 <= 0x8_0000_0000,
        -0x8_0000_0000 <= entrance.2 <= 0x8_0000_0000,
    ensures
        match r {
            Some(k) => k < list@.len() && placeable(
                cells@,
                candidates@,
                list@[k as int],
                entrance,
                dir,
            ) && forall|j: int|
                0 <= j < k ==> !placeable(cells@, candidates@, #[trigger] list@[j], entrance, dir),
            None => forall|j: int|
                0 <= j < list@.len() ==> !placeable(
                    cells@,
                    candidates@,
                    #[trigger] list@[j],
                    entrance,
                    dir,
                ),
        },
{
    let mut k: usize = 0;
    while k < list.len()
        invariant
            k <= list@.len(),
            -0x8_0000_0000 <= entrance.0 <= 0x8_0000_0000,
            -0x8_0000_0000 <= entrance.1 <= 0x8_0000_0000,
            -0x8_0000_0000 <= entrance.2 <= 0x8_0000_0000,
            forall|j: int|
                0 <= j < k ==> !placeable(cells@, candidates@, #[trigger] list@[j], entrance, dir),
        decreases list@.len() - k,
    {
        if can_place(cells, candidates, list[k], entrance, dir) {
            return Some(k);
        }
        k = k + 1;
    }
    None
}

/// The place of a direction in the fixed order: left, right, far, near.
pub fn dir_index(d: Direction4) -> (i: usize)
    ensures
        i < 4,
        i == match d {
            Direction4::Left => 0int,
            Direction4::Right => 1int,
            Direction4::Far => 2int,
            Direction4::Near => 3int,
        },
{
    match d {
        Direction4::Left => 0,
        Direction4::Right => 1,
        Direction4::Far => 2,
        Direction4::Near => 3,
    }
}

/// Records that the room `b` is attached to the room `a`.
pub fn link(connections: &mut BTreeMap<u64, BTreeSet<u64>>, a: u64, b: u64)
    ensures
        forall|k: u64|
            final(connections)@.contains_key(k) <==> (k == a || old(connections)@.contains_key(k)),
        final(connections)@[a]@ == (if old(connections)@.contains_key(a) {
            old(connections)@[a]@.insert(b)
        } else {
            Set::<u64>::empty().insert(b)
        }),
        forall|k: u64|
            k != a && old(connections)@.contains_key(k) ==> final(connections)@[k] == old(
                connections,
            )@[k],
{
    broadcast use vstd::std_specs::btree::group_btree_axioms;

    proof {
        lemma_cells_ordered();
    }
    let mut set = match connections.remove(&a) {
        Some(set) => set,
        None => BTreeSet::new(),
    };
    set.insert(b);
    connections.insert(a, set);
}

/// A room whose exits are still to be tried.
struct Node {
    room_candidate_index: usize,
    origin: (i32, i32, i32),
    from_room_id: Option<u64>,
}

/// Every room that was placed is of a kind of the catalogue.
pub open spec fn kinds_known(
    entities: Map<u64, RoomCandidateEntity>,
    candidates: Seq<CEDRoomCandidate>,
) -> bool {
    forall|id: u64| #[trigger] entities.contains_key(id) ==> entities[id].index < candidates.len()
}

/// The rooms have the identifiers from one up to `count`.
pub open spec fn numbered(entities: Map<u64, RoomCandidateEntity>, count: int) -> bool {
    forall|id: u64| #[trigger] entities.contains_key(id) <==> 1 <= id <= count
}

/// The size of a candidate.
pub open spec fn size_of(c: CEDRoomCandidate) -> (u32, u32, u32) {
    (c.width, c.height, c.depth)
}

/// `p` is a cell of the room `id`.
pub open spec fn room_box(
    entities: Map<u64, RoomCandidateEntity>,
    candidates: Seq<CEDRoomCandidate>,
    id: u64,
    p: Cell,
) -> bool {
    in_cuboid(wide(entities[id].origin), size_of(candidates[entities[id].index as int]), p)
}

/// `p` is a cell of some room.
pub open spec fn in_some_room(
    entities: Map<u64, RoomCandidateEntity>,
    candidates: Seq<CEDRoomCandidate>,
    p: Cell,
) -> bool {
    exists|id: u64| #[trigger] entities.contains_key(id) && room_box(entities, candidates, id, p)
}

/// No cell belongs to two rooms.
pub open spec fn rooms_apart(
    entities: Map<u64, RoomCandidateEntity>,
    candidates: Seq<CEDRoomCandidate>,
) -> bool {
    forall|a: u64, b: u64, p: Cell|
        #![trigger room_box(entities, candidates, a, p), room_box(entities, candidates, b, p)]
        entities.contains_key(a) && entities.contains_key(b) && a != b ==> !(room_box(
            entities,
            candidates,
            a,
            p,
        ) && room_box(entities, candidates, b, p))
}

/// No candidate has two exits that leave in the same direction.
pub open spec fn single_exits(candidates: Seq<CEDRoomCandidate>) -> bool {
    forall|i: int, a: int, b: int|
        #![trigger candidates[i].exit_and_entrances@[a], candidates[i].exit_and_entrances@[b]]
        0 <= i < candidates.len() && 0 <= a < b < candidates[i].exit_and_entrances@.len()
            ==> candidates[i].exit_and_entrances@[a].1 != candidates[i].exit_and_entrances@[b].1
}

/// The item names a candidate and one of its exits in the direction `dir`.
pub open spec fn listed(
    candidates: Seq<CEDRoomCandidate>,
    item: (usize, (i32, i32, i32)),
    dir: Direction4,
) -> bool {
    item.0 < candidates.len() && candidates[item.0 as int].exit_and_entrances@.contains(
        (item.1, dir),
    )
}

/// The direction at a place of the fixed order: left, right, far, near.
pub open spec fn dir_at(i: int) -> Direction4 {
    if i == 0 {
        Direction4::Left
    } else if i == 1 {
        Direction4::Right
    } else if i == 2 {
        Direction4::Far
    } else {
        Direction4::Near
    }
}

/// Every item of `exits_towards` names the candidate and one of its exits.
pub proof fn lemma_exits_towards_listed(exits: Seq<Exit>, index: usize, dir: Direction4)
    ensures
        forall|k: int|
            0 <= k < exits_towards(exits, index, dir).len() ==> (#[trigger] exits_towards(
                exits,
                index,
                dir,
            )[k]).0 == index && exits.contains((exits_towards(exits, index, dir)[k].1, dir)),
    decreases exits.len(),
{
    if exits.len() > 0 {
        let front = exits.drop_last();
        lemma_exits_towards_listed(front, index, dir);
        let out = exits_towards(exits, index, dir);
        assert forall|k: int| 0 <= k < out.len() implies (#[trigger] out[k]).0 == index
            && exits.contains((out[k].1, dir)) by {
            let inner = exits_towards(front, index, dir);
            if k < inner.len() {
                assert(out[k] == inner[k]);
                let at = choose|at: int| 0 <= at < front.len() && front[at] == (inner[k].1, dir);
                assert(exits[at] == front[at]);
            } else {
                assert(exits[exits.len() - 1] == (out[k].1, dir));
            }
        }
    }
}

/// Every item of `all_towards` is listed.
pub proof fn lemma_all_towards_listed(candidates: Seq<CEDRoomCandidate>, dir: Direction4)
    requires
        candidates.len() <= usize::MAX,
    ensures
        forall|k: int|
            0 <= k < all_towards(candidates, dir).len() ==> listed(
                candidates,
                #[trigger] all_towards(candidates, dir)[k],
                dir,
            ),
    decreases candidates.len(),
{
    if candidates.len() > 0 {
        let front = candidates.drop_last();
        let last = candidates.last();
        lemma_all_towards_listed(front, dir);
        lemma_exits_towards_listed(last.exit_and_entrances@, (candidates.len() - 1) as usize, dir);
        let out = all_towards(candidates, dir);
        let inner = all_towards(front, dir);
        assert forall|k: int| 0 <= k < out.len() implies listed(candidates, #[trigger] out[k], dir) by {
            if k < inner.len() {
                assert(out[k] == inner[k]);
                assert(listed(front, inner[k], dir));
                assert(front[inner[k].0 as int] == candidates[inner[k].0 as int]);
            } else {
                assert(candidates[candidates.len() - 1] == last);
            }
        }
    }
}

/// Where no two exits leave in the same direction, the exit of a direction
/// is the one that is listed for it.
pub proof fn lemma_single_exit(exits: Seq<Exit>, p: (i32, i32, i32), dir: Direction4)
    requires
        exits.contains((p, dir)),
        forall|a: int, b: int| 0 <= a < b < exits.len() ==> (#[trigger] exits[a]).1 != (
        #[trigger] exits[b]).1,
    ensures
        spec_exit_of(exits, dir) == Some(p),
    decreases exits.len(),
{
    let at = choose|at: int| 0 <= at < exits.len() && exits[at] == (p, dir);
    if exits.last().1 == dir {
        if at < exits.len() - 1 {
            assert(exits[at].1 != exits[exits.len() - 1].1);
        }
    } else {
        let front = exits.drop_last();
        assert(front[at] == (p, dir));
        assert forall|a: int, b: int| 0 <= a < b < front.len() implies (#[trigger] front[a]).1 != (
        #[trigger] front[b]).1 by {
            assert(front[a] == exits[a] && front[b] == exits[b]);
        }
        lemma_single_exit(front, p, dir);
    }
}

/// Places a first room at the origin and attaches rooms to the exits of the
/// rooms placed so far, in the order in which they were placed, until
/// `room_size_max` rooms are placed or no exit is left.
///
/// The first room, the order in which the exits of a room are tried and the
/// order in which the candidates for an exit are tried are drawn from
/// `rng`. A candidate is attached where none of its cells is taken.
///
/// Returns the rooms, for each room the rooms attached to it, and the
/// number of rooms. Where no candidate has two exits in one direction, no
/// two rooms share a cell.
pub fn grow(candidates: &Vec<CEDRoomCandidate>, room_size_max: usize, rng: &mut StdRng) -> (r: (
    BTreeMap<u64, RoomCandidateEntity>,
    BTreeMap<u64, BTreeSet<u64>>,
    usize,
))
    requires
        candidates@.len() > 0,
        room_size_max < usize::MAX,
    ensures
        kinds_known(r.0@, candidates@),
        numbered(r.0@, r.2 as int),
        1 <= r.2,
        r.2 <= room_size_max || r.2 == 1,
        r.0@[1].origin == (0i32, 0i32, 0i32),
        forall|k: u64| #[trigger] r.1@.contains_key(k) ==> 1 <= k <= r.2,
        single_exits(candidates@) ==> rooms_apart(r.0@, candidates@),
        well_linked(r.0@, links_of(r.1@)),
{
    broadcast use vstd::std_specs::btree::group_btree_axioms;

    proof {
        lemma_cells_ordered();
    }
    let mut by_dir: Vec<Vec<(usize, (i32, i32, i32))>> = Vec::new();
    by_dir.push(entrances_towards(candidates, Direction4::Left));
    by_dir.push(entrances_towards(candidates, Direction4::Right));
    by_dir.push(entrances_towards(candidates, Direction4::Far));
    by_dir.push(entrances_towards(candidates, Direction4::Near));
    let mut current_room_id = RoomId::first();
    let mut entities: BTreeMap<u64, RoomCandidateEntity> = BTreeMap::new();
    let mut connections: BTreeMap<u64, BTreeSet<u64>> = BTreeMap::new();
    let mut cells: BTreeMap<Cell, usize> = BTreeMap::new();
    let mut queue: VecDeque<Node> = VecDeque::new();
    let first = gen_index(rng, candidates.len());
    queue.push_back(Node { room_candidate_index: first, origin: (0, 0, 0), from_room_id: None });
    let first_id = current_room_id.gen_id();
    entities.insert(first_id.inner(), RoomCandidateEntity { index: first, origin: (0, 0, 0) });
    occupy(
        &mut cells,
        (0, 0, 0),
        (candidates[first].width, candidates[first].height, candidates[first].depth),
        first,
    );
    let mut count: usize = 1;
    proof {
        lemma_all_towards_listed(candidates@, Direction4::Left);
        lemma_all_towards_listed(candidates@, Direction4::Right);
        lemma_all_towards_listed(candidates@, Direction4::Far);
        lemma_all_towards_listed(candidates@, Direction4::Near);
        assert forall|p: Cell| cells@.contains_key(p) <==> in_some_room(
            entities@,
            candidates@,
            p,
        ) by {
            if cells@.contains_key(p) {
                assert(entities@.contains_key(1u64) && room_box(entities@, candidates@, 1u64, p));
            }
        }
    }
    loop
        invariant
            cells_ordered(),
            candidates@.len() > 0,
            room_size_max < usize::MAX,
            by_dir@.len() == 4,
            forall|a: int, k: int|
                0 <= a < 4 && 0 <= k < by_dir@[a]@.len() ==> listed(
                    candidates@,
                    #[trigger] by_dir@[a]@[k],
                    dir_at(a),
                ),
            forall|p: Cell| cells@.contains_key(p) <==> in_some_room(entities@, candidates@, p),
            single_exits(candidates@) ==> rooms_apart(entities@, candidates@),
            1 <= count,
            count <= room_size_max || count == 1,
            current_room_id.spec_inner() == count + 1,
            kinds_known(entities@, candidates@),
            numbered(entities@, count as int),
            entities@[1].origin == (0i32, 0i32, 0i32),
            forall|k: u64| #[trigger] connections@.contains_key(k) ==> 1 <= k <= count,
            forall|i: int|
                0 <= i < queue@.len() ==> (#[trigger] queue@[i]).room_candidate_index
                    < candidates@.len(),
            forall|i: int|
                0 <= i < queue@.len() ==> ((#[trigger] queue@[i]).from_room_id matches Some(id)
                    ==> 2 <= id <= count),
            well_linked(entities@, links_of(connections@)),
        decreases
                (if count < room_size_max {
                    room_size_max - count
                } else {
                    0
                }),
                queue@.len(),
    {
        let node = match queue.pop_front() {
            None => {
                break ;
            },
            Some(node) => node,
        };
        if count >= room_size_max {
            break ;
        }
        let ghost count_before = count;
        let ghost queue_before = queue@.len();
        let room_candidate = &candidates[node.room_candidate_index];
        let mut dirs: Vec<Direction4> = Vec::new();
        dirs.push(Direction4::Left);
        dirs.push(Direction4::Right);
        dirs.push(Direction4::Far);
        dirs.push(Direction4::Near);
        shuffle(rng, &mut dirs);
        let mut j: usize = 0;
        while j < dirs.len()
            invariant
                cells_ordered(),
                candidates@.len() > 0,
                room_size_max < usize::MAX,
                by_dir@.len() == 4,
                forall|a: int, k: int|
                    0 <= a < 4 && 0 <= k < by_dir@[a]@.len() ==> listed(
                        candidates@,
                        #[trigger] by_dir@[a]@[k],
                        dir_at(a),
                    ),
                forall|p: Cell| cells@.contains_key(p) <==> in_some_room(entities@, candidates@, p),
                single_exits(candidates@) ==> rooms_apart(entities@, candidates@),
                j <= dirs@.len(),
                count_before < room_size_max,
                count_before <= count <= room_size_max,
                queue@.len() == queue_before + (count - count_before),
                1 <= count,
                current_room_id.spec_inner() == count + 1,
                kinds_known(entities@, candidates@),
                numbered(entities@, count as int),
                entities@[1].origin == (0i32, 0i32, 0i32),
                forall|k: u64| #[trigger] connections@.contains_key(k) ==> 1 <= k <= count,
                forall|i: int|
                    0 <= i < queue@.len() ==> (#[trigger] queue@[i]).room_candidate_index
                        < candidates@.len(),
                forall|i: int|
                    0 <= i < queue@.len() ==> ((#[trigger] queue@[i]).from_room_id matches Some(
                        id,
                    ) ==> 2 <= id <= count),
                node.from_room_id matches Some(id) ==> 2 <= id <= count,
                well_linked(entities@, links_of(connections@)),
            decreases dirs@.len() - j,
        {
            let dir = dirs[j];
            j = j + 1;
            let exit = match exit_of(room_candidate, dir) {
                None => {
                    continue ;
                },
                Some(exit) => exit,
            };
            if count >= room_size_max {
                break ;
            }
            let step = dir.to_vec3();
            let entrance: Cell = (
                node.origin.0 as i64 + exit.0 as i64 + step.0 as i64,
                node.origin.1 as i64 + exit.1 as i64 + step.1 as i64,
                node.origin.2 as i64 + exit.2 as i64 + step.2 as i64,
            );
            let next_dir = dir.opposite();
            let at = dir_index(next_dir);
            let ghost unshuffled = by_dir@[at as int]@;
            shuffle(rng, &mut by_dir[at]);
            proof {
                let shuffled = by_dir@[at as int]@;
                unshuffled.to_multiset_ensures();
                shuffled.to_multiset_ensures();
                assert forall|k: int| 0 <= k < shuffled.len() implies listed(
                    candidates@,
                    #[trigger] shuffled[k],
                    next_dir,
                ) by {
                    let x = shuffled[k];
                    assert(shuffled.contains(x));
                    assert(shuffled.to_multiset() == unshuffled.to_multiset());
                    assert(shuffled.to_multiset().count(x) > 0);
                    assert(unshuffled.to_multiset().count(x) > 0);
                    assert(unshuffled.contains(x));
                    let before = choose|before: int|
                        0 <= before < unshuffled.len() && unshuffled[before] == shuffled[k];
                    assert(listed(candidates@, unshuffled[before], dir_at(at as int)));
                }
            }
            let found = match find_placeable(&cells, candidates, &by_dir[at], entrance, next_dir) {
                None => {
                    continue ;
                },
                Some(found) => found,
            };
            let (index, offset) = by_dir[at][found];
            let next_room_id = current_room_id.gen_id().inner();
            let next_candidate = &candidates[index];
            let origin = moved_back(entrance, offset);
            let ghost cells_before = cells@;
            occupy(
                &mut cells,
                origin,
                (next_candidate.width, next_candidate.height, next_candidate.depth),
                index,
            );
            let ghost links_before = links_of(connections@);
            match node.from_room_id {
                Some(from_room_id) => {
                    link(&mut connections, from_room_id, next_room_id);
                    link(&mut connections, next_room_id, from_room_id);
                    proof {
                        let links = links_of(connections@);
                        assert(!links_before.contains_key(next_room_id));
                        assert(links[next_room_id] =~= Set::<u64>::empty().insert(from_room_id));
                        assert(links[from_room_id] =~= (if links_before.contains_key(
                            from_room_id,
                        ) {
                            links_before[from_room_id].insert(next_room_id)
                        } else {
                            Set::<u64>::empty().insert(next_room_id)
                        }));
                        assert forall|k: u64|
                            k != from_room_id && k != next_room_id implies (links.contains_key(k)
                            <==> links_before.contains_key(k)) && (links_before.contains_key(k)
                            ==> #[trigger] links[k] == links_before[k]) by {}
                    }
                },
                None => {},
            }
            let placed: (i32, i32, i32) = (origin.0 as i32, origin.1 as i32, origin.2 as i32);
            queue.push_back(
                Node {
                    room_candidate_index: index,
                    origin: placed,
                    from_room_id: Some(next_room_id),
                },
            );
            let ghost rooms_before = entities@;
            entities.insert(next_room_id, RoomCandidateEntity { index, origin: placed });
            count = count + 1;
            proof {
                let links = links_of(connections@);
                assert forall|a: u64| #[trigger] links.contains_key(a) implies entities@.contains_key(
                    a,
                ) && a != 1 by {
                    if links_before.contains_key(a) {
                        assert(rooms_before.contains_key(a));
                    }
                }
                assert forall|a: u64, b: u64|
                    links.contains_key(a) && #[trigger] links[a].contains(b) implies links.contains_key(
                    b,
                ) && links[b].contains(a) by {
                    if links_before.contains_key(a) && links_before[a].contains(b) {
                        assert(links_before.contains_key(b) && links_before[b].contains(a));
                    }
                }
                let size = size_of(candidates@[index as int]);
                assert(!rooms_before.contains_key(next_room_id));
                assert forall|id: u64, p: Cell|
                    rooms_before.contains_key(id) implies #[trigger] room_box(
                    entities@,
                    candidates@,
                    id,
                    p,
                ) == room_box(rooms_before, candidates@, id, p) by {}
                assert forall|p: Cell| cells@.contains_key(p) <==> in_some_room(
                    entities@,
                    candidates@,
                    p,
                ) by {
                    if cells@.contains_key(p) {
                        if in_cuboid(origin, size, p) {
                            assert(entities@.contains_key(next_room_id) && room_box(
                                entities@,
                                candidates@,
                                next_room_id,
                                p,
                            ));
                        } else {
                            assert(cells_before.contains_key(p));
                            let id = choose|id: u64| #[trigger]
                                rooms_before.contains_key(id) && room_box(
                                    rooms_before,
                                    candidates@,
                                    id,
                                    p,
                                );
                            assert(entities@.contains_key(id) && room_box(
                                entities@,
                                candidates@,
                                id,
                                p,
                            ));
                        }
                    }
                    if in_some_room(entities@, candidates@, p) {
                        let id = choose|id: u64| #[trigger]
                            entities@.contains_key(id) && room_box(entities@, candidates@, id, p);
                        if id != next_room_id {
                            assert(rooms_before.contains_key(id) && room_box(
                                rooms_before,
                                candidates@,
                                id,
                                p,
                            ));
                            assert(in_some_room(rooms_before, candidates@, p));
                        }
                    }
                }
                if single_exits(candidates@) {
                    let item = (index, offset);
                    assert(listed(candidates@, item, next_dir));
                    lemma_single_exit(
                        candidates@[index as int].exit_and_entrances@,
                        offset,
                        next_dir,
                    );
                    assert(!cuboid_taken(cells_before, origin, size));
                    assert forall|a: u64, b: u64, p: Cell|
                        #![trigger room_box(entities@, candidates@, a, p), room_box(entities@, candidates@, b, p)]
                        entities@.contains_key(a) && entities@.contains_key(b) && a != b implies !(
                        room_box(entities@, candidates@, a, p) && room_box(
                            entities@,
                            candidates@,
                            b,
                            p,
                        )) by {
                        if room_box(entities@, candidates@, a, p) && room_box(
                            entities@,
                            candidates@,
                            b,
                            p,
                        ) {
                            if a == next_room_id || b == next_room_id {
                                let other = if a == next_room_id {
                                    b
                                } else {
                                    a
                                };
                                assert(rooms_before.contains_key(other) && room_box(
                                    rooms_before,
                                    candidates@,
                                    other,
                                    p,
                                ));
                                assert(in_some_room(rooms_before, candidates@, p));
                                assert(cells_before.contains_key(p));
                                assert(in_cuboid(origin, size, p));
                            } else {
                                assert(room_box(rooms_before, candidates@, a, p));
                                assert(room_box(rooms_before, candidates@, b, p));
                            }
                        }
                    }
                }
            }
        }
    }
    (entities, connections, count)
}

/// The identifiers of `set` that still name a room.
fn retain_existing(set: &BTreeSet<u64>, entities: &BTreeMap<u64, RoomCandidateEntity>) -> (out:
    BTreeSet<u64>)
    ensures
        out@ == set@.intersect(entities@.dom()),
{
    broadcast use vstd::std_specs::btree::group_btree_axioms;

    proof {
        lemma_cells_ordered();
    }
    let ids = ascending_ids(set);
    let mut out: BTreeSet<u64> = BTreeSet::new();
    let mut i: usize = 0;
    while i < ids.len()
        invariant
            cells_ordered(),
            i <= ids@.len(),
            ids@.to_set() == set@,
            forall|id: u64|
                out@.contains(id) <==> entities@.contains_key(id) && exists|k: int|
                    0 <= k < i && #[trigger] ids@[k] == id,
        decreases ids@.len() - i,
    {
        let id = ids[i];
        if entities.contains_key(&id) {
            out.insert(id);
        }
        i = i + 1;
    }
    proof {
        assert forall|id: u64| out@.contains(id) <==> set@.contains(id) && entities@.contains_key(
            id,
        ) by {
            if set@.contains(id) {
                assert(ids@.contains(id));
            }
            if out@.contains(id) {
                let k = choose|k: int| 0 <= k < i && #[trigger] ids@[k] == id;
                assert(ids@.contains(ids@[k]));
            }
        }
        assert(out@ =~= set@.intersect(entities@.dom()));
    }
    out
}

/// The keys of the map, in ascending order.
fn keys_of(connections: &BTreeMap<u64, BTreeSet<u64>>) -> (keys: Vec<u64>)
    ensures
        keys@ == ascending_of(connections@.dom()),
        rising(keys@),
        keys@.to_set() == connections@.dom(),
{
    broadcast use vstd::std_specs::btree::group_btree_axioms;

    proof {
        lemma_cells_ordered();
        lemma_keys_rise(connections);
    }
    let mut keys: Vec<u64> = Vec::new();
    let ghost whole = connections.keys().remaining().unref();
    for key in it: connections.keys()
        invariant
            it.seq().unref() == whole,
            keys@ == whole.take(it.index() as int),
    {
        keys.push(*key);
    }
    proof {
        assert(keys@ =~= whole);
        lemma_ascending_of(keys@);
    }
    keys
}

/// Removes the rooms that may not stay: a room that is attached to fewer
/// than two rooms, though its kind may not be terminal, is removed, and the
/// rooms that were attached to it are looked at again.
///
/// The rooms are looked at in the order of their identifiers first. When a
/// room is removed, its connections go with it, it is struck from the
/// connections of every other room, and the rooms that were attached to it
/// join the end of the queue in ascending order.
pub fn prune(
    candidates: &Vec<CEDRoomCandidate>,
    entities: &mut BTreeMap<u64, RoomCandidateEntity>,
    connections: &mut BTreeMap<u64, BTreeSet<u64>>,
    count: usize,
)
    requires
        kinds_known(old(entities)@, candidates@),
    ensures
        final(entities)@ == pruned(
            candidates@,
            pruning_of(old(entities)@, old(connections)@, count),
        ).entities,
        links_of(final(connections)@) == pruned(
            candidates@,
            pruning_of(old(entities)@, old(connections)@, count),
        ).links,
        kinds_known(final(entities)@, candidates@),
        forall|id: u64| #[trigger]
            final(entities)@.contains_key(id) ==> old(entities)@.contains_key(id)
                && final(entities)@[id] == old(entities)@[id],
        forall|k: u64| #[trigger]
            final(connections)@.contains_key(k) ==> old(connections)@.contains_key(k),
{
    broadcast use vstd::std_specs::btree::group_btree_axioms;

    proof {
        lemma_cells_ordered();
    }
    let ghost goal = pruned(candidates@, pruning_of(entities@, connections@, count));
    let mut queue: VecDeque<u64> = VecDeque::new();
    let mut id: u64 = 0;
    while id < count as u64
        invariant
            id <= count,
            queue@ == first_ids(count).take(id as int),
        decreases count - id,
    {
        id = id + 1;
        queue.push_back(id);
        proof {
            assert(queue@ =~= first_ids(count).take(id as int));
        }
    }
    proof {
        assert(queue@ =~= first_ids(count));
    }
    loop
        invariant
            cells_ordered(),
            kinds_known(entities@, candidates@),
            forall|id: u64| #[trigger]
                entities@.contains_key(id) ==> old(entities)@.contains_key(id) && entities@[id]
                    == old(entities)@[id],
            forall|k: u64| #[trigger]
                connections@.contains_key(k) ==> old(connections)@.contains_key(k),
            goal == pruned(candidates@, pruning_of(old(entities)@, old(connections)@, count)),
            pruned(
                candidates@,
                Pruning { entities: entities@, links: links_of(connections@), queue: queue@ },
            ) == goal,
        ensures
            entities@ == goal.entities,
            links_of(connections@) == goal.links,
        decreases entities@.dom().len(), queue@.len(),
    {
        let ghost now = Pruning {
            entities: entities@,
            links: links_of(connections@),
            queue: queue@,
        };
        proof {
            assert(now.entities.dom().finite());
        }
        let room_id = match queue.pop_front() {
            None => {
                proof {
                    assert(now.queue.len() == 0);
                    assert(pruned(candidates@, now) == now);
                }
                break ;
            },
            Some(room_id) => room_id,
        };
        let ghost rest = Pruning { queue: now.queue.drop_first(), ..now };
        proof {
            assert(queue@ =~= now.queue.drop_first());
            assert(room_id == now.queue[0]);
        }
        let attached = match connections.get(&room_id) {
            None => {
                proof {
                    assert(may_stay(candidates@, now, room_id));
                    assert(pruned(candidates@, now) == pruned(candidates@, rest));
                }
                continue ;
            },
            Some(room_ids) => room_ids.len(),
        };
        if attached >= 2 {
            proof {
                assert(may_stay(candidates@, now, room_id));
                assert(pruned(candidates@, now) == pruned(candidates@, rest));
            }
            continue ;
        }
        let can_be_terminal = match entities.get(&room_id) {
            None => {
                proof {
                    assert(may_stay(candidates@, now, room_id));
                    assert(pruned(candidates@, now) == pruned(candidates@, rest));
                }
                continue ;
            },
            Some(entity) => candidates[entity.index].can_be_terminal,
        };
        if can_be_terminal {
            proof {
                assert(may_stay(candidates@, now, room_id));
                assert(pruned(candidates@, now) == pruned(candidates@, rest));
            }
            continue ;
        }
        proof {
            entities@.lemma_remove_key_len(room_id);
            assert(!may_stay(candidates@, now, room_id));
            assert(pruned(candidates@, now) == pruned(candidates@, without_room(now, room_id)));
        }
        entities.remove(&room_id);
        match connections.remove(&room_id) {
            None => {},
            Some(room_ids) => {
                let next = ascending_ids(&room_ids);
                let ghost before = queue@;
                let mut j: usize = 0;
                while j < next.len()
                    invariant
                        j <= next@.len(),
                        queue@ == before + next@.take(j as int),
                    decreases next@.len() - j,
                {
                    queue.push_back(next[j]);
                    j = j + 1;
                    proof {
                        assert(queue@ =~= before + next@.take(j as int));
                    }
                }
                proof {
                    assert(next@.take(next@.len() as int) =~= next@);
                }
            },
        }
        let ghost struck = links_of(connections@);
        let keys = keys_of(connections);
        let mut i: usize = 0;
        while i < keys.len()
            invariant
                cells_ordered(),
                i <= keys@.len(),
                rising(keys@),
                keys@.to_set() == struck.dom(),
                forall|k: u64| #[trigger]
                    connections@.contains_key(k) ==> old(connections)@.contains_key(k),
                forall|k: u64| connections@.contains_key(k) <==> struck.contains_key(k),
                forall|a: int|
                    0 <= a < i ==> connections@[#[trigger] keys@[a]]@ == struck[keys@[a]].intersect(
                        entities@.dom(),
                    ),
                forall|a: int|
                    i <= a < keys@.len() ==> connections@[#[trigger] keys@[a]]@ == struck[keys@[a]],
            decreases keys@.len() - i,
        {
            let ghost links_before = connections@;
            proof {
                assert(keys@.contains(keys@[i as int]));
                assert(struck.contains_key(keys@[i as int]));
            }
            match connections.remove(&keys[i]) {
                None => {},
                Some(room_ids) => {
                    let kept = retain_existing(&room_ids, entities);
                    connections.insert(keys[i], kept);
                },
            }
            proof {
                assert forall|a: int| 0 <= a < keys@.len() && a != i implies connections@[keys@[a]]
                    == links_before[keys@[a]] by {
                    if a < i {
                        assert(keys@[a] < keys@[i as int]);
                    } else {
                        assert(keys@[i as int] < keys@[a]);
                    }
                }
            }
            i = i + 1;
        }
        proof {
            let after = without_room(now, room_id);
            assert forall|k: u64| #[trigger] struck.contains_key(k) implies connections@[k]@
                == struck[k].intersect(entities@.dom()) by {
                assert(keys@.contains(k));
                let a = choose|a: int| 0 <= a < keys@.len() && keys@[a] == k;
                assert(connections@[keys@[a]]@ == struck[keys@[a]].intersect(entities@.dom()));
            }
            assert(struck =~= now.links.remove(room_id));
            assert(entities@ == now.entities.remove(room_id));
            assert forall|k: u64| links_of(connections@).contains_key(k) <==> after.links.contains_key(
                k,
            ) by {
                assert(links_of(connections@).contains_key(k) <==> connections@.contains_key(k));
                assert(connections@.contains_key(k) <==> struck.contains_key(k));
                assert(struck.contains_key(k) <==> now.links.remove(room_id).contains_key(k));
                assert(after.links.contains_key(k) <==> (k != room_id && now.links.contains_key(k)));
            }
            assert forall|k: u64| #[trigger] after.links.contains_key(k) implies links_of(
                connections@,
            )[k] == after.links[k] by {
                assert(struck.contains_key(k));
            }
            assert(links_of(connections@) =~= after.links);
            assert(queue@ == after.queue);
        }
    }
}

/// The identifiers of the set, in ascending order.
fn ascending_ids(set: &BTreeSet<u64>) -> (out: Vec<u64>)
    ensures
        out@ == ascending_of(set@),
        rising(out@),
        out@.to_set() == set@,
{
    broadcast use vstd::std_specs::btree::group_btree_axioms;

    proof {
        lemma_cells_ordered();
        lemma_ids_rise(set);
    }
    let mut out: Vec<u64> = Vec::new();
    let ghost whole = set.iter().remaining().unref();
    for id in it: set.iter()
        invariant
            it.seq().unref() == whole,
            out@ == whole.take(it.index() as int),
    {
        out.push(*id);
    }
    proof {
        assert(out@ =~= whole);
        lemma_ascending_of(out@);
    }
    out
}

/// The connections are between rooms and go both ways, and the first room
/// has none recorded: every room with connections is a room other than the
/// first, and a room is attached to every room that is attached to it.
pub open spec fn well_linked(
    entities: Map<u64, RoomCandidateEntity>,
    links: Map<u64, Set<u64>>,
) -> bool {
    &&& forall|a: u64| #[trigger] links.contains_key(a) ==> entities.contains_key(a) && a != 1
    &&& forall|a: u64, b: u64|
        links.contains_key(a) && #[trigger] links[a].contains(b) ==> links.contains_key(b)
            && links[b].contains(a)
}

/// What holds of the rooms and connections before any room is removed: the
/// rooms are numbered from one up to `count`, of which there is at least
/// one and no more than `room_size_max` unless it is the first alone; the
/// first room lies at the origin; the connections are well linked; and
/// where no candidate has two exits in one direction, no two rooms share a
/// cell.
pub open spec fn grown(
    candidates: Seq<CEDRoomCandidate>,
    room_size_max: usize,
    entities: Map<u64, RoomCandidateEntity>,
    connections: Map<u64, BTreeSet<u64>>,
    count: usize,
) -> bool {
    &&& kinds_known(entities, candidates)
    &&& numbered(entities, count as int)
    &&& 1 <= count
    &&& count <= room_size_max || count == 1
    &&& entities[1].origin == (0i32, 0i32, 0i32)
    &&& well_linked(entities, links_of(connections))
    &&& single_exits(candidates) ==> rooms_apart(entities, candidates)
}

/// The identifiers from one up to `n`.
pub open spec fn ids_up_to(n: nat) -> Set<u64> {
    Set::new(|id: u64| 1 <= id <= n)
}

/// There are `n` identifiers from one up to `n`.
pub proof fn lemma_ids_up_to(n: nat)
    requires
        n <= u64::MAX,
    ensures
        ids_up_to(n).finite(),
        ids_up_to(n).len() == n,
    decreases n,
{
    if n == 0 {
        assert(ids_up_to(0) =~= Set::<u64>::empty());
    } else {
        lemma_ids_up_to((n - 1) as nat);
        assert(ids_up_to(n) =~= ids_up_to((n - 1) as nat).insert(n as u64));
    }
}

/// Rooms whose identifiers lie between one and `n`, the first among them,
/// are at least one and at most `n`.
pub proof fn lemma_room_count(entities: Map<u64, RoomCandidateEntity>, n: nat)
    requires
        n <= u64::MAX,
        entities.contains_key(1),
        forall|id: u64| #[trigger] entities.contains_key(id) ==> 1 <= id <= n,
    ensures
        entities.dom().finite(),
        1 <= entities.dom().len() <= n,
{
    lemma_ids_up_to(n);
    lemma_ids_up_to(1);
    assert(entities.dom().subset_of(ids_up_to(n)));
    vstd::set_lib::lemma_len_subset(entities.dom(), ids_up_to(n));
    assert(ids_up_to(1).subset_of(entities.dom())) by {
        assert forall|id: u64| ids_up_to(1).contains(id) implies entities.dom().contains(id) by {
            assert(id == 1);
        }
    }
    vstd::set_lib::lemma_len_subset(ids_up_to(1), entities.dom());
}

/// The removal of rooms keeps the first room and keeps the connections well
/// linked, and every room that is left is as it was.
pub proof fn lemma_pruned_keeps(candidates: Seq<CEDRoomCandidate>, s: Pruning)
    requires
        s.entities.dom().finite(),
        s.entities.contains_key(1),
        well_linked(s.entities, s.links),
    ensures
        pruned(candidates, s).entities.contains_key(1),
        well_linked(pruned(candidates, s).entities, pruned(candidates, s).links),
        forall|id: u64| #[trigger]
            pruned(candidates, s).entities.contains_key(id) ==> s.entities.contains_key(id)
                && pruned(candidates, s).entities[id] == s.entities[id],
    decreases s.entities.dom().len(), s.queue.len(),
{
    if s.queue.len() == 0 {
    } else if may_stay(candidates, s, s.queue[0]) {
        lemma_pruned_keeps(candidates, Pruning { queue: s.queue.drop_first(), ..s });
    } else {
        let id = s.queue[0];
        let next = without_room(s, id);
        s.entities.lemma_remove_key_len(id);
        assert(s.links.contains_key(id));
        assert(id != 1);
        assert forall|a: u64| #[trigger] next.links.contains_key(a) implies next.entities.contains_key(
            a,
        ) && a != 1 by {
            assert(s.links.contains_key(a));
        }
        assert forall|a: u64, b: u64|
            next.links.contains_key(a) && #[trigger] next.links[a].contains(
                b,
            ) implies next.links.contains_key(b) && next.links[b].contains(a) by {
            assert(s.links.contains_key(a) && s.links[a].contains(b));
            assert(s.links.contains_key(b) && s.links[b].contains(a));
            assert(next.entities.contains_key(b));
            assert(s.entities.contains_key(a));
        }
        lemma_pruned_keeps(candidates, next);
    }
}

/// Every identifier is smaller than the ones after it.
pub open spec fn rising(ids: Seq<u64>) -> bool {
    forall|i: int, j: int| 0 <= i < j < ids.len() ==> ids[i] < ids[j]
}

/// The identifiers of the set in ascending order.
pub open spec fn ascending_of(ids: Set<u64>) -> Seq<u64> {
    choose|q: Seq<u64>| rising(q) && q.to_set() == ids
}

/// The identifiers from one up to `count`, in order.
pub open spec fn first_ids(count: usize) -> Seq<u64> {
    Seq::new(count as nat, |i: int| (i + 1) as u64)
}

/// For each room the set of the rooms attached to it.
pub open spec fn links_of(connections: Map<u64, BTreeSet<u64>>) -> Map<u64, Set<u64>> {
    Map::new(|k: u64| connections.contains_key(k), |k: u64| connections[k]@)
}

/// The state of the removal of rooms: the rooms that are left, their
/// connections and the rooms that are still to be looked at.
pub struct Pruning {
    pub entities: Map<u64, RoomCandidateEntity>,
    pub links: Map<u64, Set<u64>>,
    pub queue: Seq<u64>,
}

/// The state in which the removal starts: every identifier from one up to
/// `count` is to be looked at, in order.
pub open spec fn pruning_of(
    entities: Map<u64, RoomCandidateEntity>,
    connections: Map<u64, BTreeSet<u64>>,
    count: usize,
) -> Pruning {
    Pruning { entities, links: links_of(connections), queue: first_ids(count) }
}

/// The room may stay: it has no connections recorded, or it is attached to
/// two rooms or more, or it is no room at all, or its kind may be terminal.
pub open spec fn may_stay(candidates: Seq<CEDRoomCandidate>, s: Pruning, id: u64) -> bool {
    ||| !s.links.contains_key(id)
    ||| s.links[id].len() >= 2
    ||| !s.entities.contains_key(id)
    ||| candidates[s.entities[id].index as int].can_be_terminal
}

/// The state after the room at the front of the queue was removed: the room
/// and its connections are gone, the connections of the other rooms hold
/// only rooms that are left, and the rooms that were attached to it have
/// joined the end of the queue in ascending order.
pub open spec fn without_room(s: Pruning, id: u64) -> Pruning {
    Pruning {
        entities: s.entities.remove(id),
        links: Map::new(
            |k: u64| k != id && s.links.contains_key(k),
            |k: u64| s.links[k].intersect(s.entities.remove(id).dom()),
        ),
        queue: s.queue.drop_first() + ascending_of(s.links[id]),
    }
}

/// The state in which the removal ends: the rooms of the queue are looked
/// at one after the other; a room that may stay is passed over, any other
/// room is removed.
pub open spec fn pruned(candidates: Seq<CEDRoomCandidate>, s: Pruning) -> Pruning
    decreases s.entities.dom().len(), s.queue.len(),
    when s.entities.dom().finite()
{
    if s.queue.len() == 0 {
        s
    } else if may_stay(candidates, s, s.queue[0]) {
        pruned(candidates, Pruning { queue: s.queue.drop_first(), ..s })
    } else {
        proof {
            s.entities.lemma_remove_key_len(s.queue[0]);
        }
        pruned(candidates, without_room(s, s.queue[0]))
    }
}

/// An ascending sequence is the ascending sequence of its elements.
pub proof fn lemma_ascending_of(a: Seq<u64>)
    requires
        rising(a),
    ensures
        ascending_of(a.to_set()) == a,
{
    let b = ascending_of(a.to_set());
    assert(rising(a) && a.to_set() == a.to_set());
    assert(rising(b) && b.to_set() == a.to_set());
    lemma_rising_unique(a, b);
}

/// Two ascending sequences with the same elements are the same sequence.
pub proof fn lemma_rising_unique(a: Seq<u64>, b: Seq<u64>)
    requires
        rising(a),
        rising(b),
        a.to_set() == b.to_set(),
    ensures
        a == b,
    decreases a.len(),
{
    if a.len() == 0 {
        if b.len() > 0 {
            assert(b.contains(b[0]));
            assert(b.to_set().contains(b[0]));
            assert(a.contains(b[0]));
        }
        assert(a =~= b);
    } else {
        let top = a.last();
        assert(a.contains(top));
        assert(a.to_set().contains(top));
        assert(b.contains(top));
        let at_b = choose|j: int| 0 <= j < b.len() && b[j] == top;
        let other = b.last();
        assert(b.contains(other));
        assert(b.to_set().contains(other));
        assert(a.contains(other));
        let at_a = choose|i: int| 0 <= i < a.len() && a[i] == other;
        if at_a < a.len() - 1 {
            assert(a[at_a] < a[a.len() - 1]);
        }
        if at_b < b.len() - 1 {
            assert(b[at_b] < b[b.len() - 1]);
        }
        assert(top == other);
        let fa = a.drop_last();
        let fb = b.drop_last();
        assert forall|x: u64| fa.to_set().contains(x) <==> fb.to_set().contains(x) by {
            if fa.contains(x) {
                let i = choose|i: int| 0 <= i < fa.len() && fa[i] == x;
                assert(a[i] == x && a[i] < a[a.len() - 1]);
                assert(a.contains(x));
                assert(b.to_set().contains(x));
                let j = choose|j: int| 0 <= j < b.len() && b[j] == x;
                assert(fb[j] == x);
            }
            if fb.contains(x) {
                let j = choose|j: int| 0 <= j < fb.len() && fb[j] == x;
                assert(b[j] == x && b[j] < b[b.len() - 1]);
                assert(b.contains(x));
                assert(a.to_set().contains(x));
                let i = choose|i: int| 0 <= i < a.len() && a[i] == x;
                assert(fa[i] == x);
            }
        }
        assert(fa.to_set() =~= fb.to_set());
        assert forall|i: int, j: int| 0 <= i < j < fa.len() implies fa[i] < fa[j] by {
            assert(fa[i] == a[i] && fa[j] == a[j]);
        }
        assert forall|i: int, j: int| 0 <= i < j < fb.len() implies fb[i] < fb[j] by {
            assert(fb[i] == b[i] && fb[j] == b[j]);
        }
        lemma_rising_unique(fa, fb);
        assert(a =~= fa.push(top));
        assert(b =~= fb.push(other));
    }
}

/// A set is walked in ascending order, and every identifier is met.
pub proof fn lemma_ids_rise(set: &BTreeSet<u64>)
    ensures
        rising(set.iter().remaining().unref()),
        set.iter().remaining().unref().to_set() == set@,
{
    broadcast use vstd::laws_cmp::group_laws_cmp;
    broadcast use vstd::std_specs::btree::group_btree_axioms;

    let s = set.iter().remaining();
    assert(vstd::std_specs::btree::increasing_seq(s));
    vstd::std_specs::btree::axiom_increasing_seq_meaning(s);
    assert forall|i: int, j: int| 0 <= i < j < s.len() implies s.unref()[i] < s.unref()[j] by {
        assert(OrdSpec::cmp_spec(&s[i], &s[j]) is Less);
    }
}

/// The keys of a map are walked in ascending order, and every key is met.
pub proof fn lemma_keys_rise(connections: &BTreeMap<u64, BTreeSet<u64>>)
    ensures
        rising(connections.keys().remaining().unref()),
        connections.keys().remaining().unref().to_set() == connections@.dom(),
{
    broadcast use vstd::laws_cmp::group_laws_cmp;
    broadcast use vstd::std_specs::btree::group_btree_axioms;

    let s = connections.keys().remaining();
    assert(vstd::std_specs::btree::increasing_seq(s));
    vstd::std_specs::btree::axiom_increasing_seq_meaning(s);
    assert forall|i: int, j: int| 0 <= i < j < s.len() implies s.unref()[i] < s.unref()[j] by {
        assert(OrdSpec::cmp_spec(&s[i], &s[j]) is Less);
    }
}

/// Generates a dungeon from the catalogue: checks the catalogue, grows the
/// dungeon room by room and removes the rooms that may not stay.
///
/// Fails if a candidate has an invalid exit, naming the first such
/// candidate. Where no candidate has two exits in one direction, no two
/// rooms of the result share a cell.
pub fn generate_ced(config: CEDConfig, rng: &mut StdRng) -> (r: Result<CEDResult, CEDError>)
    requires
        config.room_candidates@.len() > 0,
        config.room_size_max < usize::MAX,
    ensures
        match r {
            Err(CEDError::InvalidRoomCandidateExitAndEntrance { index }) => {
                &&& index < config.room_candidates@.len()
                &&& !valid_candidate(config.room_candidates@[index as int])
                &&& forall|j: int|
                    0 <= j < index ==> valid_candidate(#[trigger] config.room_candidates@[j])
            },
            Ok(result) => {
                &&& forall|j: int|
                    0 <= j < config.room_candidates@.len() ==> valid_candidate(
                        #[trigger] config.room_candidates@[j],
                    )
                &&& result.room_candidates == config.room_candidates
                &&& kinds_known(result.room_candidate_entities@, config.room_candidates@)
                &&& forall|id: u64| #[trigger]
                    result.room_candidate_entities@.contains_key(id) ==> 1 <= id && (id
                        <= config.room_size_max || id == 1)
                &&& forall|id: u64| #[trigger]
                    result.room_candidate_connections@.contains_key(id) ==> 1 <= id && (id
                        <= config.room_size_max || id == 1)
                &&& single_exits(config.room_candidates@) ==> rooms_apart(
                    result.room_candidate_entities@,
                    config.room_candidates@,
                )
                &&& result.room_candidate_entities@.contains_key(1)
                &&& result.room_candidate_entities@[1].origin == (0i32, 0i32, 0i32)
                &&& 1 <= result.room_candidate_entities@.dom().len()
                &&& result.room_candidate_entities@.dom().len() <= config.room_size_max
                    || result.room_candidate_entities@.dom().len() == 1
                &&& well_linked(
                    result.room_candidate_entities@,
                    links_of(result.room_candidate_connections@),
                )
                &&& exists|
                    entities: Map<u64, RoomCandidateEntity>,
                    connections: Map<u64, BTreeSet<u64>>,
                    count: usize,
                |
                    {
                        &&& grown(
                            config.room_candidates@,
                            config.room_size_max,
                            entities,
                            connections,
                            count,
                        )
                        &&& result.room_candidate_entities@ == pruned(
                            config.room_candidates@,
                            #[trigger] pruning_of(entities, connections, count),
                        ).entities
                        &&& links_of(result.room_candidate_connections@) == pruned(
                            config.room_candidates@,
                            pruning_of(entities, connections, count),
                        ).links
                    }
            },
        },
{
    match find_invalid_candidate(&config.room_candidates) {
        Some(index) => {
            return Err(CEDError::InvalidRoomCandidateExitAndEntrance { index });
        },
        None => {},
    }
    let (mut entities, mut connections, count) = grow(
        &config.room_candidates,
        config.room_size_max,
        rng,
    );
    let ghost grown = entities@;
    let ghost linked = connections@;
    prune(&config.room_candidates, &mut entities, &mut connections, count);
    proof {
        let candidates = config.room_candidates@;
        assert(grown.contains_key(1u64));
        assert(grown.dom().finite());
        lemma_pruned_keeps(candidates, pruning_of(grown, linked, count));
        lemma_room_count(entities@, count as nat);
        assert(crate::core_expansion_dungeon::grown(
            candidates,
            config.room_size_max,
            grown,
            linked,
            count,
        ));
        if single_exits(candidates) {
            assert forall|a: u64, b: u64, p: Cell|
                #![trigger room_box(entities@, candidates, a, p), room_box(entities@, candidates, b, p)]
                entities@.contains_key(a) && entities@.contains_key(b) && a != b implies !(
            room_box(entities@, candidates, a, p) && room_box(entities@, candidates, b, p)) by {
                assert(grown.contains_key(a) && grown.contains_key(b));
                assert(room_box(entities@, candidates, a, p) == room_box(grown, candidates, a, p));
                assert(room_box(entities@, candidates, b, p) == room_box(grown, candidates, b, p));
            }
        }
    }
    Ok(
        CEDResult {
            room_candidates: config.room_candidates,
            room_candidate_entities: entities,
            room_candidate_connections: connections,
        },
    )
}

} // verus!
