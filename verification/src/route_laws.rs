//! What holds of every route that the search returns.
//!
//! The search only ever extends a proposal, never rewrites a cell with
//! another class, writes inside the bounds of the map (one layer below and a
//! corridor's height above them at most), covers every floor with air and
//! every stair with a column of air, and leaves a trail of cells that can be
//! walked from the start to the goal.
use crate::btree_key_values::all_values;
use crate::btree_key_values::front;
use crate::btree_key_values::lemma_all_popped;
use crate::btree_key_values::lemma_all_pushed;
use crate::btree_key_values::popped;
use crate::btree_key_values::pushed_back;
use crate::btree_key_values::total_len;
use crate::btree_key_values::Bucket;
use crate::constants::Direction4;
use crate::constants::DirectionSet;
use crate::constants::VoxelType;
use crate::room::RoomId;
use crate::route_spec::corridor_fits;
use crate::route_spec::enqueue_branch;
use crate::route_spec::enqueue_seed;
use crate::route_spec::enqueue_seeds;
use crate::route_spec::enqueue_step;
use crate::route_spec::expanded;
use crate::route_spec::free_or;
use crate::route_spec::free_slots;
use crate::route_spec::in_column;
use crate::route_spec::lemma_step_decreases;
use crate::route_spec::moved;
use crate::route_spec::score;
use crate::route_spec::search;
use crate::route_spec::stair_fits;
use crate::route_spec::step;
use crate::route_spec::stepped;
use crate::route_spec::stored_cost;
use crate::route_spec::with_corridor;
use crate::route_spec::with_stair;
use crate::route_spec::Ground;
use crate::route_spec::Pending;
use crate::route_spec::RouteMode;
use crate::route_spec::RouteSpec;
use crate::route_spec::SearchState;
use crate::route_spec::Step;
use crate::passage::PassageSpec;
use crate::room::Room;
use crate::route::ground_of;
use crate::route::initial_state;
use crate::route::routed;
use crate::voxel_map::in_shell;
use crate::voxel_map::no_wall_stored;
use crate::voxel_map::shell;
use crate::voxel_map::shell_class;
use crate::voxel_map::shell_is_free;
use crate::voxel_map::widen;
use crate::voxel_map::with_rooms;
use crate::voxel_map::class_at;
use crate::voxel_map::in_box;
use crate::voxel_map::Cells;
use crate::voxel_map::Pos;
use vstd::prelude::*;

verus! {

/// A property of a route that only depends on where it stands and on what it
/// proposes.
pub type RouteInv = spec_fn(Pos, Cells) -> bool;

/// `inv` as a property of routes.
pub open spec fn on_routes(inv: RouteInv) -> spec_fn(RouteSpec) -> bool {
    |r: RouteSpec| inv(r.point, r.cells)
}

/// Whoever stands inside the bounds with `inv` and builds a piece of
/// corridor or a stair that fits, passes `inv` on to where it goes next.
pub open spec fn kept_by_steps(g: Ground, inv: RouteInv) -> bool {
    &&& forall|p: Pos, own: Cells, d: Direction4|
        inv(p, own) && in_box(g.lower, g.upper, p) && corridor_fits(
            g.cells,
            own,
            p,
            g.height as int,
        ) ==> #[trigger] inv(moved(p, d, 0), with_corridor(own, p, g.height as int))
    &&& forall|p: Pos, own: Cells, d: Direction4|
        inv(p, own) && in_box(g.lower, g.upper, p) && stair_fits(g.cells, own, p, g.height as int)
            ==> #[trigger] inv(moved(p, d, 1), with_stair(own, p, d, g.height as int))
}

/// Two routes that continue with the property keep it for the whole queue.
proof fn lemma_branch_keeps(
    pending: Pending,
    next: Pos,
    d: Direction4,
    key: u64,
    cost: u64,
    cells: Cells,
    inv: RouteInv,
)
    requires
        all_values(pending, on_routes(inv)),
        inv(next, cells),
    ensures
        all_values(enqueue_branch(pending, next, d, key, cost, cells), on_routes(inv)),
{
    let level = RouteSpec {
        mode: RouteMode::ParallelShift { movable_dirs: DirectionSet::spec_all_but_opposite(d) },
        point: next,
        cost,
        cells,
    };
    let stair = RouteSpec { mode: RouteMode::Stair(d), point: next, cost, cells };
    lemma_all_pushed(pending, key, level, on_routes(inv));
    lemma_all_pushed(pushed_back(pending, key, level), key, stair, on_routes(inv));
}

/// A property that the steps keep holds of every route that a route with the
/// property enqueues.
proof fn lemma_expanded_keeps(g: Ground, rest: Pending, r: RouteSpec, inv: RouteInv)
    requires
        all_values(rest, on_routes(inv)),
        inv(r.point, r.cells),
        in_box(g.lower, g.upper, r.point),
        kept_by_steps(g, inv),
    ensures
        all_values(expanded(g, rest, r), on_routes(inv)),
{
    let h = g.height as int;
    let t = g.target;
    match r.mode {
        RouteMode::ParallelShift { movable_dirs } => {
            if corridor_fits(g.cells, r.cells, r.point, h) {
                let cells = with_corridor(r.cells, r.point, h);
                let p = r.point;
                let a = if movable_dirs.left {
                    enqueue_step(rest, t, p, Direction4::Left, 0, r.cost, cells)
                } else {
                    rest
                };
                let b = if movable_dirs.right {
                    enqueue_step(a, t, p, Direction4::Right, 0, r.cost, cells)
                } else {
                    a
                };
                let c = if movable_dirs.far {
                    enqueue_step(b, t, p, Direction4::Far, 0, r.cost, cells)
                } else {
                    b
                };
                if movable_dirs.left {
                    let next = moved(p, Direction4::Left, 0);
                    assert(inv(next, cells));
                    let s = score(t, next, stepped(r.cost) as int);
                    lemma_branch_keeps(rest, next, Direction4::Left, s, s, cells, inv);
                }
                if movable_dirs.right {
                    let next = moved(p, Direction4::Right, 0);
                    assert(inv(next, cells));
                    let s = score(t, next, stepped(r.cost) as int);
                    lemma_branch_keeps(a, next, Direction4::Right, s, s, cells, inv);
                }
                if movable_dirs.far {
                    let next = moved(p, Direction4::Far, 0);
                    assert(inv(next, cells));
                    let s = score(t, next, stepped(r.cost) as int);
                    lemma_branch_keeps(b, next, Direction4::Far, s, s, cells, inv);
                }
                if movable_dirs.near {
                    let next = moved(p, Direction4::Near, 0);
                    assert(inv(next, cells));
                    let s = score(t, next, stepped(r.cost) as int);
                    lemma_branch_keeps(c, next, Direction4::Near, s, s, cells, inv);
                }
            }
        },
        RouteMode::Stair(d) => {
            if stair_fits(g.cells, r.cells, r.point, h) {
                let cells = with_stair(r.cells, r.point, d, h);
                let next = moved(r.point, d, 1);
                assert(inv(next, cells));
                let s = score(t, next, stepped(r.cost) as int);
                lemma_branch_keeps(rest, next, d, s, s, cells, inv);
            }
        },
    }
}

/// `cells` is the proposal of a route with `inv` that stands inside the
/// bounds on the walkable layer of the goal room.
pub open spec fn ends_well(g: Ground, inv: RouteInv, cells: Cells) -> bool {
    exists|end: Pos|
        {
            &&& #[trigger] in_box(g.lower, g.upper, end)
            &&& inv(end, cells)
            &&& class_at(g.cells, end) == VoxelType::RoomBottomSpace(g.goal)
        }
}

/// A property that the steps keep and that holds of every pending route
/// holds of the route that the search returns, and that route stands inside
/// the bounds on the walkable layer of the goal room.
pub proof fn lemma_search_keeps(g: Ground, s: SearchState, inv: RouteInv)
    requires
        all_values(s.pending, on_routes(inv)),
        kept_by_steps(g, inv),
    ensures
        search(g, s) matches Some(cells) ==> ends_well(g, inv, cells),
    decreases free_slots(g, s.accepted), stored_cost(g, s.accepted), total_len(s.pending),
{
    lemma_all_popped(s.pending, on_routes(inv));
    match step(g, s) {
        Step::Found(cells) => {
            let r = front(s.pending)->0;
            assert(on_routes(inv)(r));
            assert(inv(r.point, cells));
            assert(search(g, s) == Some(cells));
            assert(in_box(g.lower, g.upper, r.point));
            assert(class_at(g.cells, r.point) == VoxelType::RoomBottomSpace(g.goal));
            assert(ends_well(g, inv, cells));
        },
        Step::Exhausted => {
            assert(search(g, s) == None::<Cells>);
        },
        Step::Next(n) => {
            lemma_step_decreases(g, s);
            let r = front(s.pending)->0;
            let rest = popped(s.pending);
            if in_box(g.lower, g.upper, r.point) {
                lemma_expanded_keeps(g, rest, r, inv);
            }
            lemma_search_keeps(g, n, inv);
            assert(search(g, s) == search(g, n));
        },
    }
}

/// A property that holds one step from the start with nothing proposed holds
/// of every route that the search starts with.
pub proof fn lemma_seeds_keep(target: Pos, start: Pos, dirs: DirectionSet, inv: RouteInv)
    requires
        forall|d: Direction4| dirs.has(d) ==> #[trigger] inv(moved(start, d, 0), Map::empty()),
    ensures
        all_values(
            enqueue_seeds(Seq::<Bucket<u64, RouteSpec>>::empty(), target, start, dirs),
            on_routes(inv),
        ),
{
    let e = Seq::<Bucket<u64, RouteSpec>>::empty();
    let nothing: Cells = Map::empty();
    let a = if dirs.left {
        enqueue_seed(e, target, start, Direction4::Left)
    } else {
        e
    };
    let b = if dirs.right {
        enqueue_seed(a, target, start, Direction4::Right)
    } else {
        a
    };
    let c = if dirs.far {
        enqueue_seed(b, target, start, Direction4::Far)
    } else {
        b
    };
    if dirs.left {
        assert(dirs.has(Direction4::Left));
        let next = moved(start, Direction4::Left, 0);
        lemma_branch_keeps(e, next, Direction4::Left, score(target, next, 0), 0, nothing, inv);
    }
    if dirs.right {
        assert(dirs.has(Direction4::Right));
        let next = moved(start, Direction4::Right, 0);
        lemma_branch_keeps(a, next, Direction4::Right, score(target, next, 0), 0, nothing, inv);
    }
    if dirs.far {
        assert(dirs.has(Direction4::Far));
        let next = moved(start, Direction4::Far, 0);
        lemma_branch_keeps(b, next, Direction4::Far, score(target, next, 0), 0, nothing, inv);
    }
    if dirs.near {
        assert(dirs.has(Direction4::Near));
        let next = moved(start, Direction4::Near, 0);
        lemma_branch_keeps(c, next, Direction4::Near, score(target, next, 0), 0, nothing, inv);
    }
}

/// The class belongs to a passage.
pub open spec fn is_passage_class(v: VoxelType) -> bool {
    v is PassageFloor || v is PassageSpace || v is PassageStair
}

/// How far above the bounds a passage may reach: the height of the corridor.
pub open spec fn headroom(g: Ground) -> int {
    if g.height > 0 {
        g.height as int
    } else {
        0
    }
}

/// The proposal holds passage cells only, agrees with the committed
/// classification wherever both have a cell, and stays inside the bounds in
/// x and z and between one layer below and the corridor's height above them
/// in y.
pub open spec fn clean(g: Ground, cells: Cells) -> bool {
    forall|c: Pos| #[trigger]
        cells.contains_key(c) ==> {
            &&& is_passage_class(cells[c])
            &&& g.cells.contains_key(c) ==> g.cells[c] == cells[c]
            &&& g.lower.0 <= c.0 < g.upper.0
            &&& g.lower.2 <= c.2 < g.upper.2
            &&& g.lower.1 - 1 <= c.1 < g.upper.1 + headroom(g)
        }
}

/// `after` holds every cell of `before`, with the same class.
pub open spec fn extends(before: Cells, after: Cells) -> bool {
    forall|c: Pos| #[trigger]
        before.contains_key(c) ==> after.contains_key(c) && after[c] == before[c]
}

/// A piece of corridor that fits extends a clean proposal to a clean one.
pub proof fn lemma_corridor_keeps_clean(g: Ground, own: Cells, p: Pos)
    requires
        clean(g, own),
        in_box(g.lower, g.upper, p),
        corridor_fits(g.cells, own, p, g.height as int),
    ensures
        clean(g, with_corridor(own, p, g.height as int)),
        extends(own, with_corridor(own, p, g.height as int)),
{
    let h = g.height as int;
    let after = with_corridor(own, p, h);
    assert forall|c: Pos| #[trigger] after.contains_key(c) implies {
        &&& is_passage_class(after[c])
        &&& g.cells.contains_key(c) ==> g.cells[c] == after[c]
        &&& g.lower.0 <= c.0 < g.upper.0
        &&& g.lower.2 <= c.2 < g.upper.2
        &&& g.lower.1 - 1 <= c.1 < g.upper.1 + headroom(g)
    } by {
        if in_column(p, -1, 0, c) {
            assert(free_or(g.cells, own, c, VoxelType::PassageFloor));
        } else if in_column(p, 0, h, c) {
            assert(free_or(g.cells, own, c, VoxelType::PassageSpace));
        } else {
            assert(own.contains_key(c));
        }
    }
    assert forall|c: Pos| #[trigger] own.contains_key(c) implies after.contains_key(c) && after[c]
        == own[c] by {
        if in_column(p, -1, 0, c) {
            assert(free_or(g.cells, own, c, VoxelType::PassageFloor));
        } else if in_column(p, 0, h, c) {
            assert(free_or(g.cells, own, c, VoxelType::PassageSpace));
        }
    }
}

/// A stair that fits extends a clean proposal to a clean one.
pub proof fn lemma_stair_keeps_clean(g: Ground, own: Cells, p: Pos, d: Direction4)
    requires
        clean(g, own),
        in_box(g.lower, g.upper, p),
        stair_fits(g.cells, own, p, g.height as int),
    ensures
        clean(g, with_stair(own, p, d, g.height as int)),
        extends(own, with_stair(own, p, d, g.height as int)),
{
    let h = g.height as int;
    let after = with_stair(own, p, d, h);
    assert forall|c: Pos| #[trigger] after.contains_key(c) implies {
        &&& is_passage_class(after[c])
        &&& g.cells.contains_key(c) ==> g.cells[c] == after[c]
        &&& g.lower.0 <= c.0 < g.upper.0
        &&& g.lower.2 <= c.2 < g.upper.2
        &&& g.lower.1 - 1 <= c.1 < g.upper.1 + headroom(g)
    } by {
        if c == p {
        } else if in_column(p, 1, h + 1, c) {
            assert(free_or(g.cells, own, c, VoxelType::PassageSpace));
        } else {
            assert(own.contains_key(c));
        }
    }
    assert forall|c: Pos| #[trigger] own.contains_key(c) implies after.contains_key(c) && after[c]
        == own[c] by {
        if c == p {
        } else if in_column(p, 1, h + 1, c) {
            assert(free_or(g.cells, own, c, VoxelType::PassageSpace));
        }
    }
}

/// The class is air that one can stand in above a floor: passage air or the
/// inside of a room.
pub open spec fn is_open_class(v: VoxelType) -> bool {
    v is PassageSpace || v is RoomSpace || v is RoomBottomSpace
}

/// Every passage floor has passage air, or the inside of a room, directly
/// above it.
pub open spec fn floors_covered(cells: Cells) -> bool {
    forall|c: Pos, u: Pos|
        cells.contains_key(c) && cells[c] == VoxelType::PassageFloor && #[trigger] in_column(
            c,
            1,
            2,
            u,
        ) ==> is_open_class(#[trigger] class_at(cells, u))
}

/// Every stair has passage air in the `h` cells directly above it.
pub open spec fn stairs_clear(cells: Cells, h: int) -> bool {
    forall|c: Pos, u: Pos|
        cells.contains_key(c) && cells[c] is PassageStair && #[trigger] in_column(c, 1, h + 1, u)
            ==> #[trigger] class_at(cells, u) == VoxelType::PassageSpace
}

/// Some start direction leads from `start` to `c`.
pub open spec fn leaves(start: Pos, dirs: DirectionSet, c: Pos) -> bool {
    exists|d: Direction4| dirs.has(d) && c == #[trigger] moved(start, d, 0)
}

/// One can go from `a` to `b`: `a` is passage air above a floor and `b` is
/// next to it on the same level, or `a` is a stair and `b` is one step in
/// the stair's direction, one level up.
pub open spec fn linked(cells: Cells, a: Pos, b: Pos) -> bool {
    &&& cells.contains_key(a)
    &&& {
        ||| {
            &&& cells[a] == VoxelType::PassageSpace
            &&& forall|f: Pos| #[trigger]
                in_column(a, -1, 0, f) ==> class_at(cells, f) == VoxelType::PassageFloor
            &&& exists|d: Direction4| b == #[trigger] moved(a, d, 0)
        }
        ||| exists|d: Direction4|
            cells[a] == VoxelType::PassageStair(d) && b == #[trigger] moved(a, d, 1)
    }
}

/// `path` leads from the start to `end`: its first cell is one step from
/// the start in a start direction, every cell is linked to the next, and the
/// last is linked to `end`. An empty path says that `end` itself is one step
/// from the start.
pub open spec fn is_path(cells: Cells, start: Pos, dirs: DirectionSet, path: Seq<Pos>, end: Pos) -> bool {
    if path.len() == 0 {
        leaves(start, dirs, end)
    } else {
        &&& leaves(start, dirs, path[0])
        &&& forall|i: int| 0 <= i < path.len() - 1 ==> linked(cells, #[trigger] path[i], path[i + 1])
        &&& linked(cells, path.last(), end)
    }
}

/// Some path leads from the start to `end`.
pub open spec fn reaches(cells: Cells, start: Pos, dirs: DirectionSet, end: Pos) -> bool {
    exists|path: Seq<Pos>| is_path(cells, start, dirs, path, end)
}

/// `path` leads from `start` to a cell on the walkable layer of the room
/// `goal`.
pub open spec fn connects(cells: Cells, start: Pos, dirs: DirectionSet, goal: RoomId) -> bool {
    exists|end: Pos| #[trigger]
        reaches(cells, start, dirs, end) && class_at(cells, end) == VoxelType::RoomBottomSpace(
            goal,
        )
}

/// What holds of a route while the corridor is at least one cell high: its
/// proposal is clean, its floors are covered, its stairs are clear and a
/// path leads through it from the start to where it stands.
pub open spec fn sound(g: Ground, start: Pos, dirs: DirectionSet) -> RouteInv {
    |p: Pos, cells: Cells|
        {
            &&& clean(g, cells)
            &&& floors_covered(cells)
            &&& stairs_clear(cells, g.height as int)
            &&& reaches(cells, start, dirs, p)
        }
}

/// `clean` as a property of routes.
pub open spec fn tidy(g: Ground) -> RouteInv {
    |p: Pos, cells: Cells| clean(g, cells)
}

/// Links survive when the proposal is extended.
pub proof fn lemma_linked_extends(before: Cells, after: Cells, a: Pos, b: Pos)
    requires
        extends(before, after),
        linked(before, a, b),
    ensures
        linked(after, a, b),
{
    assert(before.contains_key(a));
    if before[a] == VoxelType::PassageSpace && (forall|f: Pos| #[trigger]
        in_column(a, -1, 0, f) ==> class_at(before, f) == VoxelType::PassageFloor) && (exists|
        d: Direction4,
    |
        b == #[trigger] moved(a, d, 0)) {
        assert forall|f: Pos| #[trigger] in_column(a, -1, 0, f) implies class_at(after, f)
            == VoxelType::PassageFloor by {
            assert(class_at(before, f) == VoxelType::PassageFloor);
            assert(before.contains_key(f));
        }
    } else {
        let d = choose|d: Direction4|
            before[a] == VoxelType::PassageStair(d) && b == #[trigger] moved(a, d, 1);
        assert(after[a] == VoxelType::PassageStair(d) && b == moved(a, d, 1));
    }
}

/// A path that reaches `p` goes on to `next` once `p` is linked to `next`.
proof fn lemma_path_grows(
    before: Cells,
    after: Cells,
    start: Pos,
    dirs: DirectionSet,
    p: Pos,
    next: Pos,
)
    requires
        extends(before, after),
        reaches(before, start, dirs, p),
        linked(after, p, next),
    ensures
        reaches(after, start, dirs, next),
{
    let path = choose|path: Seq<Pos>| is_path(before, start, dirs, path, p);
    let longer = path.push(p);
    if path.len() > 0 {
        assert(longer[0] == path[0]);
        assert forall|i: int| 0 <= i < longer.len() - 1 implies linked(
            after,
            #[trigger] longer[i],
            longer[i + 1],
        ) by {
            if i < path.len() - 1 {
                assert(longer[i] == path[i] && longer[i + 1] == path[i + 1]);
                lemma_linked_extends(before, after, path[i], path[i + 1]);
            } else {
                assert(longer[i] == path.last() && longer[i + 1] == p);
                lemma_linked_extends(before, after, path.last(), p);
            }
        }
    }
    assert(longer.last() == p);
    assert(is_path(after, start, dirs, longer, next));
}

/// The steps keep `tidy`.
pub proof fn lemma_steps_keep_tidy(g: Ground)
    ensures
        kept_by_steps(g, tidy(g)),
{
    let inv = tidy(g);
    assert forall|p: Pos, own: Cells, d: Direction4|
        inv(p, own) && in_box(g.lower, g.upper, p) && corridor_fits(
            g.cells,
            own,
            p,
            g.height as int,
        ) implies #[trigger] inv(moved(p, d, 0), with_corridor(own, p, g.height as int)) by {
        lemma_corridor_keeps_clean(g, own, p);
    }
    assert forall|p: Pos, own: Cells, d: Direction4|
        inv(p, own) && in_box(g.lower, g.upper, p) && stair_fits(
            g.cells,
            own,
            p,
            g.height as int,
        ) implies #[trigger] inv(moved(p, d, 1), with_stair(own, p, d, g.height as int)) by {
        lemma_stair_keeps_clean(g, own, p, d);
    }
}

/// A piece of corridor of height one or more keeps `sound`.
proof fn lemma_corridor_keeps_sound(
    g: Ground,
    start: Pos,
    dirs: DirectionSet,
    p: Pos,
    own: Cells,
    d: Direction4,
)
    requires
        g.height >= 1,
        sound(g, start, dirs)(p, own),
        in_box(g.lower, g.upper, p),
        corridor_fits(g.cells, own, p, g.height as int),
    ensures
        sound(g, start, dirs)(moved(p, d, 0), with_corridor(own, p, g.height as int)),
{
    let h = g.height as int;
    let after = with_corridor(own, p, h);
    lemma_corridor_keeps_clean(g, own, p);
    assert(in_column(p, 0, h, p));
    assert(after.contains_key(p) && after[p] == VoxelType::PassageSpace);
    assert forall|c: Pos, u: Pos|
        after.contains_key(c) && after[c] == VoxelType::PassageFloor && #[trigger] in_column(
            c,
            1,
            2,
            u,
        ) implies is_open_class(#[trigger] class_at(after, u)) by {
        if in_column(p, -1, 0, c) {
            assert(in_column(p, 0, h, u));
        } else if in_column(p, 0, h, c) {
        } else {
            assert(own.contains_key(c) && own[c] == VoxelType::PassageFloor);
            assert(is_open_class(class_at(own, u)));
            assert(own.contains_key(u));
        }
    }
    assert forall|c: Pos, u: Pos|
        after.contains_key(c) && after[c] is PassageStair && #[trigger] in_column(
            c,
            1,
            h + 1,
            u,
        ) implies #[trigger] class_at(after, u) == VoxelType::PassageSpace by {
        assert(own.contains_key(c) && own[c] is PassageStair);
        assert(class_at(own, u) == VoxelType::PassageSpace);
        assert(own.contains_key(u));
    }
    assert(linked(after, p, moved(p, d, 0))) by {
        assert forall|f: Pos| #[trigger] in_column(p, -1, 0, f) implies class_at(after, f)
            == VoxelType::PassageFloor by {}
    }
    lemma_path_grows(own, after, start, dirs, p, moved(p, d, 0));
}

/// A stair under a corridor of height one or more keeps `sound`.
proof fn lemma_stair_keeps_sound(
    g: Ground,
    start: Pos,
    dirs: DirectionSet,
    p: Pos,
    own: Cells,
    d: Direction4,
)
    requires
        g.height >= 1,
        sound(g, start, dirs)(p, own),
        in_box(g.lower, g.upper, p),
        stair_fits(g.cells, own, p, g.height as int),
    ensures
        sound(g, start, dirs)(moved(p, d, 1), with_stair(own, p, d, g.height as int)),
{
    let h = g.height as int;
    let after = with_stair(own, p, d, h);
    lemma_stair_keeps_clean(g, own, p, d);
    assert(after.contains_key(p) && after[p] == VoxelType::PassageStair(d));
    assert forall|c: Pos, u: Pos|
        after.contains_key(c) && after[c] == VoxelType::PassageFloor && #[trigger] in_column(
            c,
            1,
            2,
            u,
        ) implies is_open_class(#[trigger] class_at(after, u)) by {
        assert(own.contains_key(c) && own[c] == VoxelType::PassageFloor);
        assert(is_open_class(class_at(own, u)));
        assert(own.contains_key(u));
    }
    assert forall|c: Pos, u: Pos|
        after.contains_key(c) && after[c] is PassageStair && #[trigger] in_column(
            c,
            1,
            h + 1,
            u,
        ) implies #[trigger] class_at(after, u) == VoxelType::PassageSpace by {
        if c == p {
        } else {
            assert(own.contains_key(c) && own[c] is PassageStair);
            assert(class_at(own, u) == VoxelType::PassageSpace);
            assert(own.contains_key(u));
        }
    }
    assert(linked(after, p, moved(p, d, 1)));
    lemma_path_grows(own, after, start, dirs, p, moved(p, d, 1));
}

/// The steps keep `sound` while the corridor is at least one cell high.
pub proof fn lemma_steps_keep_sound(g: Ground, start: Pos, dirs: DirectionSet)
    requires
        g.height >= 1,
    ensures
        kept_by_steps(g, sound(g, start, dirs)),
{
    let inv = sound(g, start, dirs);
    assert forall|p: Pos, own: Cells, d: Direction4|
        inv(p, own) && in_box(g.lower, g.upper, p) && corridor_fits(
            g.cells,
            own,
            p,
            g.height as int,
        ) implies #[trigger] inv(moved(p, d, 0), with_corridor(own, p, g.height as int)) by {
        lemma_corridor_keeps_sound(g, start, dirs, p, own, d);
    }
    assert forall|p: Pos, own: Cells, d: Direction4|
        inv(p, own) && in_box(g.lower, g.upper, p) && stair_fits(
            g.cells,
            own,
            p,
            g.height as int,
        ) implies #[trigger] inv(moved(p, d, 1), with_stair(own, p, d, g.height as int)) by {
        lemma_stair_keeps_sound(g, start, dirs, p, own, d);
    }
}

/// The cells of passages lie inside the bounds in x and z, and between one
/// layer below the bounds and `h` layers above them in y.
pub open spec fn passages_within(cells: Cells, lower: Pos, upper: Pos, h: int) -> bool {
    forall|c: Pos| #[trigger]
        cells.contains_key(c) && is_passage_class(cells[c]) ==> {
            &&& lower.0 <= c.0 < upper.0
            &&& lower.2 <= c.2 < upper.2
            &&& lower.1 - 1 <= c.1 < upper.1 + h
        }
}

/// What the router returns is clean: passage cells only, none that rewrites
/// a committed cell with another class, none outside the bounds by more than
/// one layer below or the corridor's height above.
pub proof fn lemma_routed_is_clean(
    cells: Cells,
    lower: Pos,
    upper: Pos,
    passage: PassageSpec,
    end_room: Room,
)
    ensures
        routed(cells, lower, upper, passage, end_room) matches Some(proposal) ==> clean(
            ground_of(cells, lower, upper, passage, end_room),
            proposal,
        ),
{
    let g = ground_of(cells, lower, upper, passage, end_room);
    let inv = tidy(g);
    lemma_steps_keep_tidy(g);
    assert forall|d: Direction4| passage.start_dirs.has(d) implies #[trigger] inv(
        moved(widen(passage.start), d, 0),
        Map::empty(),
    ) by {}
    lemma_seeds_keep(g.target, widen(passage.start), passage.start_dirs, inv);
    lemma_search_keeps(g, initial_state(g, passage), inv);
}

/// With a corridor at least one cell high, what the router returns is sound:
/// clean, every floor covered, every stair clear, and a path leads through
/// it from the start to a cell of the goal room's walkable layer.
pub proof fn lemma_routed_is_sound(
    cells: Cells,
    lower: Pos,
    upper: Pos,
    passage: PassageSpec,
    end_room: Room,
)
    requires
        passage.height >= 1,
    ensures
        routed(cells, lower, upper, passage, end_room) matches Some(proposal) ==> ends_well(
            ground_of(cells, lower, upper, passage, end_room),
            sound(
                ground_of(cells, lower, upper, passage, end_room),
                widen(passage.start),
                passage.start_dirs,
            ),
            proposal,
        ),
{
    let g = ground_of(cells, lower, upper, passage, end_room);
    let start = widen(passage.start);
    let inv = sound(g, start, passage.start_dirs);
    lemma_steps_keep_sound(g, start, passage.start_dirs);
    assert forall|d: Direction4| passage.start_dirs.has(d) implies #[trigger] inv(
        moved(start, d, 0),
        Map::empty(),
    ) by {
        let nothing: Cells = Map::empty();
        assert(is_path(nothing, start, passage.start_dirs, Seq::<Pos>::empty(), moved(start, d, 0)));
    }
    lemma_seeds_keep(g.target, start, passage.start_dirs, inv);
    lemma_search_keeps(g, initial_state(g, passage), inv);
}

/// Merging a clean proposal into the committed classification changes no
/// committed cell, stores no wall and keeps passages within their limits.
pub proof fn lemma_merge_extends(g: Ground, proposal: Cells, h: int)
    requires
        clean(g, proposal),
    ensures
        extends(g.cells, g.cells.union_prefer_right(proposal)),
        extends(proposal, g.cells.union_prefer_right(proposal)),
        no_wall_stored(g.cells) ==> no_wall_stored(g.cells.union_prefer_right(proposal)),
        forall|c: Pos|
            g.cells.union_prefer_right(proposal).contains_key(c) && !g.cells.contains_key(c)
                ==> #[trigger] proposal.contains_key(c),
        passages_within(g.cells, g.lower, g.upper, h) && headroom(g) <= h ==> passages_within(
            g.cells.union_prefer_right(proposal),
            g.lower,
            g.upper,
            h,
        ),
{
    let m = g.cells.union_prefer_right(proposal);
    assert forall|c: Pos| #[trigger] g.cells.contains_key(c) implies m.contains_key(c) && m[c]
        == g.cells[c] by {
        if proposal.contains_key(c) {
        }
    }
    assert forall|c: Pos| #[trigger] m.contains_key(c) && no_wall_stored(g.cells) implies m[c]
        != VoxelType::Wall by {
        if proposal.contains_key(c) {
        } else {
            assert(g.cells.contains_key(c));
        }
    }
    if passages_within(g.cells, g.lower, g.upper, h) && headroom(g) <= h {
        assert forall|c: Pos| #[trigger]
            m.contains_key(c) && is_passage_class(m[c]) implies {
            &&& g.lower.0 <= c.0 < g.upper.0
            &&& g.lower.2 <= c.2 < g.upper.2
            &&& g.lower.1 - 1 <= c.1 < g.upper.1 + h
        } by {
            if proposal.contains_key(c) {
            } else {
                assert(g.cells.contains_key(c));
            }
        }
    }
}

/// Merging a sound proposal keeps floors covered and stairs clear, and the
/// merged classification connects the start with the goal room.
pub proof fn lemma_merge_sound(g: Ground, start: Pos, dirs: DirectionSet, proposal: Cells, h: int)
    requires
        ends_well(g, sound(g, start, dirs), proposal),
    ensures
        floors_covered(g.cells) ==> floors_covered(g.cells.union_prefer_right(proposal)),
        stairs_clear(g.cells, h) && h <= g.height ==> stairs_clear(
            g.cells.union_prefer_right(proposal),
            h,
        ),
        connects(g.cells.union_prefer_right(proposal), start, dirs, g.goal),
{
    let m = g.cells.union_prefer_right(proposal);
    let end = choose|end: Pos|
        {
            &&& #[trigger] in_box(g.lower, g.upper, end)
            &&& sound(g, start, dirs)(end, proposal)
            &&& class_at(g.cells, end) == VoxelType::RoomBottomSpace(g.goal)
        };
    lemma_merge_extends(g, proposal, h);
    if floors_covered(g.cells) {
        assert forall|c: Pos, u: Pos|
            m.contains_key(c) && m[c] == VoxelType::PassageFloor && #[trigger] in_column(
                c,
                1,
                2,
                u,
            ) implies is_open_class(#[trigger] class_at(m, u)) by {
            if proposal.contains_key(c) {
                assert(is_open_class(class_at(proposal, u)));
                assert(proposal.contains_key(u));
            } else {
                assert(g.cells.contains_key(c));
                assert(is_open_class(class_at(g.cells, u)));
                assert(g.cells.contains_key(u));
            }
        }
    }
    if stairs_clear(g.cells, h) && h <= g.height {
        assert forall|c: Pos, u: Pos|
            m.contains_key(c) && m[c] is PassageStair && #[trigger] in_column(
                c,
                1,
                h + 1,
                u,
            ) implies #[trigger] class_at(m, u) == VoxelType::PassageSpace by {
            if proposal.contains_key(c) {
                assert(in_column(c, 1, g.height + 1, u));
                assert(class_at(proposal, u) == VoxelType::PassageSpace);
                assert(proposal.contains_key(u));
            } else {
                assert(g.cells.contains_key(c));
                assert(class_at(g.cells, u) == VoxelType::PassageSpace);
                assert(g.cells.contains_key(u));
            }
        }
    }
    let path = choose|path: Seq<Pos>| is_path(proposal, start, dirs, path, end);
    if path.len() > 0 {
        assert forall|i: int| 0 <= i < path.len() - 1 implies linked(
            m,
            #[trigger] path[i],
            path[i + 1],
        ) by {
            lemma_linked_extends(proposal, m, path[i], path[i + 1]);
        }
        lemma_linked_extends(proposal, m, path.last(), end);
    }
    assert(is_path(m, start, dirs, path, end));
    assert(reaches(m, start, dirs, end));
    assert(g.cells.contains_key(end));
    assert(class_at(m, end) == VoxelType::RoomBottomSpace(g.goal));
}

/// Writing the shell of a room into free cells keeps floors covered, stairs
/// clear and passages within their limits.
pub proof fn lemma_room_keeps_passages(cells: Cells, room: Room, lower: Pos, upper: Pos, h: int)
    requires
        shell_is_free(cells, room),
    ensures
        extends(cells, cells.union_prefer_right(shell(room))),
        no_wall_stored(cells) ==> no_wall_stored(cells.union_prefer_right(shell(room))),
        floors_covered(cells) ==> floors_covered(cells.union_prefer_right(shell(room))),
        stairs_clear(cells, h) ==> stairs_clear(cells.union_prefer_right(shell(room)), h),
        passages_within(cells, lower, upper, h) ==> passages_within(
            cells.union_prefer_right(shell(room)),
            lower,
            upper,
            h,
        ),
{
    let m = cells.union_prefer_right(shell(room));
    assert forall|c: Pos| #[trigger] cells.contains_key(c) implies m.contains_key(c) && m[c]
        == cells[c] by {
        assert(!in_shell(room, c));
    }
    assert forall|c: Pos| m.contains_key(c) && !cells.contains_key(c) implies in_shell(room, c)
        && m[c] == shell_class(room, c) by {}
    if floors_covered(cells) {
        assert forall|c: Pos, u: Pos|
            m.contains_key(c) && m[c] == VoxelType::PassageFloor && #[trigger] in_column(
                c,
                1,
                2,
                u,
            ) implies is_open_class(#[trigger] class_at(m, u)) by {
            assert(cells.contains_key(c));
            assert(is_open_class(class_at(cells, u)));
            assert(cells.contains_key(u));
        }
    }
    if stairs_clear(cells, h) {
        assert forall|c: Pos, u: Pos|
            m.contains_key(c) && m[c] is PassageStair && #[trigger] in_column(
                c,
                1,
                h + 1,
                u,
            ) implies #[trigger] class_at(m, u) == VoxelType::PassageSpace by {
            assert(cells.contains_key(c));
            assert(class_at(cells, u) == VoxelType::PassageSpace);
            assert(cells.contains_key(u));
        }
    }
    if passages_within(cells, lower, upper, h) {
        assert forall|c: Pos| #[trigger]
            m.contains_key(c) && is_passage_class(m[c]) implies {
            &&& lower.0 <= c.0 < upper.0
            &&& lower.2 <= c.2 < upper.2
            &&& lower.1 - 1 <= c.1 < upper.1 + h
        } by {
            assert(cells.contains_key(c));
        }
    }
    if no_wall_stored(cells) {
        assert forall|c: Pos| #[trigger] m.contains_key(c) implies m[c] != VoxelType::Wall by {
            if cells.contains_key(c) {
            }
        }
    }
}

/// A connection between the start and a room survives when cells are added
/// and none is changed.
pub proof fn lemma_connects_extends(
    before: Cells,
    after: Cells,
    start: Pos,
    dirs: DirectionSet,
    goal: RoomId,
)
    requires
        extends(before, after),
        connects(before, start, dirs, goal),
    ensures
        connects(after, start, dirs, goal),
{
    let end = choose|end: Pos| #[trigger]
        reaches(before, start, dirs, end) && class_at(before, end) == VoxelType::RoomBottomSpace(
            goal,
        );
    let path = choose|path: Seq<Pos>| is_path(before, start, dirs, path, end);
    if path.len() > 0 {
        assert forall|i: int| 0 <= i < path.len() - 1 implies linked(
            after,
            #[trigger] path[i],
            path[i + 1],
        ) by {
            lemma_linked_extends(before, after, path[i], path[i + 1]);
        }
        lemma_linked_extends(before, after, path.last(), end);
    }
    assert(is_path(after, start, dirs, path, end));
    assert(reaches(after, start, dirs, end));
    assert(before.contains_key(end));
}

/// Writing rooms keeps floors covered, stairs clear and passages within
/// their limits, and changes no cell that was there.
pub proof fn lemma_rooms_keep_passages(
    cells: Cells,
    rooms: Seq<Room>,
    lower: Pos,
    upper: Pos,
    h: int,
)
    requires
        with_rooms(cells, rooms) is Some,
    ensures
        extends(cells, with_rooms(cells, rooms)->0),
        no_wall_stored(cells) ==> no_wall_stored(with_rooms(cells, rooms)->0),
        floors_covered(cells) ==> floors_covered(with_rooms(cells, rooms)->0),
        stairs_clear(cells, h) ==> stairs_clear(with_rooms(cells, rooms)->0, h),
        passages_within(cells, lower, upper, h) ==> passages_within(
            with_rooms(cells, rooms)->0,
            lower,
            upper,
            h,
        ),
    decreases rooms.len(),
{
    if rooms.len() > 0 {
        let before = with_rooms(cells, rooms.drop_last())->0;
        lemma_rooms_keep_passages(cells, rooms.drop_last(), lower, upper, h);
        lemma_room_keeps_passages(before, rooms.last(), lower, upper, h);
    }
}

} // verus!
