//! The passage router: a best-first search that carves a corridor, with
//! stairs where it has to climb, from the edge of one room to another.
use crate::btree_key_values::bucket_of;
use crate::btree_key_values::lemma_lifted_pushed;
use crate::btree_key_values::lifted;
use crate::btree_key_values::front;
use crate::btree_key_values::popped;
use crate::btree_key_values::total_len;
use crate::btree_key_values::lemma_lifted_popped;
use crate::btree_key_values::Bucket;
use crate::passage::Passage;
use crate::passage::PassageSpec;
use crate::voxel_map::widen;
use crate::btree_key_values::BTreeKeyValues;
use crate::constants::Direction4;
use crate::constants::DirectionSet;
use crate::constants::VoxelType;
use crate::key_order::lemma_u64_keys;
use crate::room::Room;
use crate::route_spec::admitted;
use crate::route_spec::corridor_fits;
use crate::route_spec::enqueue_branch;
use crate::route_spec::enqueue_seed;
use crate::route_spec::enqueue_seeds;
use crate::route_spec::enqueue_step;
use crate::route_spec::expanded;
use crate::route_spec::first_improved;
use crate::route_spec::free_or;
use crate::route_spec::gap;
use crate::route_spec::improves_on;
use crate::route_spec::in_column;
use crate::route_spec::moved;
use crate::route_spec::score;
use crate::route_spec::seen;
use crate::route_spec::stair_fits;
use crate::route_spec::search;
use crate::route_spec::step;
use crate::route_spec::stored_cost;
use crate::route_spec::free_slots;
use crate::route_spec::lemma_step_decreases;
use crate::route_spec::SearchState;
use crate::route_spec::Step;
use crate::route_spec::with_corridor;
use crate::route_spec::with_stair;
use crate::route_spec::Accepted;
use crate::route_spec::Entry;
use crate::route_spec::Ground;
use crate::route_spec::Pending;
use crate::route_spec::RouteMode;
use crate::route_spec::RouteSpec;
use crate::route_spec::ROUTES_PER_CELL;
use crate::voxel_map::lemma_pos_ordered;
use crate::voxel_map::within_reach;
use crate::voxel_map::Cells;
use crate::voxel_map::Pos;
use std::collections::BTreeMap;
use vstd::prelude::*;

verus! {

/// A pending route: where it stands, how it got there, what it cost and
/// which cells it proposes to write.
pub struct Route {
    pub mode: RouteMode,
    pub point: Pos,
    pub cost: u64,
    pub map: BTreeMap<Pos, VoxelType>,
}

impl View for Route {
    type V = RouteSpec;

    /// The route with its proposal as a map.
    open spec fn view(&self) -> RouteSpec {
        RouteSpec { mode: self.mode, point: self.point, cost: self.cost, cells: self.map@ }
    }
}

/// The function that takes a route to what it stands for.
pub open spec fn route_view() -> spec_fn(Route) -> RouteSpec {
    |r: Route| r@
}

/// The routes of a queue, by ascending score and oldest first.
pub open spec fn pending_of(queue: &BTreeKeyValues<u64, Route>) -> Pending {
    lifted(queue.entries(), route_view())
}

/// The lists of a table of accepted routes.
pub open spec fn accepted_of(table: Map<Pos, Vec<Entry>>) -> Accepted {
    Map::new(|p: Pos| table.contains_key(p), |p: Pos| table[p]@)
}

/// What scores on the way to the room are measured against, doubled: twice
/// the centre of the room in x and z, and twice the height of its walkable
/// layer in y.
pub open spec fn target_of(room: Room) -> Pos {
    (
        (2 * room.origin.0 + room.width) as i64,
        (2 * room.origin.1) as i64,
        (2 * room.origin.2 + room.depth) as i64,
    )
}

/// Twice the distance between a coordinate and a target that is given
/// doubled.
fn axis_gap(target: i64, a: i64) -> (g: u128)
    ensures
        g == gap(target, a),
{
    let twice: i128 = 2 * (a as i128);
    if target as i128 >= twice {
        (target as i128 - twice) as u128
    } else {
        (twice - target as i128) as u128
    }
}

/// The score of a route that stands at `start` with the cost `cost`, on its
/// way to `room`: ten times the distance to the centre of the room, taken at
/// the height of its walkable layer, plus the cost, or the greatest score if
/// that is too large.
pub fn calc_score(room: &Room, start: &Pos, cost: u64) -> (s: u64)
    ensures
        s == score(target_of(*room), *start, cost as int),
{
    let center = room.center_doubled();
    let target: Pos = (center.0 as i64, 2 * (room.origin.1 as i64), center.2 as i64);
    let d: u128 = axis_gap(target.0, start.0) + axis_gap(target.1, start.1) + axis_gap(
        target.2,
        start.2,
    );
    let total: u128 = d * 5 + cost as u128;
    if total >= u64::MAX as u128 {
        u64::MAX
    } else {
        total as u64
    }
}

/// What a route sees at `c`: the committed class if there is one, else what
/// the route itself has proposed.
fn look(
    readonly_map: &BTreeMap<Pos, VoxelType>,
    writable_map: &BTreeMap<Pos, VoxelType>,
    c: &Pos,
) -> (r: Option<VoxelType>)
    ensures
        r == seen(readonly_map@, writable_map@, *c),
{
    broadcast use vstd::std_specs::btree::group_btree_axioms;

    proof {
        lemma_pos_ordered();
    }
    match readonly_map.get(c) {
        Some(class) => Some(*class),
        None => match writable_map.get(c) {
            Some(class) => Some(*class),
            None => None,
        },
    }
}

/// Whether the cells of the column of `point` from `from` levels above it up
/// to, not including, `to` levels above it are all empty or passage air.
fn column_is_free(
    point: &Pos,
    from: i32,
    to: i64,
    readonly_map: &BTreeMap<Pos, VoxelType>,
    writable_map: &BTreeMap<Pos, VoxelType>,
) -> (free: bool)
    requires
        within_reach(*point),
        0 <= from <= 1,
        to <= 0x8000_0000,
    ensures
        free == forall|c: Pos| #[trigger]
            in_column(*point, from as int, to as int, c) ==> free_or(
                readonly_map@,
                writable_map@,
                c,
                VoxelType::PassageSpace,
            ),
{
    let mut y: i64 = from as i64;
    while y < to
        invariant
            within_reach(*point),
            0 <= from <= y,
            y <= to || to < from,
            to <= 0x8000_0000,
            forall|c: Pos| #[trigger]
                in_column(*point, from as int, y as int, c) ==> free_or(
                    readonly_map@,
                    writable_map@,
                    c,
                    VoxelType::PassageSpace,
                ),
        decreases to - y,
    {
        let space_point: Pos = (point.0, point.1 + y, point.2);
        let space = look(readonly_map, writable_map, &space_point);
        if space.is_some() && space != Some(VoxelType::PassageSpace) {
            proof {
                assert(in_column(*point, from as int, to as int, space_point));
            }
            return false;
        }
        proof {
            assert forall|c: Pos| #[trigger] in_column(*point, from as int, y + 1, c) implies free_or(
                readonly_map@,
                writable_map@,
                c,
                VoxelType::PassageSpace,
            ) by {
                if !in_column(*point, from as int, y as int, c) {
                    assert(c == space_point);
                }
            }
        }
        y = y + 1;
    }
    true
}

/// Tries to add a piece of corridor at `point` to the proposal: floor in the
/// cell beneath, air in the `height` cells from `point` upwards.
///
/// Returns whether the piece fits. Every cell is looked at before the first
/// is written: if the piece does not fit, the proposal is as it was.
pub fn add_passage(
    point: &Pos,
    height: i32,
    readonly_map: &BTreeMap<Pos, VoxelType>,
    writable_map: &mut BTreeMap<Pos, VoxelType>,
) -> (fits: bool)
    requires
        within_reach(*point),
    ensures
        fits == corridor_fits(readonly_map@, old(writable_map)@, *point, height as int),
        fits ==> final(writable_map)@ == with_corridor(
            old(writable_map)@,
            *point,
            height as int,
        ),
        !fits ==> final(writable_map)@ == old(writable_map)@,
{
    broadcast use vstd::std_specs::btree::group_btree_axioms;

    proof {
        lemma_pos_ordered();
    }
    let ghost own = writable_map@;
    let ground_point: Pos = (point.0, point.1 - 1, point.2);
    let ground = look(readonly_map, writable_map, &ground_point);
    assert(in_column(*point, -1, 0, ground_point));
    if ground.is_some() && ground != Some(VoxelType::PassageFloor) {
        return false;
    }
    if !column_is_free(point, 0, height as i64, readonly_map, writable_map) {
        return false;
    }
    proof {
        assert forall|c: Pos| #[trigger] in_column(*point, -1, 0, c) implies free_or(
            readonly_map@,
            own,
            c,
            VoxelType::PassageFloor,
        ) by {
            assert(c == ground_point);
        }
    }
    writable_map.insert(ground_point, VoxelType::PassageFloor);
    proof {
        assert(writable_map@ =~= with_corridor(own, *point, 0));
    }
    let mut y: i32 = 0;
    while y < height
        invariant
            within_reach(*point),
            crate::voxel_map::pos_ordered(),
            0 <= y,
            y <= height || (height < 0 && y == 0),
            writable_map@ == with_corridor(own, *point, y as int),
        decreases height - y,
    {
        let space_point: Pos = (point.0, point.1 + y as i64, point.2);
        writable_map.insert(space_point, VoxelType::PassageSpace);
        y = y + 1;
        proof {
            assert(writable_map@ =~= with_corridor(own, *point, y as int));
        }
    }
    proof {
        assert(writable_map@ =~= with_corridor(own, *point, height as int));
    }
    true
}

/// Tries to add a stair at `point` to the proposal: the stair itself, which
/// rises in the direction `direction`, and air in the `height` cells above.
///
/// Returns whether the stair fits. Every cell is looked at before the first
/// is written: if the stair does not fit, the proposal is as it was.
pub fn add_stair(
    point: &Pos,
    height: i32,
    direction: &Direction4,
    readonly_map: &BTreeMap<Pos, VoxelType>,
    writable_map: &mut BTreeMap<Pos, VoxelType>,
) -> (fits: bool)
    requires
        within_reach(*point),
    ensures
        fits == stair_fits(readonly_map@, old(writable_map)@, *point, height as int),
        fits ==> final(writable_map)@ == with_stair(
            old(writable_map)@,
            *point,
            *direction,
            height as int,
        ),
        !fits ==> final(writable_map)@ == old(writable_map)@,
{
    broadcast use vstd::std_specs::btree::group_btree_axioms;

    proof {
        lemma_pos_ordered();
    }
    let ghost own = writable_map@;
    let ground = look(readonly_map, writable_map, point);
    if ground.is_some() {
        return false;
    }
    if !column_is_free(point, 1, height as i64 + 1, readonly_map, writable_map) {
        return false;
    }
    writable_map.insert(*point, VoxelType::PassageStair(*direction));
    proof {
        assert(writable_map@ =~= with_stair(own, *point, *direction, 0));
    }
    let mut y: i32 = 0;
    while y < height
        invariant
            within_reach(*point),
            crate::voxel_map::pos_ordered(),
            0 <= y,
            y <= height || (height < 0 && y == 0),
            writable_map@ == with_stair(own, *point, *direction, y as int),
        decreases height - y,
    {
        let space_point: Pos = (point.0, point.1 + (y as i64 + 1), point.2);
        writable_map.insert(space_point, VoxelType::PassageSpace);
        y = y + 1;
        proof {
            assert(writable_map@ =~= with_stair(own, *point, *direction, y as int));
        }
    }
    proof {
        assert(writable_map@ =~= with_stair(own, *point, *direction, height as int));
    }
    true
}

/// `first_improved` is the first position that the route improves on.
proof fn lemma_first_improved_at(list: Seq<Entry>, mode: RouteMode, cost: u64, at: int)
    requires
        0 <= at <= list.len(),
        forall|j: int| 0 <= j < at ==> !improves_on(mode, cost, #[trigger] list[j]),
        at < list.len() ==> improves_on(mode, cost, list[at]),
    ensures
        first_improved(list, mode, cost) == at,
    decreases list.len(),
{
    if list.len() > 0 && at > 0 {
        let rest = list.drop_first();
        assert(!improves_on(mode, cost, list[0]));
        assert forall|j: int| 0 <= j < at - 1 implies !improves_on(mode, cost, #[trigger] rest[j]) by {
            assert(rest[j] == list[j + 1]);
        }
        if at < list.len() {
            assert(rest[at - 1] == list[at]);
        }
        lemma_first_improved_at(rest, mode, cost, at - 1);
    }
}

/// Holds a route with (mode, cost) against the list of its cell.
///
/// Returns whether the route is admitted. If it is, it has taken the place
/// of the first entry it improves on, or joined the end of the list.
pub fn accept(list: &mut Vec<Entry>, mode: RouteMode, cost: u64) -> (ok: bool)
    ensures
        ok == admitted(old(list)@, mode, cost) is Some,
        ok ==> final(list)@ == admitted(old(list)@, mode, cost)->0,
        !ok ==> final(list)@ == old(list)@,
{
    let n = list.len();
    if n >= ROUTES_PER_CELL {
        return false;
    }
    let mut i: usize = 0;
    let mut beaten = false;
    let mut better: usize = n;
    while i < n
        invariant
            n == list@.len(),
            list@ == old(list)@,
            i <= n,
            beaten <==> exists|j: int|
                0 <= j < i && (#[trigger] list@[j]).0.spec_contains(&mode) && list@[j].1 <= cost,
            better <= n,
            better < n ==> better < i && improves_on(mode, cost, list@[better as int]),
            better == n ==> forall|j: int|
                0 <= j < i ==> !improves_on(mode, cost, #[trigger] list@[j]),
            forall|j: int| 0 <= j < better && j < i ==> !improves_on(mode, cost, #[trigger] list@[j]),
        decreases n - i,
    {
        let entry = list[i];
        if entry.0.contains(&mode) && entry.1 <= cost {
            beaten = true;
        }
        if better == n && mode.contains(&entry.0) && cost < entry.1 {
            better = i;
        }
        i = i + 1;
    }
    if beaten {
        return false;
    }
    proof {
        lemma_first_improved_at(list@, mode, cost, better as int);
    }
    if better < n {
        list[better] = (mode, cost);
    } else {
        list.push((mode, cost));
    }
    true
}

/// Holds a route with (mode, cost) against the list that the table keeps for
/// the cell `p`, and updates the table if the route is admitted.
pub fn accept_at(table: &mut BTreeMap<Pos, Vec<Entry>>, p: Pos, mode: RouteMode, cost: u64) -> (ok:
    bool)
    ensures
        ok == admitted(bucket_of(accepted_of(old(table)@), p), mode, cost) is Some,
        ok ==> accepted_of(final(table)@) == accepted_of(old(table)@).insert(
            p,
            admitted(bucket_of(accepted_of(old(table)@), p), mode, cost)->0,
        ),
        !ok ==> accepted_of(final(table)@) == accepted_of(old(table)@),
{
    broadcast use vstd::std_specs::btree::group_btree_axioms;

    proof {
        lemma_pos_ordered();
    }
    let ghost before = accepted_of(table@);
    match table.remove(&p) {
        Some(mut list) => {
            let ok = accept(&mut list, mode, cost);
            table.insert(p, list);
            proof {
                if ok {
                    assert(accepted_of(table@) =~= before.insert(p, list@));
                } else {
                    assert(accepted_of(table@) =~= before);
                }
            }
            ok
        },
        None => {
            let mut list: Vec<Entry> = Vec::new();
            let ok = accept(&mut list, mode, cost);
            if ok {
                table.insert(p, list);
                proof {
                    assert(accepted_of(table@) =~= before.insert(p, list@));
                }
            } else {
                proof {
                    assert(accepted_of(table@) =~= before);
                }
            }
            ok
        },
    }
}

/// The cell one step from `p` in the direction `d`, `rise` levels up.
fn step_from(p: &Pos, d: Direction4, rise: i64) -> (n: Pos)
    requires
        within_reach(*p),
        0 <= rise <= 1,
    ensures
        n == moved(*p, d, rise as int),
{
    let v = d.to_vec3();
    (p.0 + v.0 as i64, p.1 + rise, p.2 + v.2 as i64)
}

/// Enqueues the two routes that continue at `next` in the direction `d`:
/// first the level step, then the stair. Each gets its own copy of the
/// proposal.
fn push_branch(
    queue: &mut BTreeKeyValues<u64, Route>,
    next: Pos,
    d: Direction4,
    key: u64,
    cost: u64,
    map: &BTreeMap<Pos, VoxelType>,
)
    requires
        old(queue).wf(),
    ensures
        final(queue).wf(),
        pending_of(final(queue)) == enqueue_branch(
            pending_of(old(queue)),
            next,
            d,
            key,
            cost,
            map@,
        ),
{
    proof {
        lemma_u64_keys();
    }
    let level = Route {
        mode: RouteMode::ParallelShift { movable_dirs: DirectionSet::all_but_opposite(d) },
        point: next,
        cost,
        map: map.clone(),
    };
    proof {
        lemma_lifted_pushed(queue.entries(), route_view(), key, level);
    }
    queue.push_back(key, level);
    let stair = Route { mode: RouteMode::Stair(d), point: next, cost, map: map.clone() };
    proof {
        lemma_lifted_pushed(queue.entries(), route_view(), key, stair);
    }
    queue.push_back(key, stair);
}

/// Enqueues the two routes that leave `start` in the direction `d`, with no
/// cost and nothing proposed.
fn push_seed(queue: &mut BTreeKeyValues<u64, Route>, room: &Room, start: &Pos, d: Direction4)
    requires
        old(queue).wf(),
        within_reach(*start),
    ensures
        final(queue).wf(),
        pending_of(final(queue)) == enqueue_seed(
            pending_of(old(queue)),
            target_of(*room),
            *start,
            d,
        ),
{
    let next = step_from(start, d, 0);
    let key = calc_score(room, &next, 0);
    let nothing: BTreeMap<Pos, VoxelType> = BTreeMap::new();
    push_branch(queue, next, d, key, 0, &nothing);
}

/// Enqueues the two routes that continue from `from` in the direction `d`,
/// `rise` levels up. Their cost is the score under which they are queued.
fn push_step(
    queue: &mut BTreeKeyValues<u64, Route>,
    room: &Room,
    from: &Pos,
    d: Direction4,
    rise: i64,
    cost: u64,
    map: &BTreeMap<Pos, VoxelType>,
)
    requires
        old(queue).wf(),
        within_reach(*from),
        0 <= rise <= 1,
    ensures
        final(queue).wf(),
        pending_of(final(queue)) == enqueue_step(
            pending_of(old(queue)),
            target_of(*room),
            *from,
            d,
            rise as int,
            cost,
            map@,
        ),
{
    let next = step_from(from, d, rise);
    let further = if cost == u64::MAX {
        cost
    } else {
        cost + 1
    };
    let s = calc_score(room, &next, further);
    push_branch(queue, next, d, s, s, map);
}

/// Lets an admitted route write its cells and, where they fit, enqueue its
/// successors.
fn expand(
    route: Route,
    height: i32,
    room: &Room,
    committed: &BTreeMap<Pos, VoxelType>,
    queue: &mut BTreeKeyValues<u64, Route>,
    Ghost(g): Ghost<Ground>,
)
    requires
        old(queue).wf(),
        within_reach(route.point),
        g.cells == committed@,
        g.height == height,
        g.target == target_of(*room),
    ensures
        final(queue).wf(),
        pending_of(final(queue)) == expanded(g, pending_of(old(queue)), route@),
{
    let mut route = route;
    let ghost r = route@;
    match route.mode {
        RouteMode::ParallelShift { movable_dirs } => {
            if add_passage(&route.point, height, committed, &mut route.map) {
                if movable_dirs.left {
                    push_step(queue, room, &route.point, Direction4::Left, 0, route.cost, &route.map);
                }
                if movable_dirs.right {
                    push_step(
                        queue,
                        room,
                        &route.point,
                        Direction4::Right,
                        0,
                        route.cost,
                        &route.map,
                    );
                }
                if movable_dirs.far {
                    push_step(queue, room, &route.point, Direction4::Far, 0, route.cost, &route.map);
                }
                if movable_dirs.near {
                    push_step(queue, room, &route.point, Direction4::Near, 0, route.cost, &route.map);
                }
            }
        },
        RouteMode::Stair(d) => {
            if add_stair(&route.point, height, &d, committed, &mut route.map) {
                push_step(queue, room, &route.point, d, 1, route.cost, &route.map);
            }
        },
    }
}

/// What one search works on.
pub open spec fn ground_of(
    cells: Cells,
    lower: Pos,
    upper: Pos,
    passage: PassageSpec,
    end_room: Room,
) -> Ground {
    Ground {
        cells,
        lower,
        upper,
        height: passage.height,
        goal: passage.end_room_id,
        target: target_of(end_room),
    }
}

/// The state in which a search starts: for every start direction, in the
/// order left, right, far, near, a level step and a stair one step from the
/// start point; no route accepted anywhere.
pub open spec fn initial_state(g: Ground, passage: PassageSpec) -> SearchState {
    SearchState {
        pending: enqueue_seeds(
            Seq::<Bucket<u64, RouteSpec>>::empty(),
            g.target,
            widen(passage.start),
            passage.start_dirs,
        ),
        accepted: Map::<Pos, Seq<Entry>>::empty(),
    }
}

/// The cells that the router proposes for `passage` on the committed
/// classification `cells`, or `None` if it finds no route.
pub open spec fn routed(
    cells: Cells,
    lower: Pos,
    upper: Pos,
    passage: PassageSpec,
    end_room: Room,
) -> Option<Cells> {
    search(
        ground_of(cells, lower, upper, passage, end_room),
        initial_state(ground_of(cells, lower, upper, passage, end_room), passage),
    )
}

/// Searches a route for `passage` to the walkable layer of `end_room`.
///
/// Returns the cells to write, or `None` if the queue of routes ran empty
/// before a route reached the room. `committed` is what the map holds;
/// `lower` and `upper` are its bounds.
pub fn find_route(
    committed: &BTreeMap<Pos, VoxelType>,
    lower: Pos,
    upper: Pos,
    passage: &Passage,
    end_room: &Room,
) -> (r: Option<BTreeMap<Pos, VoxelType>>)
    requires
        within_reach(lower),
        within_reach(upper),
    ensures
        r is Some <==> routed(committed@, lower, upper, passage@, *end_room) is Some,
        r matches Some(cells) ==> routed(committed@, lower, upper, passage@, *end_room) == Some(
            cells@,
        ),
{
    broadcast use vstd::std_specs::btree::group_btree_axioms;

    let ghost g = ground_of(committed@, lower, upper, passage@, *end_room);
    let ghost init = initial_state(g, passage@);
    let mut queue: BTreeKeyValues<u64, Route> = BTreeKeyValues::new();
    let mut table: BTreeMap<Pos, Vec<Entry>> = BTreeMap::new();
    let start: Pos = (passage.start.0 as i64, passage.start.1 as i64, passage.start.2 as i64);
    proof {
        assert(pending_of(&queue) =~= Seq::<Bucket<u64, RouteSpec>>::empty());
    }
    if passage.start_dirs.left {
        push_seed(&mut queue, end_room, &start, Direction4::Left);
    }
    if passage.start_dirs.right {
        push_seed(&mut queue, end_room, &start, Direction4::Right);
    }
    if passage.start_dirs.far {
        push_seed(&mut queue, end_room, &start, Direction4::Far);
    }
    if passage.start_dirs.near {
        push_seed(&mut queue, end_room, &start, Direction4::Near);
    }
    let ghost mut s = init;
    proof {
        assert(accepted_of(table@) =~= init.accepted);
    }
    loop
        invariant
            within_reach(lower),
            within_reach(upper),
            g == ground_of(committed@, lower, upper, passage@, *end_room),
            init == initial_state(g, passage@),
            queue.wf(),
            pending_of(&queue) == s.pending,
            accepted_of(table@) == s.accepted,
            search(g, s) == search(g, init),
        decreases free_slots(g, s.accepted), stored_cost(g, s.accepted), total_len(s.pending),
    {
        proof {
            lemma_u64_keys();
            lemma_pos_ordered();
            lemma_lifted_popped(queue.entries(), route_view());
            lemma_step_decreases(g, s);
        }
        let ghost before = s;
        let next = queue.pop_first_back();
        match next {
            None => {
                proof {
                    assert(step(g, before) == Step::Exhausted);
                    assert(search(g, before) == None::<Cells>);
                }
                return None;
            },
            Some(route) => {
                let ghost r = route@;
                let ghost rest = pending_of(&queue);
                assert(front(before.pending) == Some(r));
                assert(rest == popped(before.pending));
                let inside = lower.0 <= route.point.0 && route.point.0 < upper.0 && lower.1
                    <= route.point.1 && route.point.1 < upper.1 && lower.2 <= route.point.2
                    && route.point.2 < upper.2;
                if !inside {
                    proof {
                        s = SearchState { pending: rest, accepted: before.accepted };
                    }
                } else {
                    let at_goal = match committed.get(&route.point) {
                        Some(class) => *class == VoxelType::RoomBottomSpace(passage.end_room_id),
                        None => false,
                    };
                    if at_goal {
                        proof {
                            assert(step(g, before) == Step::Found(r.cells));
                            assert(search(g, before) == Some(r.cells));
                        }
                        return Some(route.map);
                    }
                    let ok = accept_at(&mut table, route.point, route.mode, route.cost);
                    if ok {
                        expand(route, passage.height, end_room, committed, &mut queue, Ghost(g));
                        proof {
                            s = SearchState {
                                pending: pending_of(&queue),
                                accepted: accepted_of(table@),
                            };
                        }
                    } else {
                        proof {
                            s = SearchState { pending: rest, accepted: before.accepted };
                        }
                    }
                }
                proof {
                    assert(step(g, before) == Step::Next(s));
                    assert(search(g, before) == search(g, s));
                }
            },
        }
    }
}

} // verus!
