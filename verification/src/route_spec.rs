//! What the passage router computes, as a function of its inputs.
//!
//! The router is a best-first search. Its state is the queue of pending
//! routes and, for every cell, the list of (mode, cost) pairs accepted there.
//! `step` examines the front route; `search` repeats `step` until a route
//! stands on the goal or the queue is empty.
use crate::btree_key_values::bucket_of;
use crate::btree_key_values::front;
use crate::btree_key_values::lemma_popped_total_len;
use crate::btree_key_values::popped;
use crate::btree_key_values::pushed_back;
use crate::btree_key_values::total_len;
use crate::btree_key_values::Bucket;
use crate::constants::Direction4;
use crate::constants::DirectionSet;
use crate::constants::VoxelType;
use crate::room::RoomId;
use crate::voxel_map::class_at;
use crate::voxel_map::in_box;
use crate::voxel_map::Cells;
use crate::voxel_map::Pos;
use vstd::prelude::*;

verus! {

/// How many (mode, cost) pairs a cell keeps at most.
pub const ROUTES_PER_CELL: usize = 10;

/// How a route arrives at its point, which decides what it does there and
/// where it may go next.
#[derive(Debug, Copy, Clone, PartialEq, Eq, Structural)]
pub enum RouteMode {
    /// A level step: builds a piece of corridor and may go on in any of the
    /// given directions.
    ParallelShift { movable_dirs: DirectionSet },
    /// Builds a stair that rises in the given direction.
    Stair(Direction4),
}

impl RouteMode {
    /// Whether this mode leaves every way open that `other` leaves open: two
    /// level steps of which this one may turn wherever the other may, or the
    /// same stair.
    pub open spec fn spec_contains(&self, other: &RouteMode) -> bool {
        match (*self, *other) {
            (
                RouteMode::ParallelShift { movable_dirs: mine },
                RouteMode::ParallelShift { movable_dirs: theirs },
            ) => mine.spec_is_superset(&theirs),
            (RouteMode::Stair(mine), RouteMode::Stair(theirs)) => mine == theirs,
            _ => false,
        }
    }

    /// Whether this mode leaves every way open that `other` leaves open.
    pub fn contains(&self, other: &RouteMode) -> (r: bool)
        ensures
            r == self.spec_contains(other),
    {
        match (self, other) {
            (
                RouteMode::ParallelShift { movable_dirs: mine },
                RouteMode::ParallelShift { movable_dirs: theirs },
            ) => mine.is_superset(theirs),
            (RouteMode::Stair(mine), RouteMode::Stair(theirs)) => *mine == *theirs,
            _ => false,
        }
    }
}

/// A mode accepted at a cell, with the cost at which it was accepted.
pub type Entry = (RouteMode, u64);

/// Some entry of `list` leaves at least the ways of `mode` open and costs no
/// more than `cost`.
pub open spec fn dominated(list: Seq<Entry>, mode: RouteMode, cost: u64) -> bool {
    exists|i: int|
        0 <= i < list.len() && (#[trigger] list[i]).0.spec_contains(&mode) && list[i].1 <= cost
}

/// The mode leaves at least the ways of the entry open and is cheaper.
pub open spec fn improves_on(mode: RouteMode, cost: u64, entry: Entry) -> bool {
    mode.spec_contains(&entry.0) && cost < entry.1
}

/// The first position of `list` that (mode, cost) improves on, or the length
/// of `list`.
pub open spec fn first_improved(list: Seq<Entry>, mode: RouteMode, cost: u64) -> int
    decreases list.len(),
{
    if list.len() == 0 {
        0
    } else if improves_on(mode, cost, list[0]) {
        0
    } else {
        1 + first_improved(list.drop_first(), mode, cost)
    }
}

/// The list of a cell after a route with (mode, cost) arrived there, or
/// `None` if the route is to be dropped.
///
/// A route is dropped when the list is full or when some entry dominates it.
/// Otherwise it takes the place of the first entry it improves on, or joins
/// the end of the list.
pub open spec fn admitted(list: Seq<Entry>, mode: RouteMode, cost: u64) -> Option<Seq<Entry>> {
    if list.len() >= ROUTES_PER_CELL || dominated(list, mode, cost) {
        None
    } else {
        let i = first_improved(list, mode, cost);
        if i < list.len() {
            Some(list.update(i, (mode, cost)))
        } else {
            Some(list.push((mode, cost)))
        }
    }
}

/// What one search works on and does not change.
pub struct Ground {
    /// The committed classification.
    pub cells: Cells,
    /// The bounds of the map: routes that leave them are dropped.
    pub lower: Pos,
    pub upper: Pos,
    /// The height of the corridor.
    pub height: i32,
    /// The room to reach.
    pub goal: RoomId,
    /// What scores are measured against, doubled so that it is a grid
    /// point: twice the centre of the goal room in x and z, and twice the
    /// height of its walkable layer in y.
    pub target: Pos,
}

/// Twice the distance between a coordinate and a target that is given
/// doubled.
pub open spec fn gap(target: i64, a: i64) -> int {
    if target >= 2 * a {
        target - 2 * a
    } else {
        2 * a - target
    }
}

/// Twice the distance between a cell and a target that is given doubled,
/// summed over the axes.
pub open spec fn distance(target: Pos, p: Pos) -> int {
    gap(target.0, p.0) + gap(target.1, p.1) + gap(target.2, p.2)
}

/// The score of a route at `p` with the cost `cost`: ten times the distance
/// to the target plus the cost, or the greatest score if that is too large.
/// The target is given doubled, so the doubled distance is taken five times.
pub open spec fn score(target: Pos, p: Pos, cost: int) -> u64 {
    let s = distance(target, p) * 5 + cost;
    if s >= u64::MAX {
        u64::MAX
    } else {
        s as u64
    }
}

/// A cost with one step added: one more, or the greatest cost if that is
/// reached.
pub open spec fn stepped(cost: u64) -> u64 {
    if cost == u64::MAX {
        cost
    } else {
        (cost + 1) as u64
    }
}

/// `c` is in the column of `p`, at a height from `from` up to, not including,
/// `to` above `p`.
pub open spec fn in_column(p: Pos, from: int, to: int, c: Pos) -> bool {
    c.0 == p.0 && c.2 == p.2 && p.1 + from <= c.1 < p.1 + to
}

/// What a route sees at `c`: the committed class if there is one, else what
/// the route itself has proposed.
pub open spec fn seen(ground: Cells, own: Cells, c: Pos) -> Option<VoxelType> {
    if ground.contains_key(c) {
        Some(ground[c])
    } else if own.contains_key(c) {
        Some(own[c])
    } else {
        None
    }
}

/// The cell is empty or already has the class that is to be written.
pub open spec fn free_or(ground: Cells, own: Cells, c: Pos, class: VoxelType) -> bool {
    seen(ground, own, c) is None || seen(ground, own, c) == Some(class)
}

/// A piece of corridor fits at `p`: the cell beneath can be floor and the
/// `h` cells from `p` upwards can be air.
pub open spec fn corridor_fits(ground: Cells, own: Cells, p: Pos, h: int) -> bool {
    &&& forall|c: Pos| #[trigger]
        in_column(p, -1, 0, c) ==> free_or(ground, own, c, VoxelType::PassageFloor)
    &&& forall|c: Pos| #[trigger]
        in_column(p, 0, h, c) ==> free_or(ground, own, c, VoxelType::PassageSpace)
}

/// The proposal with a piece of corridor at `p`.
pub open spec fn with_corridor(own: Cells, p: Pos, h: int) -> Cells {
    Map::new(
        |c: Pos| own.contains_key(c) || in_column(p, -1, 0, c) || in_column(p, 0, h, c),
        |c: Pos|
            if in_column(p, -1, 0, c) {
                VoxelType::PassageFloor
            } else if in_column(p, 0, h, c) {
                VoxelType::PassageSpace
            } else {
                own[c]
            },
    )
}

/// A stair fits at `p`: the cell is empty and the `h` cells above it can be
/// air.
pub open spec fn stair_fits(ground: Cells, own: Cells, p: Pos, h: int) -> bool {
    &&& seen(ground, own, p) is None
    &&& forall|c: Pos| #[trigger]
        in_column(p, 1, h + 1, c) ==> free_or(ground, own, c, VoxelType::PassageSpace)
}

/// The proposal with a stair at `p` that rises in the direction `d`.
pub open spec fn with_stair(own: Cells, p: Pos, d: Direction4, h: int) -> Cells {
    Map::new(
        |c: Pos| own.contains_key(c) || c == p || in_column(p, 1, h + 1, c),
        |c: Pos|
            if c == p {
                VoxelType::PassageStair(d)
            } else if in_column(p, 1, h + 1, c) {
                VoxelType::PassageSpace
            } else {
                own[c]
            },
    )
}

/// A pending route.
pub struct RouteSpec {
    pub mode: RouteMode,
    /// The cell that the route occupies next.
    pub point: Pos,
    pub cost: u64,
    /// The cells that the route proposes to write.
    pub cells: Cells,
}

/// The pending routes by ascending score; routes of one score oldest first.
pub type Pending = Seq<Bucket<u64, RouteSpec>>;

/// The accepted (mode, cost) pairs of every cell.
pub type Accepted = Map<Pos, Seq<Entry>>;

/// The state of a search.
pub struct SearchState {
    pub pending: Pending,
    pub accepted: Accepted,
}

/// The cell one step from `p` in the direction `d`, `rise` levels up.
pub open spec fn moved(p: Pos, d: Direction4, rise: int) -> Pos {
    ((p.0 + d.spec_to_vec3().0) as i64, (p.1 + rise) as i64, (p.2 + d.spec_to_vec3().2) as i64)
}

/// The queue after the two routes that continue at `next` in the direction
/// `d` joined it: first the level step, then the stair.
pub open spec fn enqueue_branch(
    pending: Pending,
    next: Pos,
    d: Direction4,
    key: u64,
    cost: u64,
    cells: Cells,
) -> Pending {
    pushed_back(
        pushed_back(
            pending,
            key,
            RouteSpec {
                mode: RouteMode::ParallelShift {
                    movable_dirs: DirectionSet::spec_all_but_opposite(d),
                },
                point: next,
                cost,
                cells,
            },
        ),
        key,
        RouteSpec { mode: RouteMode::Stair(d), point: next, cost, cells },
    )
}

/// The queue after the two routes joined it that leave `start` in the
/// direction `d`, with no cost and nothing proposed.
pub open spec fn enqueue_seed(pending: Pending, target: Pos, start: Pos, d: Direction4) -> Pending {
    let next = moved(start, d, 0);
    enqueue_branch(pending, next, d, score(target, next, 0), 0, Map::empty())
}

/// The queue after the seeds of every direction of `dirs` joined it, in the
/// order left, right, far, near.
pub open spec fn enqueue_seeds(
    pending: Pending,
    target: Pos,
    start: Pos,
    dirs: DirectionSet,
) -> Pending {
    let a = if dirs.left {
        enqueue_seed(pending, target, start, Direction4::Left)
    } else {
        pending
    };
    let b = if dirs.right {
        enqueue_seed(a, target, start, Direction4::Right)
    } else {
        a
    };
    let c = if dirs.far {
        enqueue_seed(b, target, start, Direction4::Far)
    } else {
        b
    };
    if dirs.near {
        enqueue_seed(c, target, start, Direction4::Near)
    } else {
        c
    }
}

/// The queue after the two routes joined it that continue from `from` in
/// the direction `d`, `rise` levels up. They are queued under the score of
/// one step more than the cost so far, and that score is their cost: the
/// cost of a route takes in the distance that was still ahead at each of
/// its steps.
pub open spec fn enqueue_step(
    pending: Pending,
    target: Pos,
    from: Pos,
    d: Direction4,
    rise: int,
    cost: u64,
    cells: Cells,
) -> Pending {
    let next = moved(from, d, rise);
    let s = score(target, next, stepped(cost) as int);
    enqueue_branch(pending, next, d, s, s, cells)
}

/// The queue after a level step at `from` enqueued its successors in every
/// direction of `dirs`, in the order left, right, far, near.
pub open spec fn enqueue_level_steps(
    pending: Pending,
    target: Pos,
    from: Pos,
    dirs: DirectionSet,
    cost: u64,
    cells: Cells,
) -> Pending {
    let a = if dirs.left {
        enqueue_step(pending, target, from, Direction4::Left, 0, cost, cells)
    } else {
        pending
    };
    let b = if dirs.right {
        enqueue_step(a, target, from, Direction4::Right, 0, cost, cells)
    } else {
        a
    };
    let c = if dirs.far {
        enqueue_step(b, target, from, Direction4::Far, 0, cost, cells)
    } else {
        b
    };
    if dirs.near {
        enqueue_step(c, target, from, Direction4::Near, 0, cost, cells)
    } else {
        c
    }
}

/// The queue `rest` after the admitted route `r` tried to write its cells
/// and, where they fit, enqueued its successors with the new proposal.
///
/// A level step builds a piece of corridor and goes on in each of its
/// directions on the same level. A stair builds the stair and goes on one
/// step in its direction, one level up.
pub open spec fn expanded(g: Ground, rest: Pending, r: RouteSpec) -> Pending {
    match r.mode {
        RouteMode::ParallelShift { movable_dirs } => {
            if corridor_fits(g.cells, r.cells, r.point, g.height as int) {
                enqueue_level_steps(
                    rest,
                    g.target,
                    r.point,
                    movable_dirs,
                    r.cost,
                    with_corridor(r.cells, r.point, g.height as int),
                )
            } else {
                rest
            }
        },
        RouteMode::Stair(d) => {
            if stair_fits(g.cells, r.cells, r.point, g.height as int) {
                enqueue_step(
                    rest,
                    g.target,
                    r.point,
                    d,
                    1,
                    r.cost,
                    with_stair(r.cells, r.point, d, g.height as int),
                )
            } else {
                rest
            }
        },
    }
}

/// The outcome of examining one route.
pub enum Step {
    /// The route stands on the walkable layer of the goal room; these are the
    /// cells it proposes.
    Found(Cells),
    /// No route is pending.
    Exhausted,
    /// The search goes on from this state.
    Next(SearchState),
}

/// Examines the front route of the queue.
///
/// A route outside the bounds is dropped. A route on the walkable layer of
/// the goal room ends the search. Any other route is held against the list
/// of its cell; if it is admitted it writes its cells, and if they fit it
/// enqueues its successors.
pub open spec fn step(g: Ground, s: SearchState) -> Step {
    match front(s.pending) {
        None => Step::Exhausted,
        Some(r) => {
            let rest = popped(s.pending);
            if !in_box(g.lower, g.upper, r.point) {
                Step::Next(SearchState { pending: rest, accepted: s.accepted })
            } else if class_at(g.cells, r.point) == VoxelType::RoomBottomSpace(g.goal) {
                Step::Found(r.cells)
            } else {
                match admitted(bucket_of(s.accepted, r.point), r.mode, r.cost) {
                    None => Step::Next(SearchState { pending: rest, accepted: s.accepted }),
                    Some(list) => Step::Next(
                        SearchState {
                            pending: expanded(g, rest, r),
                            accepted: s.accepted.insert(r.point, list),
                        },
                    ),
                }
            }
        },
    }
}

/// How many more entries the list may take.
pub open spec fn slot_room(list: Seq<Entry>) -> nat {
    if list.len() >= ROUTES_PER_CELL {
        0
    } else {
        (ROUTES_PER_CELL - list.len()) as nat
    }
}

/// The costs of the entries, summed.
pub open spec fn slot_cost(list: Seq<Entry>) -> nat
    decreases list.len(),
{
    if list.len() == 0 {
        0
    } else {
        slot_cost(list.drop_last()) + list.last().1 as nat
    }
}

/// `f` summed over the cells (x, y, z) with z from `z0` up to `z1`.
pub open spec fn row_sum(f: spec_fn(Pos) -> nat, x: int, y: int, z0: int, z1: int) -> nat
    decreases z1 - z0,
{
    if z1 <= z0 {
        0
    } else {
        row_sum(f, x, y, z0, z1 - 1) + f((x as i64, y as i64, (z1 - 1) as i64))
    }
}

/// `f` summed over the cells (x, y, z) with y from `y0` up to `y1` and z from
/// `z0` up to `z1`.
pub open spec fn layer_sum(
    f: spec_fn(Pos) -> nat,
    x: int,
    y0: int,
    y1: int,
    z0: int,
    z1: int,
) -> nat
    decreases y1 - y0,
{
    if y1 <= y0 {
        0
    } else {
        layer_sum(f, x, y0, y1 - 1, z0, z1) + row_sum(f, x, y1 - 1, z0, z1)
    }
}

/// `f` summed over the cells of the box from `lower` to `upper`, of which
/// the x coordinates from `lower.0` up to `x1` are taken.
pub open spec fn box_sum(f: spec_fn(Pos) -> nat, lower: Pos, upper: Pos, x1: int) -> nat
    decreases x1 - lower.0,
{
    if x1 <= lower.0 {
        0
    } else {
        box_sum(f, lower, upper, x1 - 1) + layer_sum(
            f,
            x1 - 1,
            lower.1 as int,
            upper.1 as int,
            lower.2 as int,
            upper.2 as int,
        )
    }
}

/// How many more entries the list of each cell may take.
pub open spec fn room_at(accepted: Accepted) -> spec_fn(Pos) -> nat {
    |p: Pos| slot_room(bucket_of(accepted, p))
}

/// The summed costs of the entries of each cell.
pub open spec fn cost_at(accepted: Accepted) -> spec_fn(Pos) -> nat {
    |p: Pos| slot_cost(bucket_of(accepted, p))
}

/// How many more entries the cells inside the bounds may take, all together.
pub open spec fn free_slots(g: Ground, accepted: Accepted) -> nat {
    box_sum(room_at(accepted), g.lower, g.upper, g.upper.0 as int)
}

/// The summed costs of all entries of the cells inside the bounds.
pub open spec fn stored_cost(g: Ground, accepted: Accepted) -> nat {
    box_sum(cost_at(accepted), g.lower, g.upper, g.upper.0 as int)
}

/// Two functions that differ at one cell only have row sums that differ by
/// the difference at that cell, if the row holds it.
pub proof fn lemma_row_sum_change(
    f: spec_fn(Pos) -> nat,
    h: spec_fn(Pos) -> nat,
    p: Pos,
    x: int,
    y: int,
    z0: int,
    z1: int,
)
    requires
        forall|q: Pos| q != p ==> #[trigger] f(q) == h(q),
        i64::MIN <= x <= i64::MAX,
        i64::MIN <= y <= i64::MAX,
        i64::MIN <= z0,
        z1 <= i64::MAX + 1,
    ensures
        (p.0 == x && p.1 == y && z0 <= p.2 < z1) ==> row_sum(h, x, y, z0, z1) + f(p) == row_sum(
            f,
            x,
            y,
            z0,
            z1,
        ) + h(p),
        !(p.0 == x && p.1 == y && z0 <= p.2 < z1) ==> row_sum(h, x, y, z0, z1) == row_sum(
            f,
            x,
            y,
            z0,
            z1,
        ),
    decreases z1 - z0,
{
    if z1 > z0 {
        lemma_row_sum_change(f, h, p, x, y, z0, z1 - 1);
    }
}

/// Two functions that differ at one cell only have layer sums that differ
/// by the difference at that cell, if the layer holds it.
pub proof fn lemma_layer_sum_change(
    f: spec_fn(Pos) -> nat,
    h: spec_fn(Pos) -> nat,
    p: Pos,
    x: int,
    y0: int,
    y1: int,
    z0: int,
    z1: int,
)
    requires
        forall|q: Pos| q != p ==> #[trigger] f(q) == h(q),
        i64::MIN <= x <= i64::MAX,
        i64::MIN <= y0,
        y1 <= i64::MAX + 1,
        i64::MIN <= z0,
        z1 <= i64::MAX + 1,
    ensures
        (p.0 == x && y0 <= p.1 < y1 && z0 <= p.2 < z1) ==> layer_sum(h, x, y0, y1, z0, z1) + f(p)
            == layer_sum(f, x, y0, y1, z0, z1) + h(p),
        !(p.0 == x && y0 <= p.1 < y1 && z0 <= p.2 < z1) ==> layer_sum(h, x, y0, y1, z0, z1)
            == layer_sum(f, x, y0, y1, z0, z1),
    decreases y1 - y0,
{
    if y1 > y0 {
        lemma_layer_sum_change(f, h, p, x, y0, y1 - 1, z0, z1);
        lemma_row_sum_change(f, h, p, x, y1 - 1, z0, z1);
    }
}

/// Two functions that differ at one cell only have box sums that differ by
/// the difference at that cell, if the box holds it.
pub proof fn lemma_box_sum_change(
    f: spec_fn(Pos) -> nat,
    h: spec_fn(Pos) -> nat,
    p: Pos,
    lower: Pos,
    upper: Pos,
    x1: int,
)
    requires
        forall|q: Pos| q != p ==> #[trigger] f(q) == h(q),
        x1 <= i64::MAX + 1,
    ensures
        (lower.0 <= p.0 < x1 && lower.1 <= p.1 < upper.1 && lower.2 <= p.2 < upper.2) ==> box_sum(
            h,
            lower,
            upper,
            x1,
        ) + f(p) == box_sum(f, lower, upper, x1) + h(p),
        !(lower.0 <= p.0 < x1 && lower.1 <= p.1 < upper.1 && lower.2 <= p.2 < upper.2) ==> box_sum(
            h,
            lower,
            upper,
            x1,
        ) == box_sum(f, lower, upper, x1),
    decreases x1 - lower.0,
{
    if x1 > lower.0 {
        lemma_box_sum_change(f, h, p, lower, upper, x1 - 1);
        lemma_layer_sum_change(
            f,
            h,
            p,
            x1 - 1,
            lower.1 as int,
            upper.1 as int,
            lower.2 as int,
            upper.2 as int,
        );
    }
}

/// Replacing an entry changes the summed cost by the difference of the costs.
pub proof fn lemma_slot_cost_update(list: Seq<Entry>, i: int, e: Entry)
    requires
        0 <= i < list.len(),
    ensures
        slot_cost(list.update(i, e)) + list[i].1 == slot_cost(list) + e.1,
    decreases list.len(),
{
    let t = list.update(i, e);
    if i == list.len() - 1 {
        assert(t.drop_last() =~= list.drop_last());
    } else {
        assert(t.drop_last() =~= list.drop_last().update(i, e));
        lemma_slot_cost_update(list.drop_last(), i, e);
    }
}

/// Where `first_improved` points, and what holds before that place.
pub proof fn lemma_first_improved(list: Seq<Entry>, mode: RouteMode, cost: u64)
    ensures
        0 <= first_improved(list, mode, cost) <= list.len(),
        first_improved(list, mode, cost) < list.len() ==> improves_on(
            mode,
            cost,
            list[first_improved(list, mode, cost)],
        ),
        forall|j: int|
            0 <= j < first_improved(list, mode, cost) ==> !improves_on(
                mode,
                cost,
                #[trigger] list[j],
            ),
    decreases list.len(),
{
    if list.len() > 0 && !improves_on(mode, cost, list[0]) {
        let rest = list.drop_first();
        lemma_first_improved(rest, mode, cost);
        let i = first_improved(rest, mode, cost);
        if i < rest.len() {
            assert(rest[i] == list[i + 1]);
        }
        assert forall|j: int| 0 <= j < i + 1 implies !improves_on(mode, cost, #[trigger] list[j]) by {
            if j > 0 {
                assert(rest[j - 1] == list[j]);
            }
        }
    }
}

/// An admitted route fills a free place of its cell or lowers the summed
/// cost of the cell's entries.
pub proof fn lemma_admitted(list: Seq<Entry>, mode: RouteMode, cost: u64)
    requires
        admitted(list, mode, cost) is Some,
    ensures
        ({
            let after = admitted(list, mode, cost)->0;
            ||| slot_room(after) < slot_room(list)
            ||| slot_room(after) == slot_room(list) && slot_cost(after) < slot_cost(list)
        }),
{
    lemma_first_improved(list, mode, cost);
    let i = first_improved(list, mode, cost);
    if i < list.len() {
        lemma_slot_cost_update(list, i, (mode, cost));
    }
}

/// An admitted route met a list that was not full and in which no entry
/// dominated it; afterwards the list holds the route and is no longer than
/// the cap.
pub proof fn lemma_admitted_within_cap(list: Seq<Entry>, mode: RouteMode, cost: u64)
    requires
        admitted(list, mode, cost) is Some,
    ensures
        list.len() < ROUTES_PER_CELL,
        !dominated(list, mode, cost),
        admitted(list, mode, cost)->0.len() <= ROUTES_PER_CELL,
        admitted(list, mode, cost)->0.contains((mode, cost)),
        admitted(list, mode, cost)->0.len() == list.len() || admitted(list, mode, cost)->0
            == list.push((mode, cost)),
{
    lemma_first_improved(list, mode, cost);
    let i = first_improved(list, mode, cost);
    let after = admitted(list, mode, cost)->0;
    if i < list.len() {
        assert(after[i] == (mode, cost));
    } else {
        assert(after[list.len() as int] == (mode, cost));
    }
}

/// No list of accepted routes is longer than the cap.
pub open spec fn within_cap(accepted: Accepted) -> bool {
    forall|p: Pos| #[trigger] accepted.contains_key(p) ==> accepted[p].len() <= ROUTES_PER_CELL
}

/// A step keeps every list of accepted routes within the cap.
pub proof fn lemma_step_keeps_cap(g: Ground, s: SearchState)
    requires
        within_cap(s.accepted),
    ensures
        step(g, s) matches Step::Next(n) ==> within_cap(n.accepted),
{
    if let Step::Next(n) = step(g, s) {
        let r = front(s.pending)->0;
        if in_box(g.lower, g.upper, r.point) {
            let list = bucket_of(s.accepted, r.point);
            if admitted(list, r.mode, r.cost) is Some {
                lemma_admitted_within_cap(list, r.mode, r.cost);
            }
        }
    }
}

/// Every step that does not end the search brings it closer to its end: it
/// fills a free place in some list, or lowers the summed cost of the
/// entries, or shortens the queue.
pub proof fn lemma_step_decreases(g: Ground, s: SearchState)
    ensures
        step(g, s) matches Step::Next(n) ==> {
            ||| free_slots(g, n.accepted) < free_slots(g, s.accepted)
            ||| free_slots(g, n.accepted) == free_slots(g, s.accepted) && stored_cost(
                g,
                n.accepted,
            ) < stored_cost(g, s.accepted)
            ||| free_slots(g, n.accepted) == free_slots(g, s.accepted) && stored_cost(
                g,
                n.accepted,
            ) == stored_cost(g, s.accepted) && total_len(n.pending) < total_len(s.pending)
        },
{
    if let Step::Next(n) = step(g, s) {
        let r = front(s.pending)->0;
        lemma_popped_total_len(s.pending);
        if in_box(g.lower, g.upper, r.point) {
            let list = bucket_of(s.accepted, r.point);
            if let Some(after) = admitted(list, r.mode, r.cost) {
                lemma_admitted(list, r.mode, r.cost);
                let accepted = s.accepted.insert(r.point, after);
                assert(n.accepted == accepted);
                let f1 = room_at(s.accepted);
                let h1 = room_at(accepted);
                let f2 = cost_at(s.accepted);
                let h2 = cost_at(accepted);
                assert forall|q: Pos| q != r.point implies #[trigger] f1(q) == h1(q) by {}
                assert forall|q: Pos| q != r.point implies #[trigger] f2(q) == h2(q) by {}
                lemma_box_sum_change(
                    room_at(s.accepted),
                    room_at(accepted),
                    r.point,
                    g.lower,
                    g.upper,
                    g.upper.0 as int,
                );
                lemma_box_sum_change(
                    cost_at(s.accepted),
                    cost_at(accepted),
                    r.point,
                    g.lower,
                    g.upper,
                    g.upper.0 as int,
                );
            }
        }
    }
}

/// The outcome of the search from the state `s`: the cells proposed by the
/// first route that is found standing on the goal, or `None` if the queue
/// runs empty first.
pub open spec fn search(g: Ground, s: SearchState) -> Option<Cells>
    decreases free_slots(g, s.accepted), stored_cost(g, s.accepted), total_len(s.pending),
{
    match step(g, s) {
        Step::Found(cells) => Some(cells),
        Step::Exhausted => None,
        Step::Next(n) => {
            proof {
                lemma_step_decreases(g, s);
            }
            search(g, n)
        },
    }
}

} // verus!
