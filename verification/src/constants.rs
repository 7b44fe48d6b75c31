//! The four horizontal directions and the classes a voxel can have.
use crate::room::RoomId;
use vstd::prelude::*;

verus! {

/// A horizontal direction on the grid. The y axis is vertical.
#[derive(Debug, Copy, Clone, Eq, PartialEq, Structural, Ord, PartialOrd, Hash)]
pub enum Direction4 {
    /// Towards smaller x.
    Left,
    /// Towards greater x.
    Right,
    /// Towards smaller z.
    Far,
    /// Towards greater z.
    Near,
}

impl Direction4 {
    /// The unit step in this direction.
    pub open spec fn spec_to_vec3(&self) -> (i32, i32, i32) {
        match self {
            Direction4::Left => (-1i32, 0i32, 0i32),
            Direction4::Right => (1i32, 0i32, 0i32),
            Direction4::Far => (0i32, 0i32, -1i32),
            Direction4::Near => (0i32, 0i32, 1i32),
        }
    }

    /// The direction that points the other way.
    pub open spec fn spec_opposite(&self) -> Direction4 {
        match self {
            Direction4::Left => Direction4::Right,
            Direction4::Right => Direction4::Left,
            Direction4::Far => Direction4::Near,
            Direction4::Near => Direction4::Far,
        }
    }

    /// The unit step in this direction, as (x, y, z).
    #[verifier::when_used_as_spec(spec_to_vec3)]
    pub fn to_vec3(&self) -> (v: (i32, i32, i32))
        ensures
            v == self.spec_to_vec3(),
    {
        match self {
            Direction4::Left => (-1, 0, 0),
            Direction4::Right => (1, 0, 0),
            Direction4::Far => (0, 0, -1),
            Direction4::Near => (0, 0, 1),
        }
    }

    /// The direction that points the other way.
    #[verifier::when_used_as_spec(spec_opposite)]
    pub fn opposite(&self) -> (d: Direction4)
        ensures
            d == self.spec_opposite(),
    {
        match self {
            Direction4::Left => Direction4::Right,
            Direction4::Right => Direction4::Left,
            Direction4::Far => Direction4::Near,
            Direction4::Near => Direction4::Far,
        }
    }

    /// Whether `other` points the other way.
    pub fn is_opposite(&self, other: &Self) -> (r: bool)
        ensures
            r == (*other == self.spec_opposite()),
    {
        match self {
            Direction4::Left => *other == Direction4::Right,
            Direction4::Right => *other == Direction4::Left,
            Direction4::Far => *other == Direction4::Near,
            Direction4::Near => *other == Direction4::Far,
        }
    }

    /// Turning round twice gives the direction back, no direction is its own
    /// opposite, and the opposite's step is the step negated.
    pub proof fn lemma_opposite(d: Direction4)
        ensures
            d.spec_opposite().spec_opposite() == d,
            d.spec_opposite() != d,
            d.spec_opposite().spec_to_vec3().0 == -d.spec_to_vec3().0,
            d.spec_opposite().spec_to_vec3().1 == -d.spec_to_vec3().1,
            d.spec_opposite().spec_to_vec3().2 == -d.spec_to_vec3().2,
    {
    }
}

/// The four directions in their fixed order: left, right, far, near.
pub fn directions() -> (r: [Direction4; 4])
    ensures
        r@ == seq![Direction4::Left, Direction4::Right, Direction4::Far, Direction4::Near],
{
    let r = [Direction4::Left, Direction4::Right, Direction4::Far, Direction4::Near];
    assert(r@ =~= seq![Direction4::Left, Direction4::Right, Direction4::Far, Direction4::Near]);
    r
}

/// A set of directions.
#[derive(Debug, Copy, Clone, Eq, PartialEq, Structural, Hash)]
pub struct DirectionSet {
    pub left: bool,
    pub right: bool,
    pub far: bool,
    pub near: bool,
}

impl DirectionSet {
    /// Whether `d` is in the set.
    pub open spec fn has(&self, d: Direction4) -> bool {
        match d {
            Direction4::Left => self.left,
            Direction4::Right => self.right,
            Direction4::Far => self.far,
            Direction4::Near => self.near,
        }
    }

    /// Whether every direction of `other` is in this set.
    pub open spec fn spec_is_superset(&self, other: &DirectionSet) -> bool {
        forall|d: Direction4| other.has(d) ==> self.has(d)
    }

    /// The set without any direction.
    pub fn new() -> (s: Self)
        ensures
            forall|d: Direction4| !s.has(d),
    {
        DirectionSet { left: false, right: false, far: false, near: false }
    }

    /// The set of all four directions.
    pub fn all() -> (s: Self)
        ensures
            forall|d: Direction4| s.has(d),
    {
        DirectionSet { left: true, right: true, far: true, near: true }
    }

    /// All directions but the opposite of `d`: where a step may go after a
    /// step in direction `d`, which may not be taken back.
    pub open spec fn spec_all_but_opposite(d: Direction4) -> DirectionSet {
        DirectionSet {
            left: d != Direction4::Right,
            right: d != Direction4::Left,
            far: d != Direction4::Near,
            near: d != Direction4::Far,
        }
    }

    /// All directions but the opposite of `d`.
    pub fn all_but_opposite(d: Direction4) -> (s: Self)
        ensures
            s == Self::spec_all_but_opposite(d),
            forall|m: Direction4| s.has(m) <==> m != d.spec_opposite(),
    {
        DirectionSet {
            left: !d.is_opposite(&Direction4::Left),
            right: !d.is_opposite(&Direction4::Right),
            far: !d.is_opposite(&Direction4::Far),
            near: !d.is_opposite(&Direction4::Near),
        }
    }

    /// Whether `d` is in the set.
    pub fn contains(&self, d: &Direction4) -> (r: bool)
        ensures
            r == self.has(*d),
    {
        match d {
            Direction4::Left => self.left,
            Direction4::Right => self.right,
            Direction4::Far => self.far,
            Direction4::Near => self.near,
        }
    }

    /// Adds `d` to the set; returns whether it was new.
    pub fn insert(&mut self, d: Direction4) -> (r: bool)
        ensures
            r == !old(self).has(d),
            forall|m: Direction4| final(self).has(m) <==> (m == d || old(self).has(m)),
    {
        let was = self.contains(&d);
        match d {
            Direction4::Left => {
                self.left = true;
            },
            Direction4::Right => {
                self.right = true;
            },
            Direction4::Far => {
                self.far = true;
            },
            Direction4::Near => {
                self.near = true;
            },
        }
        !was
    }

    /// Whether every direction of `other` is in this set.
    pub fn is_superset(&self, other: &DirectionSet) -> (r: bool)
        ensures
            r == self.spec_is_superset(other),
    {
        let r = (!other.left || self.left) && (!other.right || self.right) && (!other.far
            || self.far) && (!other.near || self.near);
        proof {
            if r {
                assert forall|d: Direction4| other.has(d) implies self.has(d) by {}
            } else {
                if other.left && !self.left {
                    assert(other.has(Direction4::Left));
                } else if other.right && !self.right {
                    assert(other.has(Direction4::Right));
                } else if other.far && !self.far {
                    assert(other.has(Direction4::Far));
                } else {
                    assert(other.has(Direction4::Near));
                }
            }
        }
        r
    }

    /// The directions of the set in the fixed order: left, right, far, near.
    pub fn to_vec(&self) -> (r: Vec<Direction4>)
        ensures
            r@ == self.ordered(),
    {
        let mut r: Vec<Direction4> = Vec::new();
        if self.left {
            r.push(Direction4::Left);
        }
        if self.right {
            r.push(Direction4::Right);
        }
        if self.far {
            r.push(Direction4::Far);
        }
        if self.near {
            r.push(Direction4::Near);
        }
        assert(r@ =~= self.ordered());
        r
    }

    /// The directions of the set in the fixed order: left, right, far, near.
    pub open spec fn ordered(&self) -> Seq<Direction4> {
        (if self.left {
            seq![Direction4::Left]
        } else {
            Seq::empty()
        }) + (if self.right {
            seq![Direction4::Right]
        } else {
            Seq::empty()
        }) + (if self.far {
            seq![Direction4::Far]
        } else {
            Seq::empty()
        }) + (if self.near {
            seq![Direction4::Near]
        } else {
            Seq::empty()
        })
    }
}

/// The class of a voxel. A cell that the voxel map does not hold is `Wall`.
#[derive(Debug, Copy, Clone, Eq, PartialEq, Structural)]
pub enum VoxelType {
    /// Air inside a room, above its walkable layer.
    RoomSpace(RoomId),
    /// The layer directly beneath a room.
    RoomFloor(RoomId),
    /// The walkable layer of a room, where passages end.
    RoomBottomSpace(RoomId),
    /// The wall shell of a room.
    RoomWall(RoomId),
    /// Solid wall.
    Wall,
    /// A stair that rises in the given direction.
    PassageStair(Direction4),
    /// Air inside a passage.
    PassageSpace,
    /// The layer directly beneath passage air.
    PassageFloor,
}

} // verus!
