//! Rooms: axis-aligned boxes on the voxel grid, and their identifiers.
use vstd::prelude::*;

verus! {

/// Identifier of a room, handed out by a counter that only grows.
#[derive(Ord, PartialOrd, PartialEq, Eq, Structural, Hash, Copy, Clone, Debug)]
pub struct RoomId(u64);

impl RoomId {
    /// The number behind the identifier.
    pub closed spec fn spec_inner(&self) -> u64 {
        self.0
    }

    /// The identifier that a fresh counter starts from.
    pub fn first() -> (id: Self)
        ensures
            id.spec_inner() == 1,
    {
        RoomId(1)
    }

    /// Returns the current identifier and advances the counter by one.
    pub fn gen_id(&mut self) -> (id: Self)
        requires
            old(self).spec_inner() < u64::MAX,
        ensures
            id == *old(self),
            final(self).spec_inner() == old(self).spec_inner() + 1,
    {
        let ret = *self;
        self.0 += 1;
        ret
    }

    /// The number behind the identifier.
    #[verifier::when_used_as_spec(spec_inner)]
    pub fn inner(&self) -> (n: u64)
        ensures
            n == self.spec_inner(),
    {
        self.0
    }

    /// Two identifiers with the same number are the same identifier.
    pub proof fn lemma_inner_injective(a: RoomId, b: RoomId)
        requires
            a.spec_inner() == b.spec_inner(),
        ensures
            a == b,
    {
    }
}

/// A room: an identifier, a size and the corner with the smallest coordinates.
#[derive(Copy, Clone, Debug)]
pub struct Room {
    pub id: RoomId,
    pub width: u32,
    pub height: u32,
    pub depth: u32,
    pub origin: (u32, u32, u32),
}

impl Room {
    /// A room of the given size at the given origin.
    pub fn new(id: RoomId, width: u32, height: u32, depth: u32, origin: (u32, u32, u32)) -> (room:
        Self)
        ensures
            room == (Room { id, width, height, depth, origin }),
    {
        Room { id, width, height, depth, origin }
    }

    /// The corner opposite to the origin: origin plus size, on each axis.
    pub open spec fn spec_end(&self) -> (int, int, int) {
        (self.origin.0 + self.width, self.origin.1 + self.height, self.origin.2 + self.depth)
    }

    /// Twice the centre of the room, which is a grid point on every axis.
    pub open spec fn spec_center_doubled(&self) -> (int, int, int) {
        (
            2 * self.origin.0 + self.width,
            2 * self.origin.1 + self.height,
            2 * self.origin.2 + self.depth,
        )
    }

    /// Whether the two boxes, each grown by `margin` at its far end, touch or
    /// overlap on all three axes.
    pub open spec fn spec_is_contract(&self, other: &Room, margin: u32) -> bool {
        &&& self.origin.0 <= other.spec_end().0 + margin
        &&& other.origin.0 <= self.spec_end().0 + margin
        &&& self.origin.1 <= other.spec_end().1 + margin
        &&& other.origin.1 <= self.spec_end().1 + margin
        &&& self.origin.2 <= other.spec_end().2 + margin
        &&& other.origin.2 <= self.spec_end().2 + margin
    }

    /// The corner opposite to the origin.
    pub fn end(&self) -> (e: (u32, u32, u32))
        requires
            self.spec_end().0 <= u32::MAX,
            self.spec_end().1 <= u32::MAX,
            self.spec_end().2 <= u32::MAX,
        ensures
            (e.0 as int, e.1 as int, e.2 as int) == self.spec_end(),
    {
        (self.origin.0 + self.width, self.origin.1 + self.height, self.origin.2 + self.depth)
    }

    /// Twice the centre of the room.
    pub fn center_doubled(&self) -> (c: (u64, u64, u64))
        ensures
            (c.0 as int, c.1 as int, c.2 as int) == self.spec_center_doubled(),
    {
        (
            2 * (self.origin.0 as u64) + self.width as u64,
            2 * (self.origin.1 as u64) + self.height as u64,
            2 * (self.origin.2 as u64) + self.depth as u64,
        )
    }

    /// Whether the two rooms are closer than `margin` to each other on every
    /// axis, so that they touch or overlap once each is grown by `margin`.
    pub fn is_contract(&self, other: &Room, margin: u32) -> (r: bool)
        ensures
            r == self.spec_is_contract(other, margin),
    {
        let m = margin as u64;
        let se = (
            self.origin.0 as u64 + self.width as u64 + m,
            self.origin.1 as u64 + self.height as u64 + m,
            self.origin.2 as u64 + self.depth as u64 + m,
        );
        let oe = (
            other.origin.0 as u64 + other.width as u64 + m,
            other.origin.1 as u64 + other.height as u64 + m,
            other.origin.2 as u64 + other.depth as u64 + m,
        );
        self.origin.0 as u64 <= oe.0 && other.origin.0 as u64 <= se.0 && self.origin.1 as u64
            <= oe.1 && other.origin.1 as u64 <= se.1 && self.origin.2 as u64 <= oe.2
            && other.origin.2 as u64 <= se.2
    }
}

} // verus!
