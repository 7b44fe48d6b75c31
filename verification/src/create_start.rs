//! Where a passage between two rooms starts: on the boundary of the lower
//! room, heading away from it.
use crate::constants::DirectionSet;
use crate::room::Room;
use crate::room::RoomId;
use vstd::prelude::*;

verus! {

/// The far corner of the room can be written with 32-bit coordinates.
pub open spec fn addressable(room: Room) -> bool {
    &&& room.origin.0 + room.width <= i32::MAX
    &&& room.origin.1 + room.height <= i32::MAX
    &&& room.origin.2 + room.depth <= i32::MAX
}

/// Of two rooms the one that lies lower, the first if they lie equally low.
pub open spec fn lower_room(room0: Room, room1: Room) -> Room {
    if room0.origin.1 <= room1.origin.1 {
        room0
    } else {
        room1
    }
}

/// Of two rooms the one that `lower_room` does not choose.
pub open spec fn upper_room(room0: Room, room1: Room) -> Room {
    if room0.origin.1 <= room1.origin.1 {
        room1
    } else {
        room0
    }
}

/// The start of a passage between two rooms: the room it leaves, the room
/// it is to reach, the start voxel and the directions in which it may leave.
///
/// The passage leaves the lower room. `hit` is the point, in x and z, where
/// the line between the centres crosses the boundary of that room; without
/// one the corner at the room's origin is taken. A point on the low edge in
/// x or z leaves to the left or to the far side; a point on the high edge
/// is moved one cell inwards and leaves to the right or to the near side.
pub open spec fn start_of(room0: Room, room1: Room, hit: Option<(i32, i32)>) -> (
    RoomId,
    RoomId,
    (i32, i32, i32),
    DirectionSet,
) {
    let from = lower_room(room0, room1);
    let to = upper_room(room0, room1);
    let p = match hit {
        Some(p) => p,
        None => (from.origin.0 as i32, from.origin.2 as i32),
    };
    let left = p.0 == from.origin.0;
    let right = !left && p.0 == from.origin.0 + from.width;
    let far = p.1 == from.origin.2;
    let near = !far && p.1 == from.origin.2 + from.depth;
    (
        from.id,
        to.id,
        (
            if right {
                (p.0 - 1) as i32
            } else {
                p.0
            },
            from.origin.1 as i32,
            if near {
                (p.1 - 1) as i32
            } else {
                p.1
            },
        ),
        DirectionSet { left, right, far, near },
    )
}

/// The start of a passage between two rooms, given the point where the line
/// between their centres crosses the boundary of the lower room.
pub fn create_start(room0: &Room, room1: &Room, hit: Option<(i32, i32)>) -> (r: (
    RoomId,
    RoomId,
    (i32, i32, i32),
    DirectionSet,
))
    requires
        addressable(*room0),
        addressable(*room1),
    ensures
        r == start_of(*room0, *room1, hit),
{
    let (room_start, room_end) = if room0.origin.1 <= room1.origin.1 {
        (room0, room1)
    } else {
        (room1, room0)
    };
    let mut p: (i32, i32, i32) = match hit {
        Some(point) => (point.0, room_start.origin.1 as i32, point.1),
        None => (
            room_start.origin.0 as i32,
            room_start.origin.1 as i32,
            room_start.origin.2 as i32,
        ),
    };
    let mut dirs = DirectionSet { left: false, right: false, far: false, near: false };
    if p.0 as i64 == room_start.origin.0 as i64 {
        dirs.left = true;
    } else if p.0 as i64 == room_start.origin.0 as i64 + room_start.width as i64 {
        p.0 = p.0 - 1;
        dirs.right = true;
    }
    if p.2 as i64 == room_start.origin.2 as i64 {
        dirs.far = true;
    } else if p.2 as i64 == room_start.origin.2 as i64 + room_start.depth as i64 {
        p.2 = p.2 - 1;
        dirs.near = true;
    }
    (room_start.id, room_end.id, p, dirs)
}

/// The start of a passage as the first generator takes it: the room it
/// leaves, the room it is to reach and the start voxel, without directions.
///
/// A point on the high edge in x is moved one cell inwards; otherwise a
/// point on the high edge in z is. Without a point the voxel beside the
/// room's origin, one step to the left, is taken.
pub open spec fn start_beside(room0: Room, room1: Room, hit: Option<(i32, i32)>) -> (
    RoomId,
    RoomId,
    (i32, i32, i32),
) {
    let from = lower_room(room0, room1);
    let to = upper_room(room0, room1);
    match hit {
        Some(p) => (
            from.id,
            to.id,
            if p.0 == from.origin.0 + from.width {
                ((p.0 - 1) as i32, from.origin.1 as i32, p.1)
            } else if p.1 == from.origin.2 + from.depth {
                (p.0, from.origin.1 as i32, (p.1 - 1) as i32)
            } else {
                (p.0, from.origin.1 as i32, p.1)
            },
        ),
        None => (
            from.id,
            to.id,
            ((from.origin.0 - 1) as i32, from.origin.1 as i32, from.origin.2 as i32),
        ),
    }
}

/// The start of a passage as the first generator takes it, given the point
/// where the line between the centres crosses the boundary of the lower
/// room.
pub fn create_start_beside(room0: &Room, room1: &Room, hit: Option<(i32, i32)>) -> (r: (
    RoomId,
    RoomId,
    (i32, i32, i32),
))
    requires
        addressable(*room0),
        addressable(*room1),
    ensures
        r == start_beside(*room0, *room1, hit),
{
    let (room_start, room_end) = if room0.origin.1 <= room1.origin.1 {
        (room0, room1)
    } else {
        (room1, room0)
    };
    let y = room_start.origin.1 as i32;
    match hit {
        Some(point) => {
            let p = if point.0 as i64 == room_start.origin.0 as i64 + room_start.width as i64 {
                (point.0 - 1, y, point.1)
            } else if point.1 as i64 == room_start.origin.2 as i64 + room_start.depth as i64 {
                (point.0, y, point.1 - 1)
            } else {
                (point.0, y, point.1)
            };
            (room_start.id, room_end.id, p)
        },
        None => (
            room_start.id,
            room_end.id,
            (room_start.origin.0 as i32 - 1, y, room_start.origin.2 as i32),
        ),
    }
}

} // verus!
