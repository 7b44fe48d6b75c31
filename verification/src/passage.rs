//! What is asked of the router: from where, in which directions and towards
//! which room a passage is to be carved.
use crate::constants::DirectionSet;
use crate::constants::VoxelType;
use crate::room::RoomId;
use vstd::prelude::*;

verus! {

/// A passage between two rooms.
#[derive(Debug)]
pub struct Passage {
    /// Cells of the passage, for callers that record them. The router
    /// neither reads nor fills them.
    pub cells: Vec<((i32, i32, i32), VoxelType)>,
    /// The voxel on the boundary of the start room from which the passage
    /// leaves. It is not written itself.
    pub start: (i32, i32, i32),
    /// The directions in which the passage may leave `start`.
    pub start_dirs: DirectionSet,
    /// The room the passage leaves.
    pub start_room_id: RoomId,
    /// The room the passage is to reach.
    pub end_room_id: RoomId,
    /// The height of the corridor, in cells of air above the floor.
    pub height: i32,
}

/// A passage as a plain value.
pub struct PassageSpec {
    pub cells: Seq<((i32, i32, i32), VoxelType)>,
    pub start: (i32, i32, i32),
    pub start_dirs: DirectionSet,
    pub start_room_id: RoomId,
    pub end_room_id: RoomId,
    pub height: i32,
}

impl View for Passage {
    type V = PassageSpec;

    /// The passage with its cells as a sequence.
    open spec fn view(&self) -> PassageSpec {
        PassageSpec {
            cells: self.cells@,
            start: self.start,
            start_dirs: self.start_dirs,
            start_room_id: self.start_room_id,
            end_room_id: self.end_room_id,
            height: self.height,
        }
    }
}

/// The passages as plain values.
pub open spec fn views_of(passages: Seq<Passage>) -> Seq<PassageSpec> {
    passages.map_values(|p: Passage| p@)
}

} // verus!
