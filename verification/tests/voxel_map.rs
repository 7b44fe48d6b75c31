use dungeon_3d_generator::constants::Direction4;
use dungeon_3d_generator::constants::DirectionSet;
use dungeon_3d_generator::constants::VoxelType;
use dungeon_3d_generator::passage::Passage;
use dungeon_3d_generator::room::Room;
use dungeon_3d_generator::room::RoomId;
use dungeon_3d_generator::route::find_route;
use dungeon_3d_generator::voxel_map::VoxelMap;
use dungeon_3d_generator::voxel_map::VoxelMapError;
use std::collections::BTreeMap;

fn two_rooms() -> (Room, Room, BTreeMap<u64, Room>) {
    let mut counter = RoomId::first();
    let a = Room::new(counter.gen_id(), 3, 2, 3, (1, 0, 1));
    let b = Room::new(counter.gen_id(), 3, 2, 3, (10, 0, 1));
    let mut rooms = BTreeMap::new();
    rooms.insert(a.id.inner(), a);
    rooms.insert(b.id.inner(), b);
    (a, b, rooms)
}

fn only(d: Direction4) -> DirectionSet {
    let mut dirs = DirectionSet::new();
    dirs.insert(d);
    dirs
}

#[test]
fn empty_map_is_all_wall() {
    let map = VoxelMap::new(-4, -4, -4, 24, 12, 16);
    assert_eq!(map.get(&(0, 0, 0)), VoxelType::Wall);
    assert_eq!(map.len(), 0);
    assert!(map.cells().is_empty());
    assert_eq!(map.bounds(), ((-4, -4, -4), (20, 8, 12)));
}

#[test]
fn room_shell_has_floor_bottom_and_space() {
    let (a, _, _) = two_rooms();
    let mut map = VoxelMap::new(0, 0, 0, 16, 8, 16);
    assert_eq!(map.add_room(&a), Ok(()));
    assert_eq!(map.len(), 3 * 3 * 3);
    assert_eq!(map.get(&(1, -1, 1)), VoxelType::RoomFloor(a.id));
    assert_eq!(map.get(&(3, 0, 3)), VoxelType::RoomBottomSpace(a.id));
    assert_eq!(map.get(&(2, 1, 2)), VoxelType::RoomSpace(a.id));
    assert_eq!(map.get(&(2, 2, 2)), VoxelType::Wall);
    assert_eq!(map.get(&(0, 0, 1)), VoxelType::Wall);
    assert_eq!(map.get(&(4, 0, 1)), VoxelType::Wall);
    assert_eq!(map.get(&(1, -2, 1)), VoxelType::Wall);
}

#[test]
fn a_room_that_meets_another_is_refused_whole() {
    let (a, _, _) = two_rooms();
    let mut counter = RoomId::first();
    counter.gen_id();
    counter.gen_id();
    let overlapping = Room::new(counter.gen_id(), 3, 2, 3, (3, 1, 3));
    let mut map = VoxelMap::new(0, 0, 0, 16, 8, 16);
    assert_eq!(map.add_room(&a), Ok(()));
    let before = map.cells();
    assert_eq!(map.add_room(&overlapping), Err(VoxelMapError::Conflict));
    assert_eq!(map.cells(), before);
    assert_eq!(map.get(&(5, 1, 5)), VoxelType::Wall);
    // the floor of a room counts: a room directly on top of another meets it
    let on_top = Room::new(counter.gen_id(), 3, 2, 3, (1, 2, 1));
    assert_eq!(map.add_room(&on_top), Err(VoxelMapError::Conflict));
    let above = Room::new(counter.gen_id(), 3, 2, 3, (1, 3, 1));
    assert_eq!(map.add_room(&above), Ok(()));
}

#[test]
fn add_rooms_stops_at_the_first_conflict() {
    let (a, b, _) = two_rooms();
    let mut map = VoxelMap::new(0, 0, 0, 16, 8, 16);
    assert_eq!(map.add_rooms(&vec![a, b]), Ok(()));
    assert_eq!(map.len(), 2 * 27);
    let mut map = VoxelMap::new(0, 0, 0, 16, 8, 16);
    assert_eq!(map.add_rooms(&vec![a, b, a]), Err(VoxelMapError::Conflict));
}

#[test]
fn straight_corridor_between_two_rooms() {
    let (a, b, rooms) = two_rooms();
    let mut map = VoxelMap::new(-4, -4, -4, 24, 12, 16);
    assert_eq!(map.add_room(&a), Ok(()));
    assert_eq!(map.add_room(&b), Ok(()));
    let passage = Passage {
        cells: Vec::new(),
        start: (3, 0, 2),
        start_dirs: only(Direction4::Right),
        start_room_id: a.id,
        end_room_id: b.id,
        height: 2,
    };
    assert_eq!(map.add_passage(&passage, &rooms), Ok(()));
    for x in 4..10 {
        assert_eq!(map.get(&(x, -1, 2)), VoxelType::PassageFloor);
        assert_eq!(map.get(&(x, 0, 2)), VoxelType::PassageSpace);
        assert_eq!(map.get(&(x, 1, 2)), VoxelType::PassageSpace);
        assert_eq!(map.get(&(x, 2, 2)), VoxelType::Wall);
    }
    assert_eq!(map.len(), 2 * 27 + 6 * 3);
    assert_eq!(map.get(&(10, 0, 2)), VoxelType::RoomBottomSpace(b.id));
    assert_eq!(map.get(&(3, 0, 2)), VoxelType::RoomBottomSpace(a.id));
}

#[test]
fn adjacent_rooms_need_no_cells() {
    let mut counter = RoomId::first();
    let a = Room::new(counter.gen_id(), 3, 2, 3, (0, 0, 0));
    let b = Room::new(counter.gen_id(), 3, 2, 3, (3, 0, 0));
    let mut rooms = BTreeMap::new();
    rooms.insert(a.id.inner(), a);
    rooms.insert(b.id.inner(), b);
    let mut map = VoxelMap::new(0, 0, 0, 8, 4, 4);
    assert_eq!(map.add_rooms(&vec![a, b]), Ok(()));
    let before = map.cells();
    let passage = Passage {
        cells: Vec::new(),
        start: (2, 0, 1),
        start_dirs: only(Direction4::Right),
        start_room_id: a.id,
        end_room_id: b.id,
        height: 2,
    };
    assert_eq!(map.add_passage(&passage, &rooms), Ok(()));
    assert_eq!(map.cells(), before);
}

#[test]
fn a_stair_climbs_to_a_higher_room() {
    let mut counter = RoomId::first();
    let a = Room::new(counter.gen_id(), 3, 2, 3, (0, 0, 0));
    let b = Room::new(counter.gen_id(), 3, 2, 3, (6, 1, 0));
    let mut rooms = BTreeMap::new();
    rooms.insert(a.id.inner(), a);
    rooms.insert(b.id.inner(), b);
    let mut map = VoxelMap::new(0, 0, 0, 10, 5, 3);
    assert_eq!(map.add_rooms(&vec![a, b]), Ok(()));
    let passage = Passage {
        cells: Vec::new(),
        start: (2, 0, 1),
        start_dirs: only(Direction4::Right),
        start_room_id: a.id,
        end_room_id: b.id,
        height: 2,
    };
    assert_eq!(map.add_passage(&passage, &rooms), Ok(()));
    let stairs: Vec<((i64, i64, i64), VoxelType)> = map
        .cells()
        .into_iter()
        .filter(|(_, class)| matches!(class, VoxelType::PassageStair(_)))
        .collect();
    assert_eq!(stairs.len(), 1);
    let (p, class) = stairs[0];
    assert_eq!(class, VoxelType::PassageStair(Direction4::Right));
    assert_eq!(p.1, 0);
    assert_eq!(p.2, 1);
    assert_eq!(map.get(&(p.0 as i32, 1, 1)), VoxelType::PassageSpace);
    assert_eq!(map.get(&(p.0 as i32, 2, 1)), VoxelType::PassageSpace);
}

#[test]
fn a_passage_may_not_go_down() {
    let mut counter = RoomId::first();
    let low = Room::new(counter.gen_id(), 3, 2, 3, (0, 0, 0));
    let high = Room::new(counter.gen_id(), 3, 2, 3, (6, 1, 0));
    let mut rooms = BTreeMap::new();
    rooms.insert(low.id.inner(), low);
    rooms.insert(high.id.inner(), high);
    let mut map = VoxelMap::new(0, 0, 0, 10, 5, 3);
    assert_eq!(map.add_rooms(&vec![low, high]), Ok(()));
    let before = map.cells();
    let passage = Passage {
        cells: Vec::new(),
        start: (6, 1, 1),
        start_dirs: only(Direction4::Left),
        start_room_id: high.id,
        end_room_id: low.id,
        height: 2,
    };
    assert_eq!(
        map.add_passage(&passage, &rooms),
        Err(VoxelMapError::Unreachable)
    );
    assert_eq!(map.cells(), before);
}

#[test]
fn no_start_direction_no_route() {
    let (a, b, rooms) = two_rooms();
    let mut map = VoxelMap::new(-4, -4, -4, 24, 12, 16);
    assert_eq!(map.add_rooms(&vec![a, b]), Ok(()));
    let passage = Passage {
        cells: Vec::new(),
        start: (3, 0, 2),
        start_dirs: DirectionSet::new(),
        start_room_id: a.id,
        end_room_id: b.id,
        height: 2,
    };
    assert_eq!(
        map.add_passage(&passage, &rooms),
        Err(VoxelMapError::Unreachable)
    );
}

#[test]
fn unknown_end_room_is_reported() {
    let (a, b, _) = two_rooms();
    let mut map = VoxelMap::new(0, 0, 0, 16, 4, 16);
    let rooms: BTreeMap<u64, Room> = BTreeMap::new();
    let passage = Passage {
        cells: Vec::new(),
        start: (3, 0, 2),
        start_dirs: DirectionSet::all(),
        start_room_id: a.id,
        end_room_id: b.id,
        height: 2,
    };
    assert_eq!(
        map.add_passage(&passage, &rooms),
        Err(VoxelMapError::NoRoom(b.id))
    );
    assert_eq!(map.len(), 0);
}

#[test]
fn find_route_proposes_without_writing() {
    let (a, b, _) = two_rooms();
    let mut map = VoxelMap::new(-4, -4, -4, 24, 12, 16);
    assert_eq!(map.add_rooms(&vec![a, b]), Ok(()));
    let committed: BTreeMap<(i64, i64, i64), VoxelType> = map.cells().into_iter().collect();
    let passage = Passage {
        cells: Vec::new(),
        start: (3, 0, 2),
        start_dirs: only(Direction4::Right),
        start_room_id: a.id,
        end_room_id: b.id,
        height: 1,
    };
    let (lower, upper) = map.bounds();
    let proposal = find_route(&committed, lower, upper, &passage, &b).unwrap();
    assert_eq!(proposal.len(), 6 * 2);
    for x in 4..10 {
        assert_eq!(proposal.get(&(x, -1, 2)), Some(&VoxelType::PassageFloor));
        assert_eq!(proposal.get(&(x, 0, 2)), Some(&VoxelType::PassageSpace));
    }
    assert_eq!(map.len(), 2 * 27);
}

#[test]
fn a_copy_of_the_map_is_independent() {
    let (a, b, _) = two_rooms();
    let mut map = VoxelMap::new(0, 0, 0, 16, 8, 16);
    assert_eq!(map.add_room(&a), Ok(()));
    let copy = map.clone();
    assert_eq!(map.add_room(&b), Ok(()));
    assert_eq!(copy.len(), 27);
    assert_eq!(map.len(), 54);
    assert_eq!(copy.bounds(), map.bounds());
}
