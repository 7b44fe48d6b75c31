use dungeon_3d_generator::constants::Direction4;
use dungeon_3d_generator::constants::VoxelType;
use dungeon_3d_generator::generate_drd::build_table;
use dungeon_3d_generator::generate_drd::connect_rooms;
use dungeon_3d_generator::generate_drd::generate_rooms;
use dungeon_3d_generator::generate_drd::has_pair;
use dungeon_3d_generator::generate_drd::insert_pair;
use dungeon_3d_generator::generate_drd::plan_passage;
use dungeon_3d_generator::generate_drd::required_pairs;
use dungeon_3d_generator::generate_drd::Dungeon3DGeneratorConfig;
use dungeon_3d_generator::generate_drd::Dungeon3DGeneratorError;
use dungeon_3d_generator::generate_drd::Dungeon3DGeneratorResult;
use dungeon_3d_generator::passage::Passage;
use dungeon_3d_generator::room::Room;
use dungeon_3d_generator::room::RoomId;
use dungeon_3d_generator::voxel_map::VoxelMap;
use dungeon_3d_generator::voxel_map::VoxelMapError;
use rand::rngs::StdRng;
use rand::SeedableRng;
use std::collections::BTreeMap;
use std::collections::BTreeSet;

type Point = (f32, f32);

fn crossing(p00: Point, p01: Point, p10: Point, p11: Point) -> Option<Point> {
    let d = (p01.0 - p00.0) * (p11.1 - p10.1) - (p01.1 - p00.1) * (p11.0 - p10.0);
    if d == 0.0 {
        return None;
    }
    let v = (p10.0 - p00.0, p10.1 - p00.1);
    let d_r = ((p11.1 - p10.1) * v.0 - (p11.0 - p10.0) * v.1) / d;
    let d_s = ((p01.1 - p00.1) * v.0 - (p01.0 - p00.0) * v.1) / d;
    if (0.0..=1.0).contains(&d_r) && (0.0..1.0).contains(&d_s) {
        Some((p00.0 + d_r * (p01.0 - p00.0), p00.1 + d_r * (p01.1 - p00.1)))
    } else {
        None
    }
}

fn center(room: &Room) -> (f32, f32, f32) {
    (
        room.width as f32 / 2.0 + room.origin.0 as f32,
        room.height as f32 / 2.0 + room.origin.1 as f32,
        room.depth as f32 / 2.0 + room.origin.2 as f32,
    )
}

/// Where the line between the centres crosses the boundary of the lower
/// room, cut down to whole numbers.
fn boundary_hit(room0: &Room, room1: &Room) -> Option<(i32, i32)> {
    let (from, to) = if room0.origin.1 <= room1.origin.1 {
        (room0, room1)
    } else {
        (room1, room0)
    };
    let a = center(from);
    let b = center(to);
    let width = (from.width + to.width) as f32;
    let depth = (from.depth + to.depth) as f32;
    let from_point = (a.0, a.2);
    let to_point = ((b.0 - a.0) * width, (b.2 - a.2) * depth);
    let x0 = from.origin.0 as f32;
    let z0 = from.origin.2 as f32;
    let x1 = x0 + from.width as f32;
    let z1 = z0 + from.depth as f32;
    let mut points = Vec::new();
    for (q0, q1) in [
        ((x0, z1), (x1, z1)),
        ((x0, z0), (x1, z0)),
        ((x0, z0), (x0, z1)),
        ((x1, z0), (x1, z1)),
    ] {
        if let Some(p) = crossing(from_point, to_point, q0, q1) {
            points.push(p);
        }
    }
    points.pop().map(|p| (p.0 as i32, p.1 as i32))
}

fn all_hits(rooms: &[Room]) -> BTreeMap<(u64, u64), (i32, i32)> {
    let mut hits = BTreeMap::new();
    for a in rooms {
        for b in rooms {
            if a.id != b.id {
                if let Some(hit) = boundary_hit(a, b) {
                    hits.insert((a.id.inner(), b.id.inner()), hit);
                }
            }
        }
    }
    hits
}

fn generate(
    config: &Dungeon3DGeneratorConfig,
    seed: u64,
    extra: &Vec<(u64, u64)>,
) -> Result<(Vec<Room>, Dungeon3DGeneratorResult), Dungeon3DGeneratorError> {
    let mut rng = StdRng::seed_from_u64(seed);
    let rooms = generate_rooms(config, &mut rng)?;
    let hits = all_hits(&rooms);
    let result = connect_rooms(config, &rooms, &hits, extra, &mut rng)?;
    Ok((rooms, result))
}

fn cells_of(map: &VoxelMap) -> BTreeMap<(i64, i64, i64), VoxelType> {
    map.cells().into_iter().collect()
}

fn is_passage(class: &VoxelType) -> bool {
    matches!(
        class,
        VoxelType::PassageFloor | VoxelType::PassageSpace | VoxelType::PassageStair(_)
    )
}

/// Walks from the start of the passage over passage air and stairs and says
/// whether the walkable layer of the end room can be reached.
fn connected(cells: &BTreeMap<(i64, i64, i64), VoxelType>, passage: &Passage) -> bool {
    let start = (
        i64::from(passage.start.0),
        i64::from(passage.start.1),
        i64::from(passage.start.2),
    );
    let step = |p: (i64, i64, i64), d: Direction4, rise: i64| {
        let v = d.to_vec3();
        (p.0 + i64::from(v.0), p.1 + rise, p.2 + i64::from(v.2))
    };
    let all = [
        Direction4::Left,
        Direction4::Right,
        Direction4::Far,
        Direction4::Near,
    ];
    let mut todo: Vec<(i64, i64, i64)> = passage
        .start_dirs
        .to_vec()
        .into_iter()
        .map(|d| step(start, d, 0))
        .collect();
    let mut seen = BTreeSet::new();
    while let Some(p) = todo.pop() {
        if !seen.insert(p) {
            continue;
        }
        match cells.get(&p) {
            Some(VoxelType::RoomBottomSpace(id)) if *id == passage.end_room_id => return true,
            Some(VoxelType::PassageSpace) => {
                if cells.get(&(p.0, p.1 - 1, p.2)) == Some(&VoxelType::PassageFloor) {
                    for d in all {
                        todo.push(step(p, d, 0));
                    }
                }
            }
            Some(VoxelType::PassageStair(d)) => todo.push(step(p, *d, 1)),
            _ => {}
        }
    }
    false
}

fn check_invariants(
    config: &Dungeon3DGeneratorConfig,
    rooms: &[Room],
    dungeon: &Dungeon3DGeneratorResult,
) {
    let cells = cells_of(&dungeon.voxel_map);
    let (lower, upper) = dungeon.voxel_map.bounds();
    let margin = i64::from(config.margin_for_bounds);
    assert_eq!(lower, (-margin, -margin, -margin));
    assert_eq!(
        upper,
        (
            i64::from(config.width),
            i64::from(config.height),
            i64::from(config.depth)
        )
    );
    let h = i64::from(config.passage_height);
    let mut room_cells = 0usize;
    for room in rooms {
        room_cells += (room.width * (room.height + 1) * room.depth) as usize;
        for x in 0..room.width {
            for z in 0..room.depth {
                for y in -1..room.height as i64 {
                    let p = (
                        i64::from(room.origin.0 + x),
                        i64::from(room.origin.1) + y,
                        i64::from(room.origin.2 + z),
                    );
                    let expected = match y {
                        -1 => VoxelType::RoomFloor(room.id),
                        0 => VoxelType::RoomBottomSpace(room.id),
                        _ => VoxelType::RoomSpace(room.id),
                    };
                    assert_eq!(cells.get(&p), Some(&expected));
                }
            }
        }
    }
    let mut counted = 0usize;
    for (p, class) in cells.iter() {
        assert_ne!(*class, VoxelType::Wall);
        if !is_passage(class) {
            counted += 1;
            continue;
        }
        assert!(lower.0 <= p.0 && p.0 < upper.0);
        assert!(lower.2 <= p.2 && p.2 < upper.2);
        assert!(lower.1 - 1 <= p.1 && p.1 < upper.1 + h);
        match class {
            VoxelType::PassageFloor => {
                assert_eq!(
                    cells.get(&(p.0, p.1 + 1, p.2)),
                    Some(&VoxelType::PassageSpace)
                );
            }
            VoxelType::PassageStair(_) => {
                for k in 1..=h {
                    assert_eq!(
                        cells.get(&(p.0, p.1 + k, p.2)),
                        Some(&VoxelType::PassageSpace)
                    );
                }
            }
            _ => {}
        }
    }
    assert_eq!(counted, room_cells);
    for passage in dungeon.passages.iter() {
        assert!(connected(&cells, passage));
    }
}

#[test]
fn narrow_width_is_rejected() {
    let config = Dungeon3DGeneratorConfig {
        width: 6,
        room_width_range: 5..=10,
        room_margin_x: 2,
        ..Default::default()
    };
    let mut rng = StdRng::seed_from_u64(0);
    assert_eq!(
        generate_rooms(&config, &mut rng).err(),
        Some(Dungeon3DGeneratorError::NarrowWidthOrRoomWidthTooLarge)
    );
    assert_eq!(
        config.validate().err(),
        Some(Dungeon3DGeneratorError::NarrowWidthOrRoomWidthTooLarge)
    );
}

#[test]
fn narrow_depth_is_rejected() {
    let config = Dungeon3DGeneratorConfig {
        depth: 8,
        room_depth_range: 5..=10,
        room_margin_z: 4,
        ..Default::default()
    };
    assert_eq!(
        config.validate().err(),
        Some(Dungeon3DGeneratorError::NarrowDepthOrRoomDepthTooLarge)
    );
    let wide_but_shallow = Dungeon3DGeneratorConfig { width: 100, ..config };
    assert_eq!(
        wide_but_shallow.validate().err(),
        Some(Dungeon3DGeneratorError::NarrowDepthOrRoomDepthTooLarge)
    );
}

#[test]
fn low_height_is_rejected() {
    let config = Dungeon3DGeneratorConfig {
        height: 8,
        room_hierarchy: 3,
        room_height_range: 2..=2,
        room_margin_y: 1,
        ..Default::default()
    };
    assert_eq!(
        config.validate().err(),
        Some(Dungeon3DGeneratorError::NarrowHeightOrRoomHierarchyTooSmall)
    );
    let just_enough = Dungeon3DGeneratorConfig { height: 9, ..config };
    assert!(just_enough.validate().is_ok());
}

#[test]
fn width_is_checked_before_depth_and_height() {
    let config = Dungeon3DGeneratorConfig {
        width: 1,
        depth: 1,
        height: 1,
        ..Default::default()
    };
    assert_eq!(
        config.validate().err(),
        Some(Dungeon3DGeneratorError::NarrowWidthOrRoomWidthTooLarge)
    );
}

#[test]
fn plan_clamps_margins_and_counts_blocks() {
    let config = Dungeon3DGeneratorConfig {
        width: 32,
        depth: 20,
        room_margin_x: 0,
        room_margin_y: 0,
        room_margin_z: 0,
        ..Default::default()
    };
    let plan = config.validate().unwrap();
    assert_eq!(plan.margin, (1, 1, 1));
    assert_eq!(plan.columns_max, 32 / 6);
    assert_eq!(plan.rows_max, 20 / 6);
    assert_eq!(plan.width_range, (5, 10));
    assert_eq!(plan.tiers, 3);
}

#[test]
fn tight_width_gives_one_column() {
    let config = Dungeon3DGeneratorConfig {
        width: 10,
        room_width_range: 5..=10,
        room_margin_x: 2,
        seed: Some(0),
        ..Default::default()
    };
    let plan = config.validate().unwrap();
    assert_eq!(plan.columns_max, 1);
    let mut rng = StdRng::seed_from_u64(0);
    let rooms = generate_rooms(&config, &mut rng).unwrap();
    for room in rooms.iter() {
        assert!(room.origin.0 + room.width + 2 <= 10);
        assert!(5 <= room.width && room.width <= 8);
    }
}

#[test]
fn rooms_lie_inside_the_volume_with_sizes_in_range() {
    for seed in 0..20 {
        let config = Dungeon3DGeneratorConfig::default();
        let mut rng = StdRng::seed_from_u64(seed);
        let rooms = generate_rooms(&config, &mut rng).unwrap();
        assert!(rooms.len() >= 3);
        for (i, room) in rooms.iter().enumerate() {
            assert_eq!(room.id.inner(), i as u64 + 1);
            assert!((5..=10).contains(&room.width));
            assert!((5..=10).contains(&room.depth));
            assert_eq!(room.height, 2);
            assert!(room.origin.0 + room.width + 4 <= 32);
            assert!(room.origin.1 + room.height + 1 <= 10);
            assert!(room.origin.2 + room.depth + 4 <= 32);
        }
        let mut map = VoxelMap::new(0, 0, 0, 32, 10, 32);
        assert_eq!(map.add_rooms(&rooms), Ok(()));
    }
}

#[test]
fn flat_dungeon_needs_no_stairs() {
    let config = Dungeon3DGeneratorConfig {
        width: 16,
        height: 3,
        depth: 16,
        seed: Some(0),
        room_hierarchy: 1,
        room_width_range: 3..=4,
        room_height_range: 2..=2,
        room_depth_range: 3..=4,
        room_margin_x: 2,
        room_margin_y: 1,
        room_margin_z: 2,
        passage_height: 2,
        margin_for_bounds: 4,
    };
    let (rooms, dungeon) = generate(&config, 0, &Vec::new()).unwrap();
    assert!(rooms.len() >= 2);
    assert_eq!(dungeon.passages.len(), rooms.len() - 1);
    check_invariants(&config, &rooms, &dungeon);
    let cells = cells_of(&dungeon.voxel_map);
    assert!(!cells
        .values()
        .any(|class| matches!(class, VoxelType::PassageStair(_))));
}

#[test]
fn two_tiers_are_joined_by_stairs() {
    let config = Dungeon3DGeneratorConfig {
        width: 24,
        height: 6,
        depth: 24,
        seed: Some(0),
        room_hierarchy: 2,
        ..Default::default()
    };
    let mut generated = 0;
    for seed in 0..12 {
        match generate(&config, seed, &Vec::new()) {
            Ok((rooms, dungeon)) => {
                generated += 1;
                assert!(rooms.len() >= 2);
                assert_eq!(dungeon.passages.len(), rooms.len() - 1);
                check_invariants(&config, &rooms, &dungeon);
                let cells = cells_of(&dungeon.voxel_map);
                assert!(cells
                    .values()
                    .any(|class| matches!(class, VoxelType::PassageStair(_))));
            }
            Err(e) => assert_eq!(
                e,
                Dungeon3DGeneratorError::VoxelMapError(VoxelMapError::Unreachable)
            ),
        }
    }
    assert!(generated > 0);
}

#[test]
fn generate_drd_test_default_generate() {
    let config = Dungeon3DGeneratorConfig { seed: Some(0), ..Default::default() };
    let (rooms, dungeon) = generate(&config, 0, &Vec::new()).unwrap();
    assert_eq!(dungeon.rooms.len(), rooms.len());
    assert_eq!(dungeon.passages.len(), rooms.len() - 1);
    check_invariants(&config, &rooms, &dungeon);
}

#[test]
fn same_seed_same_dungeon() {
    let config = Dungeon3DGeneratorConfig { seed: Some(42), ..Default::default() };
    let extra = vec![(1, 2), (2, 3), (1, 3)];
    let (rooms_a, a) = generate(&config, 42, &extra).unwrap();
    let (rooms_b, b) = generate(&config, 42, &extra).unwrap();
    let plain = |rooms: &Vec<Room>| -> Vec<(u64, u32, u32, u32, (u32, u32, u32))> {
        rooms
            .iter()
            .map(|r| (r.id.inner(), r.width, r.height, r.depth, r.origin))
            .collect()
    };
    assert_eq!(plain(&rooms_a), plain(&rooms_b));
    assert_eq!(a.voxel_map.cells(), b.voxel_map.cells());
    let starts = |d: &Dungeon3DGeneratorResult| -> Vec<((i32, i32, i32), u64, u64, i32)> {
        d.passages
            .iter()
            .map(|p| {
                (
                    p.start,
                    p.start_room_id.inner(),
                    p.end_room_id.inner(),
                    p.height,
                )
            })
            .collect()
    };
    assert_eq!(starts(&a), starts(&b));
    check_invariants(&config, &rooms_a, &a);
}

fn row_of_rooms(n: u32, gap: u32) -> Vec<Room> {
    let mut counter = RoomId::first();
    (0..n)
        .map(|i| Room::new(counter.gen_id(), 3, 2, 3, (i * (3 + gap), 0, 1)))
        .collect()
}

fn small_config(width: u32) -> Dungeon3DGeneratorConfig {
    Dungeon3DGeneratorConfig {
        width,
        height: 4,
        depth: 6,
        seed: Some(0),
        room_hierarchy: 1,
        room_width_range: 3..=3,
        room_height_range: 2..=2,
        room_depth_range: 3..=3,
        room_margin_x: 1,
        room_margin_y: 1,
        room_margin_z: 1,
        passage_height: 2,
        margin_for_bounds: 1,
    }
}

#[test]
fn only_the_spanning_tree_is_required() {
    let rooms = row_of_rooms(3, 3);
    let config = small_config(16);
    let mut rng = StdRng::seed_from_u64(0);
    let hits = all_hits(&rooms);
    let dungeon = connect_rooms(&config, &rooms, &hits, &Vec::new(), &mut rng).unwrap();
    let pairs: Vec<(u64, u64)> = dungeon
        .passages
        .iter()
        .map(|p| (p.start_room_id.inner(), p.end_room_id.inner()))
        .collect();
    assert_eq!(pairs, vec![(1, 2), (2, 3)]);
    check_invariants(&config, &rooms, &dungeon);
    assert_eq!(dungeon.voxel_map.get(&(3, 0, 2)), VoxelType::PassageSpace);
    assert_eq!(dungeon.voxel_map.get(&(3, -1, 2)), VoxelType::PassageFloor);
}

#[test]
fn a_room_outside_the_bounds_is_unreachable() {
    let rooms = row_of_rooms(2, 3);
    let config = small_config(5);
    let mut rng = StdRng::seed_from_u64(0);
    let hits = all_hits(&rooms);
    let result = connect_rooms(&config, &rooms, &hits, &Vec::new(), &mut rng);
    assert_eq!(
        result.err(),
        Some(Dungeon3DGeneratorError::VoxelMapError(
            VoxelMapError::Unreachable
        ))
    );
}

#[test]
fn rooms_that_meet_end_the_generation() {
    let mut counter = RoomId::first();
    let rooms = vec![
        Room::new(counter.gen_id(), 3, 2, 3, (0, 0, 0)),
        Room::new(counter.gen_id(), 3, 2, 3, (2, 1, 2)),
    ];
    let config = small_config(16);
    let mut rng = StdRng::seed_from_u64(0);
    let result = connect_rooms(&config, &rooms, &BTreeMap::new(), &Vec::new(), &mut rng);
    assert_eq!(
        result.err(),
        Some(Dungeon3DGeneratorError::VoxelMapError(
            VoxelMapError::Conflict
        ))
    );
}

#[test]
fn optional_connections_never_fail_the_generation() {
    let rooms = row_of_rooms(3, 3);
    let config = small_config(16);
    let hits = all_hits(&rooms);
    let extra = vec![(1, 3), (3, 1), (1, 2), (2, 1)];
    let mut tried = 0;
    for seed in 0..40 {
        let mut rng = StdRng::seed_from_u64(seed);
        let dungeon = connect_rooms(&config, &rooms, &hits, &extra, &mut rng).unwrap();
        assert!(dungeon.passages.len() >= 2);
        let optional = &dungeon.passages[2..];
        for p in optional {
            let pair = (p.start_room_id.inner(), p.end_room_id.inner());
            assert!(pair == (1, 3) || pair == (3, 1));
        }
        tried += optional.len();
        check_invariants(&config, &rooms, &dungeon);
    }
    assert!(tried > 0);
}

#[test]
fn required_pairs_are_ordered_and_unique() {
    let tree = vec![(3, 4, 9), (1, 2, 5), (4, 3, 1), (2, 5, 7), (1, 2, 8), (2, 3, 0)];
    assert_eq!(
        required_pairs(&tree),
        vec![(1, 2), (2, 3), (2, 5), (3, 4)]
    );
    let mut keys = vec![(1, 5), (2, 2)];
    insert_pair(&mut keys, (1, 7));
    insert_pair(&mut keys, (0, 9));
    insert_pair(&mut keys, (2, 2));
    insert_pair(&mut keys, (3, 0));
    assert_eq!(keys, vec![(0, 9), (1, 5), (1, 7), (2, 2), (3, 0)]);
    assert!(has_pair(&keys, (1, 7)));
    assert!(!has_pair(&keys, (7, 1)));
}

#[test]
fn passages_are_planned_from_the_recorded_hits() {
    let rooms = row_of_rooms(2, 3);
    let mut hits = BTreeMap::new();
    hits.insert((1, 2), (3, 2));
    let passage = plan_passage(&rooms, &hits, (1, 2), 2);
    assert_eq!(passage.start, (2, 0, 2));
    assert_eq!(passage.start_dirs.to_vec(), vec![Direction4::Right]);
    assert_eq!(passage.start_room_id.inner(), 1);
    assert_eq!(passage.end_room_id.inner(), 2);
    assert_eq!(passage.height, 2);
    let fallback = plan_passage(&rooms, &hits, (2, 1), 3);
    assert_eq!(fallback.start, (6, 0, 1));
    assert_eq!(fallback.start_room_id.inner(), 2);
    assert_eq!(
        fallback.start_dirs.to_vec(),
        vec![Direction4::Left, Direction4::Far]
    );
    let table = build_table(&rooms);
    assert_eq!(table.len(), 2);
    assert_eq!(table.get(&2).map(|r| r.origin), Some((6, 0, 1)));
}
