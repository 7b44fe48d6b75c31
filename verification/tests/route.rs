use dungeon_3d_generator::constants::Direction4;
use dungeon_3d_generator::constants::DirectionSet;
use dungeon_3d_generator::constants::VoxelType;
use dungeon_3d_generator::room::Room;
use dungeon_3d_generator::room::RoomId;
use dungeon_3d_generator::route::accept;
use dungeon_3d_generator::route::add_passage;
use dungeon_3d_generator::route::add_stair;
use dungeon_3d_generator::route::calc_score;
use dungeon_3d_generator::route_spec::RouteMode;
use dungeon_3d_generator::route_spec::ROUTES_PER_CELL;
use std::collections::BTreeMap;

fn level(dirs: &[Direction4]) -> RouteMode {
    let mut set = DirectionSet::new();
    for d in dirs {
        set.insert(*d);
    }
    RouteMode::ParallelShift { movable_dirs: set }
}

#[test]
fn score_is_ten_times_the_distance_to_the_centre_plus_the_cost() {
    let room = Room::new(RoomId::first(), 5, 2, 4, (10, 3, 20));
    // centre (12.5, _, 22) at the height 3 of the walkable layer
    assert_eq!(calc_score(&room, &(12, 3, 22), 0), 5);
    assert_eq!(calc_score(&room, &(13, 3, 22), 0), 5);
    assert_eq!(calc_score(&room, &(12, 3, 22), 7), 12);
    // 3.5 + 2 + 3 = 8.5
    assert_eq!(calc_score(&room, &(9, 5, 25), 4), 85 + 4);
    // 13.5 + 4 + 23 = 40.5
    assert_eq!(calc_score(&room, &(-1, -1, -1), 0), 405);
    assert_eq!(calc_score(&room, &(12, 3, 22), u64::MAX), u64::MAX);
    assert_eq!(calc_score(&room, &(12, 3, 23), u64::MAX - 5), u64::MAX);
}

#[test]
fn score_of_a_unit_room_counts_half_cells() {
    let room = Room::new(RoomId::first(), 1, 1, 1, (2, 0, 0));
    // centre (2.5, _, 0.5): 1.5 + 0 + 0.5 = 2
    assert_eq!(calc_score(&room, &(1, 0, 0), 0), 20);
    assert_eq!(calc_score(&room, &(2, 0, 0), 0), 10);
    assert_eq!(calc_score(&room, &(2, 1, 0), 3), 23);
}

#[test]
fn a_rejected_corridor_leaves_the_proposal_as_it_was() {
    let id = RoomId::first();
    let mut committed = BTreeMap::new();
    committed.insert((0, 1, 0), VoxelType::RoomFloor(id));
    let mut proposal = BTreeMap::new();
    assert!(!add_passage(&(0, 0, 0), 2, &committed, &mut proposal));
    assert!(proposal.is_empty());

    let mut proposal = BTreeMap::new();
    proposal.insert((5, 5, 5), VoxelType::PassageSpace);
    proposal.insert((0, 1, 0), VoxelType::PassageFloor);
    let before = proposal.clone();
    assert!(!add_passage(&(0, 0, 0), 2, &BTreeMap::new(), &mut proposal));
    assert_eq!(proposal, before);
}

#[test]
fn a_rejected_stair_leaves_the_proposal_as_it_was() {
    let mut proposal = BTreeMap::new();
    proposal.insert((0, 0, 0), VoxelType::PassageSpace);
    let before = proposal.clone();
    assert!(!add_stair(&(0, 0, 0), 2, &Direction4::Right, &BTreeMap::new(), &mut proposal));
    assert_eq!(proposal, before);

    let id = RoomId::first();
    let mut committed = BTreeMap::new();
    committed.insert((0, 2, 0), VoxelType::RoomSpace(id));
    let mut proposal = BTreeMap::new();
    assert!(!add_stair(&(0, 0, 0), 2, &Direction4::Right, &committed, &mut proposal));
    assert!(proposal.is_empty());
}

#[test]
fn corridor_writes_floor_and_air() {
    let committed = BTreeMap::new();
    let mut proposal = BTreeMap::new();
    assert!(add_passage(&(2, 5, 7), 3, &committed, &mut proposal));
    let cells: Vec<((i64, i64, i64), VoxelType)> = proposal.into_iter().collect();
    assert_eq!(
        cells,
        vec![
            ((2, 4, 7), VoxelType::PassageFloor),
            ((2, 5, 7), VoxelType::PassageSpace),
            ((2, 6, 7), VoxelType::PassageSpace),
            ((2, 7, 7), VoxelType::PassageSpace),
        ]
    );
}

#[test]
fn corridor_accepts_cells_that_already_have_the_class() {
    let mut committed = BTreeMap::new();
    committed.insert((2, 4, 7), VoxelType::PassageFloor);
    let mut proposal = BTreeMap::new();
    proposal.insert((2, 6, 7), VoxelType::PassageSpace);
    assert!(add_passage(&(2, 5, 7), 2, &committed, &mut proposal));
    assert_eq!(proposal.get(&(2, 5, 7)), Some(&VoxelType::PassageSpace));
}

#[test]
fn corridor_is_rejected_by_a_foreign_class() {
    let id = RoomId::first();
    let mut committed = BTreeMap::new();
    committed.insert((2, 6, 7), VoxelType::RoomFloor(id));
    let mut proposal = BTreeMap::new();
    assert!(!add_passage(&(2, 5, 7), 2, &committed, &mut proposal));

    let mut proposal = BTreeMap::new();
    proposal.insert((2, 4, 7), VoxelType::PassageSpace);
    assert!(!add_passage(&(2, 5, 7), 2, &BTreeMap::new(), &mut proposal));

    let mut proposal = BTreeMap::new();
    assert!(add_passage(&(2, 5, 7), 1, &committed, &mut proposal));
}

#[test]
fn stair_writes_itself_and_the_air_above() {
    let committed = BTreeMap::new();
    let mut proposal = BTreeMap::new();
    assert!(add_stair(&(0, 0, 0), 2, &Direction4::Far, &committed, &mut proposal));
    let cells: Vec<((i64, i64, i64), VoxelType)> = proposal.into_iter().collect();
    assert_eq!(
        cells,
        vec![
            ((0, 0, 0), VoxelType::PassageStair(Direction4::Far)),
            ((0, 1, 0), VoxelType::PassageSpace),
            ((0, 2, 0), VoxelType::PassageSpace),
        ]
    );
}

#[test]
fn stair_needs_an_empty_cell() {
    let mut committed = BTreeMap::new();
    committed.insert((0, 0, 0), VoxelType::PassageSpace);
    let mut proposal = BTreeMap::new();
    assert!(!add_stair(&(0, 0, 0), 2, &Direction4::Far, &committed, &mut proposal));

    let mut proposal = BTreeMap::new();
    proposal.insert((0, 0, 0), VoxelType::PassageStair(Direction4::Far));
    assert!(!add_stair(&(0, 0, 0), 2, &Direction4::Far, &BTreeMap::new(), &mut proposal));

    let mut proposal = BTreeMap::new();
    proposal.insert((0, 2, 0), VoxelType::PassageFloor);
    assert!(!add_stair(&(0, 0, 0), 2, &Direction4::Far, &BTreeMap::new(), &mut proposal));
}

#[test]
fn a_mode_contains_what_it_leaves_open() {
    let wide = level(&[Direction4::Left, Direction4::Right, Direction4::Far]);
    let narrow = level(&[Direction4::Left, Direction4::Far]);
    assert!(wide.contains(&narrow));
    assert!(!narrow.contains(&wide));
    assert!(wide.contains(&wide));
    let stair = RouteMode::Stair(Direction4::Left);
    assert!(stair.contains(&stair));
    assert!(!stair.contains(&RouteMode::Stair(Direction4::Right)));
    assert!(!stair.contains(&narrow));
    assert!(!wide.contains(&stair));
}

#[test]
fn dominated_routes_are_dropped_and_better_ones_take_a_place() {
    let wide = level(&[Direction4::Left, Direction4::Right]);
    let narrow = level(&[Direction4::Left]);
    let mut list = Vec::new();
    assert!(accept(&mut list, narrow, 5));
    assert_eq!(list, vec![(narrow, 5)]);
    // the same mode at the same cost is dominated
    assert!(!accept(&mut list, narrow, 5));
    assert!(!accept(&mut list, narrow, 6));
    // a wider mode at a higher cost is neither dominated nor an improvement
    assert!(accept(&mut list, wide, 7));
    assert_eq!(list, vec![(narrow, 5), (wide, 7)]);
    // a wider mode at a lower cost takes the place of the first it improves on
    assert!(accept(&mut list, wide, 3));
    assert_eq!(list, vec![(wide, 3), (wide, 7)]);
    // a stair is its own kind
    assert!(accept(&mut list, RouteMode::Stair(Direction4::Far), 9));
    assert_eq!(list.len(), 3);
}

#[test]
fn a_later_entry_that_dominates_wins_over_an_earlier_one_to_improve() {
    let wide = level(&[Direction4::Left, Direction4::Right]);
    let narrow = level(&[Direction4::Left]);
    let mut list = vec![(narrow, 9), (wide, 2)];
    assert!(!accept(&mut list, wide, 4));
    assert_eq!(list, vec![(narrow, 9), (wide, 2)]);
}

#[test]
fn a_cell_keeps_ten_entries_at_most() {
    let mut list = Vec::new();
    let stairs = [
        Direction4::Left,
        Direction4::Right,
        Direction4::Far,
        Direction4::Near,
    ];
    for d in stairs {
        assert!(accept(&mut list, RouteMode::Stair(d), 1));
    }
    let levels = [
        level(&[Direction4::Left, Direction4::Right]),
        level(&[Direction4::Left, Direction4::Far]),
        level(&[Direction4::Left, Direction4::Near]),
        level(&[Direction4::Right, Direction4::Far]),
        level(&[Direction4::Right, Direction4::Near]),
        level(&[Direction4::Far, Direction4::Near]),
    ];
    for (i, mode) in levels.iter().enumerate() {
        assert!(accept(&mut list, *mode, 10 - i as u64));
    }
    assert_eq!(list.len(), ROUTES_PER_CELL);
    let all = RouteMode::ParallelShift { movable_dirs: DirectionSet::all() };
    let before = list.clone();
    assert!(!accept(&mut list, all, 0));
    assert_eq!(list, before);
}
