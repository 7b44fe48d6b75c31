use dungeon_3d_generator::constants::Direction4;
use dungeon_3d_generator::core_expansion_dungeon::any_cell;
use dungeon_3d_generator::core_expansion_dungeon::can_place;
use dungeon_3d_generator::core_expansion_dungeon::check_candidate;
use dungeon_3d_generator::core_expansion_dungeon::entrances_towards;
use dungeon_3d_generator::core_expansion_dungeon::exit_of;
use dungeon_3d_generator::core_expansion_dungeon::find_invalid_candidate;
use dungeon_3d_generator::core_expansion_dungeon::find_placeable;
use dungeon_3d_generator::core_expansion_dungeon::generate_ced;
use dungeon_3d_generator::core_expansion_dungeon::link;
use dungeon_3d_generator::core_expansion_dungeon::occupy;
use dungeon_3d_generator::core_expansion_dungeon::prune;
use dungeon_3d_generator::core_expansion_dungeon::validate_dir_of_room_candidate;
use dungeon_3d_generator::core_expansion_dungeon::CEDConfig;
use dungeon_3d_generator::core_expansion_dungeon::CEDError;
use dungeon_3d_generator::core_expansion_dungeon::CEDRoomCandidate;
use dungeon_3d_generator::core_expansion_dungeon::RoomCandidateEntity;
use rand::rngs::StdRng;
use rand::SeedableRng;
use std::collections::BTreeMap;
use std::collections::BTreeSet;

#[test]
fn exits_must_lie_on_the_side_they_leave() {
    assert!(validate_dir_of_room_candidate(0, 1, 3, 3, Direction4::Left));
    assert!(validate_dir_of_room_candidate(2, 1, 3, 3, Direction4::Right));
    assert!(validate_dir_of_room_candidate(1, 0, 3, 3, Direction4::Far));
    assert!(validate_dir_of_room_candidate(1, 2, 3, 3, Direction4::Near));
    assert!(!validate_dir_of_room_candidate(1, 1, 3, 3, Direction4::Left));
    assert!(!validate_dir_of_room_candidate(0, 1, 3, 3, Direction4::Right));
    assert!(!validate_dir_of_room_candidate(3, 1, 3, 3, Direction4::Right));
    assert!(!validate_dir_of_room_candidate(1, 3, 3, 3, Direction4::Near));
    // a corner cell serves both of its sides
    assert!(validate_dir_of_room_candidate(0, 2, 3, 3, Direction4::Near));
    assert!(validate_dir_of_room_candidate(0, 2, 3, 3, Direction4::Left));
}

#[test]
fn default_catalogue_is_valid() {
    let config = CEDConfig::default();
    assert_eq!(config.room_candidates.len(), 9);
    assert_eq!(config.room_size_max, 20);
    assert_eq!(config.seed, None);
    assert_eq!(find_invalid_candidate(&config.room_candidates), None);
    let plain = CEDRoomCandidate::default();
    assert_eq!((plain.width, plain.height, plain.depth), (3, 1, 3));
    assert!(plain.exit_and_entrances.is_empty());
    assert!(plain.can_be_terminal);
    assert!(check_candidate(&plain));
}

fn broken(exit: ((i32, i32, i32), Direction4)) -> CEDRoomCandidate {
    CEDRoomCandidate {
        exit_and_entrances: vec![((0, 0, 1), Direction4::Left), exit],
        ..Default::default()
    }
}

#[test]
fn the_first_invalid_candidate_is_named() {
    let mut config = CEDConfig::default();
    config.room_candidates.insert(4, broken(((1, 0, 1), Direction4::Right)));
    config.room_candidates.push(broken(((2, 1, 1), Direction4::Right)));
    assert_eq!(find_invalid_candidate(&config.room_candidates), Some(4));
    let mut rng = StdRng::seed_from_u64(1);
    assert_eq!(
        generate_ced(config, &mut rng).err(),
        Some(CEDError::InvalidRoomCandidateExitAndEntrance { index: 4 })
    );
    assert!(!check_candidate(&broken(((2, -1, 1), Direction4::Right))));
    assert!(!check_candidate(&broken(((2, 1, 1), Direction4::Right))));
    assert!(check_candidate(&broken(((2, 0, 1), Direction4::Right))));
}

#[test]
fn the_last_exit_of_a_direction_counts() {
    let c = CEDRoomCandidate {
        exit_and_entrances: vec![
            ((0, 0, 0), Direction4::Left),
            ((2, 0, 1), Direction4::Right),
            ((0, 0, 2), Direction4::Left),
        ],
        ..Default::default()
    };
    assert_eq!(exit_of(&c, Direction4::Left), Some((0, 0, 2)));
    assert_eq!(exit_of(&c, Direction4::Right), Some((2, 0, 1)));
    assert_eq!(exit_of(&c, Direction4::Far), None);
    let catalogue = vec![CEDRoomCandidate::default(), c];
    assert_eq!(
        entrances_towards(&catalogue, Direction4::Left),
        vec![(1, (0, 0, 0)), (1, (0, 0, 2))]
    );
    assert!(entrances_towards(&catalogue, Direction4::Near).is_empty());
}

#[test]
fn boxes_are_taken_cell_by_cell() {
    let mut cells = BTreeMap::new();
    assert!(!any_cell(&cells, (0, 0, 0), (3, 1, 3)));
    occupy(&mut cells, (1, 0, -1), (2, 1, 2), 7);
    let taken: Vec<((i64, i64, i64), usize)> = cells.iter().map(|(p, i)| (*p, *i)).collect();
    assert_eq!(
        taken,
        vec![
            ((1, 0, -1), 7),
            ((1, 0, 0), 7),
            ((2, 0, -1), 7),
            ((2, 0, 0), 7)
        ]
    );
    assert!(any_cell(&cells, (0, 0, 0), (3, 1, 3)));
    assert!(any_cell(&cells, (2, 0, 0), (1, 1, 1)));
    assert!(!any_cell(&cells, (3, 0, -1), (2, 1, 2)));
    assert!(!any_cell(&cells, (1, 1, -1), (2, 1, 2)));
    assert!(!any_cell(&cells, (1, 0, -1), (0, 1, 2)));
}

#[test]
fn a_candidate_is_placed_where_its_cells_are_free() {
    let catalogue = CEDConfig::default().room_candidates;
    let mut cells = BTreeMap::new();
    occupy(&mut cells, (0, 0, 0), (3, 1, 3), 0);
    // leaving the square to the right at (2, 0, 1): the entrance is (3, 0, 1)
    let entrance = (3, 0, 1);
    assert!(can_place(&cells, &catalogue, (0, (0, 0, 1)), entrance, Direction4::Left));
    // a candidate without an exit to the left cannot be entered from there
    assert!(!can_place(&cells, &catalogue, (4, (0, 0, 1)), entrance, Direction4::Left));
    assert!(!can_place(&cells, &catalogue, (99, (0, 0, 1)), entrance, Direction4::Left));
    occupy(&mut cells, (4, 0, 1), (1, 1, 1), 5);
    assert!(!can_place(&cells, &catalogue, (0, (0, 0, 1)), entrance, Direction4::Left));
    // the stair from the left is one cell wide and still fits
    assert!(can_place(&cells, &catalogue, (5, (0, 0, 0)), entrance, Direction4::Left));
    let list = vec![(0, (0, 0, 1)), (4, (0, 0, 1)), (5, (0, 0, 0)), (6, (0, 1, 0))];
    assert_eq!(
        find_placeable(&cells, &catalogue, &list, entrance, Direction4::Left),
        Some(2)
    );
    occupy(&mut cells, (3, 0, 1), (1, 2, 1), 5);
    assert_eq!(
        find_placeable(&cells, &catalogue, &list, entrance, Direction4::Left),
        None
    );
}

#[test]
fn links_are_sets() {
    let mut connections = BTreeMap::new();
    link(&mut connections, 1, 2);
    link(&mut connections, 1, 3);
    link(&mut connections, 1, 2);
    link(&mut connections, 2, 1);
    let expected: BTreeSet<u64> = [2, 3].into_iter().collect();
    assert_eq!(connections.get(&1), Some(&expected));
    assert_eq!(connections.get(&2).map(|s| s.len()), Some(1));
    assert_eq!(connections.get(&3), None);
}

#[test]
fn a_stair_with_one_neighbour_is_removed() {
    let catalogue = CEDConfig::default().room_candidates;
    let mut entities = BTreeMap::new();
    entities.insert(1, RoomCandidateEntity { index: 0, origin: (0, 0, 0) });
    entities.insert(2, RoomCandidateEntity { index: 0, origin: (3, 0, 0) });
    entities.insert(3, RoomCandidateEntity { index: 5, origin: (6, 0, 1) });
    entities.insert(4, RoomCandidateEntity { index: 5, origin: (7, 1, 1) });
    let mut connections = BTreeMap::new();
    link(&mut connections, 2, 3);
    link(&mut connections, 3, 2);
    link(&mut connections, 3, 4);
    link(&mut connections, 4, 3);
    prune(&catalogue, &mut entities, &mut connections, 4);
    // the stair 4 hangs in the air, and without it the stair 3 does too
    let left: Vec<u64> = entities.keys().copied().collect();
    assert_eq!(left, vec![1, 2]);
    assert_eq!(connections.get(&3), None);
    assert_eq!(connections.get(&4), None);
    assert_eq!(connections.get(&2).map(|s| s.len()), Some(0));
}

#[test]
fn generated_rooms_are_of_known_kinds_and_do_not_meet() {
    for seed in 0..20 {
        let config = CEDConfig { seed: Some(seed), ..Default::default() };
        let mut rng = StdRng::seed_from_u64(seed);
        let result = generate_ced(config, &mut rng).unwrap();
        assert!(result.room_candidate_entities.len() <= 20);
        assert_eq!(result.room_candidate_entities[&1].origin, (0, 0, 0));
        assert!(!result.room_candidate_connections.contains_key(&1));
        let mut cells = BTreeMap::new();
        for (id, entity) in result.room_candidate_entities.iter() {
            assert!(1 <= *id && *id <= 20);
            let kind = &result.room_candidates[entity.index];
            let origin = (
                i64::from(entity.origin.0),
                i64::from(entity.origin.1),
                i64::from(entity.origin.2),
            );
            let size = (kind.width, kind.height, kind.depth);
            assert!(!any_cell(&cells, origin, size));
            occupy(&mut cells, origin, size, entity.index);
        }
        for (id, attached) in result.room_candidate_connections.iter() {
            assert!(result.room_candidate_entities.contains_key(id));
            for other in attached {
                assert!(result.room_candidate_entities.contains_key(other));
                assert!(result.room_candidate_connections[other].contains(id));
            }
        }
    }
}

#[test]
fn the_same_seed_grows_the_same_dungeon() {
    let run = |seed: u64| {
        let mut rng = StdRng::seed_from_u64(seed);
        let result = generate_ced(CEDConfig::default(), &mut rng).unwrap();
        let rooms: Vec<(u64, usize, (i32, i32, i32))> = result
            .room_candidate_entities
            .iter()
            .map(|(id, e)| (*id, e.index, e.origin))
            .collect();
        (rooms, result.room_candidate_connections)
    };
    assert_eq!(run(7), run(7));
}

#[test]
fn a_limit_of_one_room_places_only_the_first() {
    let config = CEDConfig { room_size_max: 1, ..Default::default() };
    let mut rng = StdRng::seed_from_u64(3);
    let result = generate_ced(config, &mut rng).unwrap();
    assert_eq!(result.room_candidate_entities.len(), 1);
    assert_eq!(result.room_candidate_entities[&1].origin, (0, 0, 0));
    assert!(result.room_candidate_connections.is_empty());
}
