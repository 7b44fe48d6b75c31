use dungeon_3d_generator::constants::directions;
use dungeon_3d_generator::constants::Direction4;
use dungeon_3d_generator::constants::DirectionSet;
use dungeon_3d_generator::create_start::create_start;
use dungeon_3d_generator::create_start::create_start_beside;
use dungeon_3d_generator::key_order::compare_keys;
use dungeon_3d_generator::key_order::KeyOrder;
use dungeon_3d_generator::room::Room;
use dungeon_3d_generator::room::RoomId;
use dungeon_3d_generator::room_connection::connect_all;
use dungeon_3d_generator::room_connection::normalized_pair;
use dungeon_3d_generator::room_connection::RoomConnection;

#[test]
fn opposites_are_geometric() {
    assert!(Direction4::Left.is_opposite(&Direction4::Right));
    assert!(Direction4::Right.is_opposite(&Direction4::Left));
    assert!(Direction4::Far.is_opposite(&Direction4::Near));
    assert!(Direction4::Near.is_opposite(&Direction4::Far));
    assert!(!Direction4::Near.is_opposite(&Direction4::Right));
    for d in directions() {
        assert!(!d.is_opposite(&d));
        assert_eq!(d.opposite().opposite(), d);
        let v = d.to_vec3();
        let w = d.opposite().to_vec3();
        assert_eq!((v.0 + w.0, v.1 + w.1, v.2 + w.2), (0, 0, 0));
    }
}

#[test]
fn unit_steps() {
    assert_eq!(Direction4::Left.to_vec3(), (-1, 0, 0));
    assert_eq!(Direction4::Right.to_vec3(), (1, 0, 0));
    assert_eq!(Direction4::Far.to_vec3(), (0, 0, -1));
    assert_eq!(Direction4::Near.to_vec3(), (0, 0, 1));
}

#[test]
fn direction_sets() {
    let mut set = DirectionSet::new();
    assert!(set.to_vec().is_empty());
    assert!(set.insert(Direction4::Near));
    assert!(set.insert(Direction4::Left));
    assert!(!set.insert(Direction4::Near));
    assert_eq!(set.to_vec(), vec![Direction4::Left, Direction4::Near]);
    assert!(set.contains(&Direction4::Left));
    assert!(!set.contains(&Direction4::Far));
    assert!(DirectionSet::all().is_superset(&set));
    assert!(!set.is_superset(&DirectionSet::all()));
    let forward = DirectionSet::all_but_opposite(Direction4::Near);
    assert_eq!(
        forward.to_vec(),
        vec![Direction4::Left, Direction4::Right, Direction4::Near]
    );
}

#[test]
fn room_ids_count_up() {
    let mut counter = RoomId::first();
    assert_eq!(counter.inner(), 1);
    let a = counter.gen_id();
    let b = counter.gen_id();
    assert_eq!(a.inner(), 1);
    assert_eq!(b.inner(), 2);
    assert_eq!(counter.inner(), 3);
    assert!(a < b);
}

#[test]
fn room_geometry() {
    let mut counter = RoomId::first();
    let a = Room::new(counter.gen_id(), 3, 2, 5, (1, 4, 7));
    assert_eq!(a.end(), (4, 6, 12));
    assert_eq!(a.center_doubled(), (5, 10, 19));
    let near = Room::new(counter.gen_id(), 2, 2, 2, (5, 4, 7));
    let far = Room::new(counter.gen_id(), 2, 2, 2, (9, 4, 7));
    assert!(a.is_contract(&near, 1));
    assert!(!a.is_contract(&near, 0));
    assert!(!a.is_contract(&far, 1));
    assert!(a.is_contract(&far, 5));
    assert!(far.is_contract(&a, 5));
}

#[test]
fn squared_length_is_the_floor_of_the_squared_centre_distance() {
    let mut counter = RoomId::first();
    let a = Room::new(counter.gen_id(), 3, 2, 3, (0, 0, 0));
    let b = Room::new(counter.gen_id(), 4, 2, 2, (10, 3, 0));
    let c = RoomConnection::new(&a, &b);
    // centres (1.5, 1, 1.5) and (12, 4, 1): 110.25 + 9 + 0.25 = 119.5
    assert_eq!(c.squared_length, 119);
    assert_eq!(c.edge(), (1, 2, 119));
    assert_eq!(c.key(), (1, 2));
    assert_eq!(RoomConnection::new(&b, &a).key(), (1, 2));
    assert_eq!(normalized_pair((9, 4)), (4, 9));
}

#[test]
fn every_room_is_connected_with_every_later_room() {
    let mut counter = RoomId::first();
    let rooms: Vec<Room> = (0..4)
        .map(|i| Room::new(counter.gen_id(), 2, 2, 2, (i * 5, 0, 0)))
        .collect();
    let pairs: Vec<(u64, u64)> = connect_all(&rooms)
        .iter()
        .map(|c| (c.room0_id.inner(), c.room1_id.inner()))
        .collect();
    assert_eq!(pairs, vec![(1, 2), (1, 3), (1, 4), (2, 3), (2, 4), (3, 4)]);
}

#[test]
fn start_leaves_the_lower_room_at_its_boundary() {
    let mut counter = RoomId::first();
    let low = Room::new(counter.gen_id(), 4, 2, 4, (2, 0, 2));
    let high = Room::new(counter.gen_id(), 4, 2, 4, (10, 3, 2));
    let (from, to, p, dirs) = create_start(&high, &low, Some((6, 4)));
    assert_eq!((from, to), (low.id, high.id));
    assert_eq!(p, (5, 0, 4));
    assert_eq!(dirs.to_vec(), vec![Direction4::Right]);

    let (_, _, p, dirs) = create_start(&low, &high, Some((2, 6)));
    assert_eq!(p, (2, 0, 5));
    assert_eq!(dirs.to_vec(), vec![Direction4::Left, Direction4::Near]);

    let (_, _, p, dirs) = create_start(&low, &high, Some((3, 2)));
    assert_eq!(p, (3, 0, 2));
    assert_eq!(dirs.to_vec(), vec![Direction4::Far]);

    let (_, _, p, dirs) = create_start(&low, &high, Some((3, 3)));
    assert_eq!(p, (3, 0, 3));
    assert!(dirs.to_vec().is_empty());

    let (from, _, p, dirs) = create_start(&low, &high, None);
    assert_eq!(from, low.id);
    assert_eq!(p, (2, 0, 2));
    assert_eq!(dirs.to_vec(), vec![Direction4::Left, Direction4::Far]);
}

#[test]
fn equally_low_rooms_start_at_the_first() {
    let mut counter = RoomId::first();
    let a = Room::new(counter.gen_id(), 4, 2, 4, (2, 0, 2));
    let b = Room::new(counter.gen_id(), 4, 2, 4, (10, 0, 2));
    assert_eq!(create_start(&a, &b, None).0, a.id);
    assert_eq!(create_start(&b, &a, None).0, b.id);
}

#[test]
fn keys_compare_by_their_own_order() {
    assert_eq!(compare_keys(&1, &2), KeyOrder::Less);
    assert_eq!(compare_keys(&2, &2), KeyOrder::Equal);
    assert_eq!(compare_keys(&"b", &"a"), KeyOrder::Greater);
}

#[test]
fn the_first_generator_starts_beside_or_inside_the_lower_room() {
    let mut counter = RoomId::first();
    let low = Room::new(counter.gen_id(), 4, 2, 4, (2, 0, 2));
    let high = Room::new(counter.gen_id(), 4, 2, 4, (10, 3, 2));
    assert_eq!(
        create_start_beside(&high, &low, Some((6, 6))),
        (low.id, high.id, (5, 0, 6))
    );
    assert_eq!(
        create_start_beside(&low, &high, Some((3, 6))),
        (low.id, high.id, (3, 0, 5))
    );
    assert_eq!(
        create_start_beside(&low, &high, Some((2, 3))),
        (low.id, high.id, (2, 0, 3))
    );
    assert_eq!(
        create_start_beside(&low, &high, None),
        (low.id, high.id, (1, 0, 2))
    );
}
