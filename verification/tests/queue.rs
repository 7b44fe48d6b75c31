use dungeon_3d_generator::btree_key_values::BTreeKeyValues;

fn sample() -> BTreeKeyValues<i32, &'static str> {
    let mut queue: BTreeKeyValues<i32, &str> = BTreeKeyValues::default();
    queue.push_back(5, "five-a");
    queue.push_back(3, "three-a");
    queue.push_back(5, "five-b");
    queue.push_back(3, "three-b");
    queue.push_back(1, "one");
    queue
}

#[test]
fn pops_smallest_key_first_and_oldest_value_first() {
    let mut queue = sample();
    assert_eq!(queue.len(), 3);
    assert_eq!(queue.pop_first_back(), Some("one"));
    assert_eq!(queue.pop_first_back(), Some("three-a"));
    assert_eq!(queue.pop_first_back(), Some("three-b"));
    assert_eq!(queue.len(), 1);
    assert_eq!(queue.pop_first_back(), Some("five-a"));
    assert_eq!(queue.pop_first_back(), Some("five-b"));
    assert_eq!(queue.pop_first_back(), None);
    assert!(queue.is_empty());
}

#[test]
fn key_disappears_with_its_last_value() {
    let mut queue: BTreeKeyValues<u64, u8> = BTreeKeyValues::new();
    queue.push_back(7, 1);
    queue.push_back(9, 2);
    assert_eq!(queue.len(), 2);
    assert_eq!(queue.pop_first_back(), Some(1));
    assert_eq!(queue.len(), 1);
    let keys: Vec<u64> = queue.iter().into_iter().map(|(k, _)| *k).collect();
    assert_eq!(keys, vec![9]);
}

#[test]
fn a_pushed_value_never_overtakes_an_older_one_of_the_same_key() {
    let mut queue: BTreeKeyValues<u64, u32> = BTreeKeyValues::new();
    for value in 0..100u32 {
        queue.push_back(u64::from(value % 3), value);
    }
    let drained = queue.into_vec();
    let mut expected: Vec<u32> = Vec::new();
    for key in 0..3u32 {
        for value in 0..100u32 {
            if value % 3 == key {
                expected.push(value);
            }
        }
    }
    assert_eq!(drained, expected);
}

#[test]
fn push_front_puts_the_value_first_under_its_key() {
    let mut queue = sample();
    queue.push_front(3, "three-first");
    queue.push_front(0, "zero");
    assert_eq!(queue.pop_first_back(), Some("zero"));
    assert_eq!(queue.pop_first_back(), Some("one"));
    assert_eq!(queue.pop_first_back(), Some("three-first"));
    assert_eq!(queue.pop_first_back(), Some("three-a"));
}

#[test]
fn pop_last_back_takes_the_front_of_the_greatest_key() {
    let mut queue = sample();
    assert_eq!(queue.pop_last_back(), Some("five-a"));
    assert_eq!(queue.pop_last_back(), Some("five-b"));
    assert_eq!(queue.pop_last_back(), Some("three-a"));
    assert_eq!(queue.len(), 2);
    assert_eq!(queue.pop_last_back(), Some("three-b"));
    assert_eq!(queue.pop_last_back(), Some("one"));
    assert_eq!(queue.pop_last_back(), None);
}

#[test]
fn remove_takes_the_first_equal_value() {
    let mut queue: BTreeKeyValues<i32, i32> = BTreeKeyValues::new();
    queue.push_back(1, 10);
    queue.push_back(1, 20);
    queue.push_back(1, 10);
    queue.push_back(2, 30);
    assert_eq!(queue.remove(&1, &10), Some(10));
    assert_eq!(queue.remove(&1, &99), None);
    assert_eq!(queue.remove(&3, &10), None);
    assert_eq!(queue.remove(&2, &30), Some(30));
    assert_eq!(queue.len(), 1);
    assert_eq!(queue.into_vec(), vec![20, 10]);
}

#[test]
fn first_key_value_shows_what_pop_would_take() {
    let mut queue = sample();
    assert_eq!(queue.first_key_value(), Some((&1, &"one")));
    queue.pop_first_back();
    assert_eq!(queue.first_key_value(), Some((&3, &"three-a")));
    queue.clear();
    assert_eq!(queue.first_key_value(), None);
    assert!(queue.is_empty());
    assert_eq!(queue.len(), 0);
}

#[test]
fn iter_walks_keys_in_order_and_values_in_arrival_order() {
    let queue = sample();
    let seen: Vec<(i32, Vec<&str>)> = queue
        .iter()
        .into_iter()
        .map(|(k, values)| (*k, values.iter().copied().collect()))
        .collect();
    assert_eq!(
        seen,
        vec![
            (1, vec!["one"]),
            (3, vec!["three-a", "three-b"]),
            (5, vec!["five-a", "five-b"]),
        ]
    );
}

#[test]
fn range_is_half_open() {
    let queue = sample();
    let keys: Vec<i32> = queue.range(&1, &5).into_iter().map(|(k, _)| *k).collect();
    assert_eq!(keys, vec![1, 3]);
    let keys: Vec<i32> = queue.range(&2, &6).into_iter().map(|(k, _)| *k).collect();
    assert_eq!(keys, vec![3, 5]);
    assert!(queue.range(&4, &4).is_empty());
}

#[test]
fn vec_from_queue_drains_in_pop_order() {
    let queue = sample();
    let values: Vec<&str> = Vec::from(queue);
    assert_eq!(values, vec!["one", "three-a", "three-b", "five-a", "five-b"]);
}

#[test]
fn iter_mut_opens_every_queue_in_key_order() {
    let mut queue = sample();
    {
        let mut buckets = queue.iter_mut();
        let keys: Vec<i32> = buckets.iter().map(|(k, _)| **k).collect();
        assert_eq!(keys, vec![1, 3, 5]);
        buckets[1].1.push_back("three-c");
        buckets[2].1.pop_front();
    }
    assert_eq!(
        queue.into_vec(),
        vec!["one", "three-a", "three-b", "three-c", "five-b"]
    );
}

#[test]
fn a_copy_of_the_queue_is_independent() {
    let mut queue = sample();
    let copy = queue.clone();
    assert_eq!(queue.pop_first_back(), Some("one"));
    assert_eq!(copy.len(), 3);
    assert_eq!(
        copy.into_vec(),
        vec!["one", "three-a", "three-b", "five-a", "five-b"]
    );
}

#[test]
fn range_mut_opens_the_queues_of_the_range_only() {
    let mut queue = sample();
    {
        let mut buckets = queue.range_mut(&2, &6);
        let keys: Vec<i32> = buckets.iter().map(|(k, _)| **k).collect();
        assert_eq!(keys, vec![3, 5]);
        buckets[0].1.push_front("three-first");
        buckets[1].1.pop_back();
    }
    assert!(queue.range_mut(&6, &9).is_empty());
    assert_eq!(
        queue.into_vec(),
        vec!["one", "three-first", "three-a", "three-b", "five-a"]
    );
}
