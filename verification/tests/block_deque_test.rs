use mem_etcd::block_deque::BlockDeque;

#[test]
fn basic_test() {
    const BLOCK_SIZE: usize = 4;
    let mut deque = BlockDeque::<i32, BLOCK_SIZE>::new();

    // Push values 0..8
    for i in 16..24 {
        deque.push(i);
    }
    assert_eq!(deque.len(), 8);

    // Check gets
    for i in 0..8 {
        assert_eq!(deque.get(i), Ok(i as i32 + 16));
    }
    // No value at index 8
    assert_eq!(deque.get(8), Err(()));

    // Set a new value
    deque.set(3, 999);
    assert_eq!(deque.get(3), Ok(999));
}

#[test]
fn remove_before_test_one_block() {
    const BLOCK_SIZE: usize = 4;
    let mut deque = BlockDeque::<i32, BLOCK_SIZE>::new();

    deque.push(1);
    deque.push(2);
    assert_eq!(deque.remove_before(1), Ok(()));
    assert_eq!(deque.len(), 1);
    assert_eq!(deque.get(0), Err(()));
    assert_eq!(deque.get(1), Ok(2));
}

#[test]
fn remove_before_test_two_blocks() {
    const BLOCK_SIZE: usize = 4;
    let mut deque = BlockDeque::<i32, BLOCK_SIZE>::new();

    for i in 0..11 {
        deque.push(i);
    }
    assert_eq!(deque.len(), 11);
    assert_eq!(deque.remove_before(10), Ok(()));
    assert_eq!(deque.len(), 1);
    assert_eq!(deque.get(10), Ok(10));

    deque.push(11);
    deque.push(12);
    deque.push(13);
    assert_eq!(deque.get(10), Ok(10));
    assert_eq!(deque.get(11), Ok(11));
    assert_eq!(deque.get(12), Ok(12));
    assert_eq!(deque.get(13), Ok(13));

    assert_eq!(deque.remove_before(12), Ok(()));
    assert_eq!(deque.len(), 2);
    assert_eq!(deque.get(12), Ok(12));
    assert_eq!(deque.get(13), Ok(13));
}

#[test]
fn remove_before_test_across_blocks() {
    const BLOCK_SIZE: usize = 10;
    let mut deque = BlockDeque::<i32, BLOCK_SIZE>::new();

    for i in 0..15 {
        deque.push(i);
    }

    deque.remove_before(9).unwrap();
    deque.remove_before(13).unwrap();
}

#[test]
fn push_returns_consecutive_indices() {
    let mut deque = BlockDeque::<u64, 3>::new();
    for i in 0..10usize {
        assert_eq!(deque.push(i as u64 * 7), i);
        assert_eq!(deque.latest_revision(), i + 1);
    }
    assert_eq!(deque.earliest_revision(), 0);
    for i in 0..10usize {
        assert_eq!(deque.get(i), Ok(i as u64 * 7));
    }
}

#[test]
fn set_outside_live_range_is_refused() {
    let mut deque = BlockDeque::<u8, 2>::new();
    assert!(!deque.set(0, 1));
    deque.push(5);
    deque.push(6);
    deque.push(7);
    assert!(deque.set(2, 9));
    assert!(!deque.set(3, 9));
    deque.remove_before(2).unwrap();
    assert!(!deque.set(1, 4));
    assert_eq!(deque.get(1), Err(()));
    assert_eq!(deque.get(2), Ok(9));
}

#[test]
fn remove_before_out_of_range_changes_nothing() {
    let mut deque = BlockDeque::<u8, 4>::new();
    for i in 0..6 {
        deque.push(i);
    }
    assert_eq!(deque.remove_before(7), Err(()));
    assert_eq!(deque.remove_before(3), Ok(()));
    assert_eq!(deque.remove_before(2), Err(()));
    assert_eq!(deque.earliest_revision(), 3);
    assert_eq!(deque.len(), 3);
    assert_eq!(deque.latest_revision(), 6);
    assert_eq!(deque.remove_before(6), Ok(()));
    assert_eq!(deque.len(), 0);
    assert_eq!(deque.push(42), 6);
    assert_eq!(deque.get(6), Ok(42));
}

#[test]
fn get_with_sees_none_outside_live_range() {
    let mut deque = BlockDeque::<u8, 4>::new();
    deque.push(3);
    assert_eq!(deque.get_with(0, |x: &Option<u8>| x.map(|v| v + 1)), Some(4));
    assert_eq!(deque.get_with(1, |x: &Option<u8>| x.is_none()), true);
}
