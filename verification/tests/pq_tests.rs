use djikstra::pq::PriorityQueue;

#[test]
fn removes_minimum() {
    let numbers = vec![(-1, 1), (3, 3), (2, 2), (4, 4)];
    let mut pq = PriorityQueue::from_keys_values(numbers);
    assert_eq!(pq.extract_min(), Some((-1, 1)));
    assert_eq!(pq.extract_min(), Some((2, 2)))
}

#[test]
fn changes_key() {
    let numbers = vec![(0, 0), (1, usize::MAX), (2, usize::MAX), (3, usize::MAX)];
    let mut pq = PriorityQueue::from_keys_values(numbers);
    // check for key increase
    pq.change_key(&1, 4);
    pq.change_key(&2, 1);
    pq.extract_min();
    assert_eq!(pq.extract_min(), Some((2, 1)));

    // check for key decrease
}

#[test]
fn returns_none_when_empty() {
    let mut pq: PriorityQueue<usize> = PriorityQueue::new();
    let min = pq.extract_min();
    assert_eq!(min, None)
}

#[test]
fn from_keys_all_infinity() {
    let mut pq: PriorityQueue<u32> = PriorityQueue::from_keys(vec![7, 8, 9]);
    let mut seen = Vec::new();
    for _ in 0..3 {
        let (e, k) = pq.extract_min().unwrap();
        assert_eq!(k, usize::MAX);
        seen.push(e);
    }
    seen.sort();
    assert_eq!(seen, vec![7, 8, 9]);
    assert_eq!(pq.extract_min(), None);
}

#[test]
fn insert_overwrites_key() {
    let mut pq: PriorityQueue<i64> = PriorityQueue::new();
    pq.insert(5, 10);
    pq.insert(6, 3);
    pq.insert(5, 1);
    assert_eq!(pq.extract_min(), Some((5, 1)));
    assert_eq!(pq.extract_min(), Some((6, 3)));
    assert_eq!(pq.extract_min(), None);
}

#[test]
fn change_key_absent_is_noop() {
    let mut pq: PriorityQueue<usize> = PriorityQueue::new();
    pq.insert(1, 2);
    pq.change_key(&9, 0);
    assert_eq!(pq.extract_min(), Some((1, 2)));
    assert_eq!(pq.extract_min(), None);
}

#[test]
fn decreased_key_comes_out_before_higher_keys() {
    let mut pq: PriorityQueue<usize> = PriorityQueue::from_keys(vec![0, 1, 2, 3]);
    pq.change_key(&2, 5);
    let (e, k) = pq.extract_min().unwrap();
    assert_eq!((e, k), (2, 5));
}
