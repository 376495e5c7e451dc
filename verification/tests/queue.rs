use bloom::queue::BoundedVecDeque;

#[test]
fn test_bounded_vec_deque() {
    let mut q: BoundedVecDeque<i32> = BoundedVecDeque::new(3);
    q.push_back(1);
    q.push_back(2);
    q.push_back(3);

    assert!(*q.get(0).unwrap() == 1);

    q.push_back(4);
    assert!(*q.get(0).unwrap() == 2);
    assert!(*q.get(2).unwrap() == 4);

    println!("{:?}", q);
}

#[test]
fn push_back_reports_eviction() {
    let mut q: BoundedVecDeque<i32> = BoundedVecDeque::new(2);
    assert_eq!(q.push_back(1), None);
    assert_eq!(q.push_back(2), None);
    assert!(q.is_full());
    assert_eq!(q.push_back(3), Some(1));
    assert_eq!(q.len(), 2);
}

#[test]
fn push_front_evicts_from_back() {
    let mut q: BoundedVecDeque<i32> = BoundedVecDeque::new(2);
    q.push_front(1);
    q.push_front(2);
    assert_eq!(q.push_front(3), Some(1));
    assert_eq!(*q.get(0).unwrap(), 3);
    assert_eq!(*q.get(1).unwrap(), 2);
}

#[test]
fn zero_bound_rejects_the_item() {
    let mut q: BoundedVecDeque<i32> = BoundedVecDeque::new(0);
    assert_eq!(q.push_back(7), Some(7));
    assert_eq!(q.push_front(8), Some(8));
    assert_eq!(q.len(), 0);
}

#[test]
fn pop_and_remove() {
    let mut q: BoundedVecDeque<i32> = BoundedVecDeque::new(5);
    for i in 1..=4 {
        q.push_back(i);
    }
    assert_eq!(q.pop_front(), Some(1));
    assert_eq!(q.pop_back(), Some(4));
    assert_eq!(q.remove(1), Some(3));
    assert_eq!(q.remove(5), None);
    assert_eq!(q.len(), 1);
    assert_eq!(q.capacity(), 5);
}

#[test]
fn extend_with_grows_the_bound() {
    let mut q: BoundedVecDeque<i32> = BoundedVecDeque::new(1);
    q.push_back(1);
    assert!(q.is_full());
    q.extend_with(2);
    assert_eq!(q.capacity(), 2);
    assert_eq!(q.len(), 2);
    assert_eq!(*q.get(1).unwrap(), 2);
}

#[test]
fn iter_walks_front_to_back() {
    let mut q: BoundedVecDeque<i32> = BoundedVecDeque::new(3);
    q.push_back(1);
    q.push_back(2);
    q.push_back(3);
    let seen: Vec<i32> = q.iter().iter().copied().collect();
    assert_eq!(seen, vec![1, 2, 3]);
}
