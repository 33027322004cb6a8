use std::collections::VecDeque;

use sum_search::frontier::Container;

#[test]
fn stack_is_lifo() {
    let mut s: Vec<usize> = Vec::new();
    s.put(1);
    s.put(2);
    s.put(3);
    assert_eq!(Container::get(&mut s), Some(3));
    assert_eq!(Container::get(&mut s), Some(2));
    assert_eq!(Container::get(&mut s), Some(1));
    assert_eq!(Container::get(&mut s), None);
}

#[test]
fn queue_is_fifo() {
    let mut q: VecDeque<usize> = VecDeque::new();
    q.put(1);
    q.put(2);
    q.put(3);
    assert_eq!(Container::get(&mut q), Some(1));
    assert_eq!(Container::get(&mut q), Some(2));
    assert_eq!(Container::get(&mut q), Some(3));
    assert_eq!(Container::get(&mut q), None);
}

#[test]
fn extend_acts_as_bulk_put() {
    let mut s: Vec<usize> = Vec::new();
    s.put(9);
    s.extend_from(&vec![4, 5, 6]);
    assert_eq!(Container::get(&mut s), Some(6));
    assert_eq!(Container::get(&mut s), Some(5));
    assert_eq!(Container::get(&mut s), Some(4));
    assert_eq!(Container::get(&mut s), Some(9));

    let mut q: VecDeque<usize> = VecDeque::new();
    q.put(9);
    q.extend_from(&vec![4, 5, 6]);
    assert_eq!(Container::get(&mut q), Some(9));
    assert_eq!(Container::get(&mut q), Some(4));
    assert_eq!(Container::get(&mut q), Some(5));
    assert_eq!(Container::get(&mut q), Some(6));
}
