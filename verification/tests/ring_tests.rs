use ring_buffer::RingBuffer;

#[test]
fn test_ring_buffer() {
    let mut ring_buffer: RingBuffer<i32, 3> = RingBuffer::default();
    assert_eq!(ring_buffer.size(), 0);

    ring_buffer.push(1);
    assert_eq!(ring_buffer.size(), 1);

    ring_buffer.push(2);
    assert_eq!(ring_buffer.size(), 2);

    ring_buffer.push(3);
    assert_eq!(ring_buffer.size(), 3);

    ring_buffer.push(4);
    assert_eq!(ring_buffer.size(), 3);

    assert_eq!(ring_buffer.pop(), Some(2));
    assert_eq!(ring_buffer.size(), 2);

    assert_eq!(ring_buffer.pop(), Some(3));
    assert_eq!(ring_buffer.size(), 1);

    assert_eq!(ring_buffer.pop(), Some(4));
    assert_eq!(ring_buffer.size(), 0);

    assert_eq!(ring_buffer.pop(), None);
    assert_eq!(ring_buffer.size(), 0);

    ring_buffer.push(5);
    assert_eq!(ring_buffer.size(), 1);

    ring_buffer.push(6);
    assert_eq!(ring_buffer.size(), 2);

    ring_buffer.push(7);
    assert_eq!(ring_buffer.size(), 3);

    ring_buffer.push(8);
    assert_eq!(ring_buffer.size(), 3);

    ring_buffer.clear();
    assert_eq!(ring_buffer.size(), 0);
}

#[test]
fn test_size_counts_insertions_within_capacity() {
    let mut rb: RingBuffer<u64, 5> = RingBuffer::default();
    for i in 0..5u64 {
        assert_eq!(rb.size(), i as usize);
        rb.push(i * 100);
    }
    assert_eq!(rb.size(), 5);
}

#[test]
fn test_pop_returns_insertion_order() {
    let mut rb: RingBuffer<i32, 4> = RingBuffer::default();
    rb.push(7);
    rb.push(8);
    rb.push(9);
    assert_eq!(rb.pop(), Some(7));
    assert_eq!(rb.pop(), Some(8));
    assert_eq!(rb.pop(), Some(9));
    assert_eq!(rb.pop(), None);
}

#[test]
fn test_eviction_keeps_trailing_window() {
    let mut rb: RingBuffer<i32, 3> = RingBuffer::default();
    rb.push(1);
    rb.push(2);
    rb.push(3);
    rb.push(4);
    // The oldest element was evicted: contents oldest-first are [2, 3, 4].
    let mut it = rb.iter();
    assert_eq!(it.next(), Some(&2));
    assert_eq!(it.next(), Some(&3));
    assert_eq!(it.next(), Some(&4));
    assert_eq!(it.next(), None);

    rb.push(5);
    rb.push(6);
    rb.push(7);
    rb.push(8);
    // Four more insertions slide the window again: [6, 7, 8].
    let mut it2 = rb.iter();
    assert_eq!(it2.next(), Some(&6));
    assert_eq!(it2.next(), Some(&7));
    assert_eq!(it2.next(), Some(&8));
    assert_eq!(it2.next(), None);
}

#[test]
fn test_clear_is_idempotent_on_empty() {
    let mut rb: RingBuffer<i32, 3> = RingBuffer::default();
    assert_eq!(rb.size(), 0);
    rb.clear();
    assert_eq!(rb.size(), 0);
    rb.clear();
    assert_eq!(rb.size(), 0);
}

#[test]
fn test_handle_all_invokes_in_order_and_empties() {
    let mut rb: RingBuffer<i32, 4> = RingBuffer::default();
    rb.push(10);
    rb.push(20);
    rb.push(30);
    let seen: std::cell::RefCell<Vec<i32>> = std::cell::RefCell::new(Vec::new());
    rb.handle_all(|v: i32| seen.borrow_mut().push(v));
    assert_eq!(rb.size(), 0);
    // The handler ran exactly once per element, oldest first.
    assert_eq!(seen.into_inner(), vec![10, 20, 30]);
}

#[test]
fn test_handle_all_on_empty_buffer() {
    let mut rb: RingBuffer<i32, 4> = RingBuffer::default();
    let seen: std::cell::RefCell<Vec<i32>> = std::cell::RefCell::new(Vec::new());
    rb.handle_all(|v: i32| seen.borrow_mut().push(v));
    assert_eq!(rb.size(), 0);
    assert_eq!(seen.into_inner(), Vec::<i32>::new());
}

#[test]
fn test_iteration_visits_all_and_mutates_nothing() {
    let mut rb: RingBuffer<i32, 3> = RingBuffer::default();
    rb.push(4);
    rb.push(5);
    rb.push(6);

    let mut first: Vec<i32> = Vec::new();
    let mut it = rb.iter();
    while let Some(v) = it.next() {
        first.push(*v);
    }
    assert_eq!(first.len(), rb.size());
    assert_eq!(first, vec![4, 5, 6]);

    // A second traversal yields the same sequence: nothing was consumed.
    let mut second: Vec<i32> = Vec::new();
    let mut it2 = rb.iter();
    while let Some(v) = it2.next() {
        second.push(*v);
    }
    assert_eq!(first, second);
    assert_eq!(rb.size(), 3);
    assert_eq!(rb.pop(), Some(4));
}

#[test]
fn test_iteration_on_empty_buffer() {
    let rb: RingBuffer<i32, 3> = RingBuffer::default();
    let mut it = rb.iter();
    assert_eq!(it.next(), None);
    assert_eq!(it.next(), None);
}

#[test]
fn test_iteration_wraps_around_storage() {
    let mut rb: RingBuffer<i32, 3> = RingBuffer::default();
    rb.push(1);
    rb.push(2);
    rb.push(3);
    assert_eq!(rb.pop(), Some(1));
    rb.push(4);
    // The live arc now wraps around the end of the storage row.
    let mut it = rb.iter();
    assert_eq!(it.next(), Some(&2));
    assert_eq!(it.next(), Some(&3));
    assert_eq!(it.next(), Some(&4));
    assert_eq!(it.next(), None);
}

#[test]
fn test_last_borrows_newest() {
    let mut rb: RingBuffer<i32, 3> = RingBuffer::default();
    assert_eq!(rb.last(), None);
    rb.push(1);
    assert_eq!(rb.last(), Some(&1));
    rb.push(2);
    rb.push(3);
    assert_eq!(rb.last(), Some(&3));
    rb.push(4);
    assert_eq!(rb.last(), Some(&4));
    // Peeking removed nothing.
    assert_eq!(rb.size(), 3);
}

#[test]
fn test_from_vec_within_capacity() {
    let rb: RingBuffer<i32, 5> = RingBuffer::from_vec(vec![1, 2, 3]);
    let mut it = rb.iter();
    assert_eq!(it.next(), Some(&1));
    assert_eq!(it.next(), Some(&2));
    assert_eq!(it.next(), Some(&3));
    assert_eq!(it.next(), None);
    assert_eq!(rb.size(), 3);
}

#[test]
fn test_from_vec_beyond_capacity() {
    let mut rb: RingBuffer<i32, 3> = RingBuffer::from_vec(vec![1, 2, 3, 4, 5]);
    assert_eq!(rb.size(), 3);
    assert_eq!(rb.pop(), Some(3));
    assert_eq!(rb.pop(), Some(4));
    assert_eq!(rb.pop(), Some(5));
    assert_eq!(rb.pop(), None);
}

#[test]
fn test_single_slot_buffer() {
    let mut rb: RingBuffer<i32, 1> = RingBuffer::default();
    rb.push(1);
    assert_eq!(rb.size(), 1);
    rb.push(2);
    assert_eq!(rb.size(), 1);
    assert_eq!(rb.last(), Some(&2));
    assert_eq!(rb.pop(), Some(2));
    assert_eq!(rb.pop(), None);
}

#[test]
fn test_size_formula_in_wrapped_state() {
    let mut rb: RingBuffer<i32, 4> = RingBuffer::default();
    rb.push(1);
    rb.push(2);
    rb.push(3);
    rb.push(4);
    assert_eq!(rb.pop(), Some(1));
    assert_eq!(rb.pop(), Some(2));
    rb.push(5);
    rb.push(6);
    // The live arc wraps: oldest sits past the write cursor.
    assert_eq!(rb.size(), 4);
    rb.push(7);
    assert_eq!(rb.size(), 4);
    assert_eq!(rb.pop(), Some(4));
    assert_eq!(rb.size(), 3);
}
