use toid::ring_buffer::RingBuffer;

#[test]
fn ring_buffer_starts_full_of_the_initial_value() {
    let ring = RingBuffer::new(3, 7u32);
    assert_eq!(ring.len(), 3);
    for i in 0..3 {
        assert_eq!(*ring.get(i), 7);
    }
}

#[test]
fn ring_buffer_push_evicts_oldest() {
    let mut ring = RingBuffer::new(3, 0u32);
    ring.push(1);
    ring.push(2);
    assert_eq!((*ring.get(0), *ring.get(1), *ring.get(2)), (0, 1, 2));
    ring.push(3);
    assert_eq!((*ring.get(0), *ring.get(1), *ring.get(2)), (1, 2, 3));
    ring.push(4);
    ring.push(5);
    assert_eq!((*ring.get(0), *ring.get(1), *ring.get(2)), (3, 4, 5));
    assert_eq!(ring.len(), 3);
}

#[test]
fn ring_buffer_counts_from_newest() {
    let mut ring = RingBuffer::from_vec(vec![10, 20, 30, 40]);
    assert_eq!(*ring.from_newest(0), 40);
    assert_eq!(*ring.from_newest(3), 10);
    ring.push(50);
    assert_eq!(*ring.from_newest(0), 50);
    assert_eq!(*ring.from_newest(1), 40);
    assert_eq!(*ring.from_newest(3), 20);
}

#[test]
fn ring_buffer_of_one_holds_the_last_push() {
    let mut ring = RingBuffer::new(1, String::from("a"));
    ring.push(String::from("b"));
    assert_eq!(ring.get(0), "b");
    ring.push(String::from("c"));
    assert_eq!(ring.from_newest(0), "c");
}
