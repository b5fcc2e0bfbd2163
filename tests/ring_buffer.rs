use capstan::ring_buffer::RingBuffer;

#[test]
fn test_send_then_recv_returns_value() {
    let mut ring_buffer: RingBuffer<i32> = RingBuffer::new(1);
    ring_buffer.try_send(42).unwrap();
    assert_eq!(ring_buffer.try_recv(), Some(42));
}

#[test]
fn test_empty_recv_returns_none() {
    let mut ring_buffer: RingBuffer<i32> = RingBuffer::new(1);
    assert_eq!(ring_buffer.try_recv(), None);
}

#[test]
fn test_full_send_returns_err() {
    let mut ring_buffer: RingBuffer<i32> = RingBuffer::new(1);
    ring_buffer.try_send(42).unwrap();
    assert_eq!(ring_buffer.try_send(43), Err(43));
}

#[test]
fn test_fifo_order() {
    let mut ring_buffer: RingBuffer<i32> = RingBuffer::new(3);
    ring_buffer.try_send(1).unwrap();
    ring_buffer.try_send(2).unwrap();
    ring_buffer.try_send(3).unwrap();
    assert_eq!(ring_buffer.try_recv(), Some(1));
    assert_eq!(ring_buffer.try_recv(), Some(2));
    assert_eq!(ring_buffer.try_recv(), Some(3));
}

#[test]
fn fifo_order_across_wraparound() {
    let mut ring_buffer: RingBuffer<u32> = RingBuffer::new(3);
    let mut expected = 0u32;
    let mut next = 0u32;
    for _ in 0..10 {
        ring_buffer.try_send(next).unwrap();
        next += 1;
        ring_buffer.try_send(next).unwrap();
        next += 1;
        assert_eq!(ring_buffer.try_recv(), Some(expected));
        expected += 1;
        assert_eq!(ring_buffer.try_recv(), Some(expected));
        expected += 1;
    }
    assert_eq!(ring_buffer.try_recv(), None);
}

#[test]
fn capacity_accepts_exactly_capacity_sends() {
    let mut ring_buffer: RingBuffer<u8> = RingBuffer::new(4);
    for v in 0..4u8 {
        assert!(!ring_buffer.is_full());
        assert_eq!(ring_buffer.try_send(v), Ok(()));
    }
    assert!(ring_buffer.is_full());
    assert_eq!(ring_buffer.try_send(9), Err(9));
    assert_eq!(ring_buffer.try_recv(), Some(0));
    assert!(!ring_buffer.is_full());
    assert_eq!(ring_buffer.try_send(9), Ok(()));
    assert_eq!(ring_buffer.try_send(10), Err(10));
    for v in [1u8, 2, 3, 9] {
        assert_eq!(ring_buffer.try_recv(), Some(v));
    }
    assert!(ring_buffer.is_empty());
}

#[test]
fn empty_and_full_flags_on_new_queue() {
    let ring_buffer: RingBuffer<String> = RingBuffer::new(2);
    assert!(ring_buffer.is_empty());
    assert!(!ring_buffer.is_full());
}

#[test]
fn failed_send_leaves_queue_unchanged() {
    let mut ring_buffer: RingBuffer<String> = RingBuffer::new(1);
    ring_buffer.try_send("a".to_string()).unwrap();
    assert_eq!(ring_buffer.try_send("b".to_string()), Err("b".to_string()));
    assert_eq!(ring_buffer.try_recv(), Some("a".to_string()));
    assert_eq!(ring_buffer.try_recv(), None);
    assert!(ring_buffer.is_empty());
}
