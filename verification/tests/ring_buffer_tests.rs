//! Tests for the ring buffer and its padded counters.

use hft_orderbook::ring_buffer::{CachePadding, OrderRingBuffer, PaddedSequence};

#[test]
fn padded_sequence_counts() {
    let _padding = CachePadding::new();
    let mut s = PaddedSequence::new(5);
    assert_eq!(s.get(), 5);
    s.set(7);
    assert_eq!(s.get(), 7);
    assert_eq!(s.increment_and_get(3), 10);
    assert_eq!(s.get(), 10);
}

#[test]
fn capacity_rounds_up_to_a_power_of_two() {
    let rb: OrderRingBuffer<u32> = OrderRingBuffer::new(5);
    assert_eq!(rb.capacity(), 8);
    let rb: OrderRingBuffer<u32> = OrderRingBuffer::new(8);
    assert_eq!(rb.capacity(), 8);
    let rb: OrderRingBuffer<u32> = OrderRingBuffer::new(0);
    assert_eq!(rb.capacity(), 1);
}

#[test]
fn push_then_pop_is_first_in_first_out() {
    let mut rb: OrderRingBuffer<u32> = OrderRingBuffer::new(4);
    assert!(rb.is_empty());
    assert_eq!(rb.push(1), Ok(()));
    assert_eq!(rb.push(2), Ok(()));
    assert_eq!(rb.push(3), Ok(()));
    assert_eq!(rb.len(), 3);
    assert_eq!(rb.peek(), Some(1));
    assert_eq!(rb.pop(), Some(1));
    assert_eq!(rb.pop(), Some(2));
    assert_eq!(rb.push(4), Ok(()));
    assert_eq!(rb.pop(), Some(3));
    assert_eq!(rb.pop(), Some(4));
    assert_eq!(rb.pop(), None);
    assert!(rb.is_empty());
}

#[test]
fn a_full_buffer_refuses_pushes() {
    let mut rb: OrderRingBuffer<u32> = OrderRingBuffer::new(2);
    assert_eq!(rb.push(1), Ok(()));
    assert_eq!(rb.push(2), Ok(()));
    assert!(rb.is_full());
    assert!(!rb.has_room());
    assert_eq!(rb.push(3), Err(3));
    assert_eq!(rb.push_blocking(3, 10), Err(3));
    assert_eq!(rb.pop_blocking(10), Some(1));
    assert_eq!(rb.push_blocking(3, 10), Ok(()));
}

#[test]
fn claim_and_publish() {
    let mut rb: OrderRingBuffer<u32> = OrderRingBuffer::new(4);
    let (seq, index) = rb.claim();
    assert_eq!((seq, index), (0, 0));
    rb.publish(seq, 10);
    let (start, index) = rb.claim_batch(2);
    assert_eq!((start, index), (1, 1));
    rb.publish_batch(start, &[11, 12]);
    assert_eq!(rb.publish_direct(13), 3);
    assert_eq!(rb.get(2), Some(12));
    assert_eq!(rb.try_next(), Some((0, 10)));
    assert_eq!(rb.try_next_batch(2), vec![(1, 11), (2, 12)]);
    assert_eq!(rb.try_next(), Some((3, 13)));
    assert_eq!(rb.try_next(), None);
}

#[test]
fn removed_items_are_skipped() {
    let mut rb: OrderRingBuffer<u32> = OrderRingBuffer::new(8);
    assert_eq!(rb.push_batch(&[1, 2, 3]), Ok(()));
    assert_eq!(rb.remove(1), Some(2));
    assert_eq!(rb.len(), 2);
    assert_eq!(rb.remove(1), None);
    assert_eq!(rb.get(1), None);
    assert!(rb.update(2, |x| x * 10));
    let mut it = rb.iter();
    // The iterator counts the sequences left to visit, the removed one too.
    assert_eq!(it.len(), 3);
    assert_eq!(it.size_hint(), (3, Some(3)));
    assert_eq!(it.next(), Some(1));
    assert_eq!(it.next(), Some(30));
    assert_eq!(it.next(), None);
    assert_eq!(rb.pop(), Some(1));
    assert_eq!(rb.pop(), Some(30));
    assert_eq!(rb.pop(), None);
}

#[test]
fn clear_empties_the_buffer() {
    let mut rb: OrderRingBuffer<u32> = OrderRingBuffer::new(4);
    assert_eq!(rb.push_batch(&[1, 2]), Ok(()));
    rb.clear();
    assert!(rb.is_empty());
    assert_eq!(rb.len(), 0);
    assert_eq!(rb.pop(), None);
    assert_eq!(rb.push_batch(&[1, 2, 3, 4, 5]), Err(()));
}

#[test]
fn length_counts_the_items_present() {
    let mut rb: OrderRingBuffer<String> = OrderRingBuffer::new(4);
    rb.push("a".to_string()).unwrap();
    rb.push("b".to_string()).unwrap();
    assert_eq!(rb.remove(0), Some("a".to_string()));
    assert_eq!(rb.get(0), None);
    assert_eq!(rb.len(), 1);
    let mut it = rb.iter();
    assert_eq!(it.next(), Some("b".to_string()));
    assert_eq!(it.next(), None);
    assert_eq!(rb.pop(), Some("b".to_string()));
    assert_eq!(rb.len(), 0);
}

#[test]
fn pushes_come_out_in_order() {
    let mut rb: OrderRingBuffer<u64> = OrderRingBuffer::new(8);
    for round in 0..3u64 {
        for v in 0..8u64 {
            assert_eq!(rb.push(round * 100 + v), Ok(()));
        }
        assert_eq!(rb.len(), 8);
        for v in 0..8u64 {
            assert_eq!(rb.pop(), Some(round * 100 + v));
            assert_eq!(rb.len(), (7 - v) as usize);
        }
        assert_eq!(rb.pop(), None);
    }
}
