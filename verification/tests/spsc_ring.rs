//! The ring between one producer and one consumer.

use hugimq::spsc_ring::SpscRingBuffer;
use std::sync::Arc;

#[test]
fn test_basic_push_pop() {
    let mut buf = SpscRingBuffer::new(8);
    let msg = Arc::new(vec![1, 2, 3]);

    assert!(buf.try_push(msg.clone()).is_ok());
    assert_eq!(buf.len(), 1);

    let popped = buf.try_pop().unwrap();
    assert_eq!(*popped, vec![1, 2, 3]);
    assert!(buf.is_empty());
}

#[test]
fn test_full_buffer() {
    let mut buf = SpscRingBuffer::new(4);

    // Fill the buffer
    for i in 0..4 {
        assert!(buf.try_push(Arc::new(vec![i])).is_ok());
    }

    // Should be full
    assert!(buf.try_push(Arc::new(vec![99])).is_err());
}

#[test]
fn test_wrap_around() {
    let mut buf = SpscRingBuffer::new(4);

    // Push 4, pop 4, push 4 again: tests wrap-around
    for i in 0..4 {
        buf.try_push(Arc::new(vec![i])).unwrap();
    }
    for _ in 0..4 {
        buf.try_pop().unwrap();
    }
    for i in 4..8 {
        buf.try_push(Arc::new(vec![i])).unwrap();
    }
    for i in 4..8 {
        let msg = buf.try_pop().unwrap();
        assert_eq!(*msg, vec![i]);
    }
}

#[test]
fn a_million_messages_pass_through_in_order() {
    let mut buf = SpscRingBuffer::new(65536);
    let num_items: u32 = 1_000_000;
    let mut pushed: u32 = 0;
    let mut received: u32 = 0;
    while received < num_items {
        while pushed < num_items && buf.try_push(Arc::new(vec![pushed as u8])).is_ok() {
            pushed += 1;
        }
        while let Some(msg) = buf.try_pop() {
            assert_eq!(*msg, vec![received as u8]);
            received += 1;
        }
    }
    assert_eq!(received, num_items);
}

#[test]
fn a_full_ring_hands_the_message_back() {
    let mut buf = SpscRingBuffer::new(1);
    assert_eq!(buf.capacity(), 1);
    buf.push(Arc::new(vec![7]));
    assert_eq!(buf.try_push(Arc::new(vec![8])), Err(Arc::new(vec![8])));
    assert_eq!(*buf.try_pop().unwrap(), vec![7]);
    assert!(buf.try_pop().is_none());
    buf.notify_not_full();
    assert_eq!(buf.waiters().notify_all(), 0);
}

#[test]
fn messages_come_out_in_the_order_they_went_in() {
    let mut buf = SpscRingBuffer::new(2);
    let mut out: Vec<Vec<u8>> = Vec::new();
    for i in 0u8..10 {
        buf.push(Arc::new(vec![i, i + 1]));
        if i % 2 == 1 {
            out.push(buf.try_pop().unwrap().to_vec());
            out.push(buf.try_pop().unwrap().to_vec());
        }
    }
    let expected: Vec<Vec<u8>> = (0u8..10).map(|i| vec![i, i + 1]).collect();
    assert_eq!(out, expected);
}
