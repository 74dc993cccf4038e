//! The load test of the stream service: its plan, its producers and its consumers.

use bytes::BytesMut;
use hugimq::bench::{messages_lost, topic_name, ArgsError, BenchArgs};
use hugimq::consumer::{latency_ns, read_message_time, Consumer, ConsumerStep, MessageTime};
use hugimq::frame::{
    encode_batch, next_frame, parse_publish, Message, NextFrame,
};
use hugimq::producer::{
    build_message_header, source_data, Producer, ProducerError, ProducerStep, WRITE_BATCH_SIZE,
};
use std::sync::Arc;

fn args(connections: usize, messages: usize, topics: usize, per_producer: usize) -> BenchArgs {
    BenchArgs {
        connections,
        messages_per_conn: messages,
        payload_size: 4,
        variable_payload: false,
        topics,
        topics_per_producer: per_producer,
    }
}

#[test]
fn arguments_are_checked_in_order() {
    assert_eq!(args(10, 100, 1, 1).check(), Ok(()));
    assert_eq!(args(1, 100, 0, 0).check(), Err(ArgsError::TooFewConnections));
    assert_eq!(args(2, 100, 0, 0).check(), Err(ArgsError::NoTopics));
    assert_eq!(args(2, 100, 3, 0).check(), Err(ArgsError::TopicsPerProducer));
    assert_eq!(args(2, 100, 3, 4).check(), Err(ArgsError::TopicsPerProducer));
    assert_eq!(args(2, 100, 3, 3).check(), Ok(()));
    assert!(args(2, 100, 3, 3).is_uneven());
    assert!(!args(2, 99, 3, 3).is_uneven());
}

#[test]
fn expectations_add_up() {
    let plan = args(7, 10, 3, 2);
    assert_eq!((plan.num_producers(), plan.num_consumers()), (3, 4));
    // Each topic has two producers with five messages each.
    let each: Vec<u64> = (0..4).map(|c| plan.expected_for_consumer(c).unwrap()).collect();
    assert_eq!(each, vec![10, 10, 10, 10]);
    assert_eq!(plan.total_expected_deliveries(), Some(40));

    let plan = args(6, 9, 4, 2);
    let each: Vec<u64> = (0..3).map(|c| plan.expected_for_consumer(c).unwrap()).collect();
    assert_eq!(each, vec![4, 8, 8]);
    assert_eq!(plan.total_expected_deliveries(), Some(20));
}

#[test]
fn too_many_deliveries_have_no_number() {
    let plan = args(8, usize::MAX, 1, 1);
    assert_eq!(plan.expected_for_consumer(0), None);
    assert_eq!(plan.total_expected_deliveries(), None);
    assert_eq!(messages_lost(5, 7), -2);
    assert_eq!(messages_lost(u64::MAX, 0), u64::MAX as i128);
}

#[test]
fn topics_are_dealt_out_in_turn() {
    assert_eq!(topic_name(0), "benchmark_topic_0");
    assert_eq!(topic_name(1203), "benchmark_topic_1203");
    let plan = args(10, 10, 3, 2);
    assert_eq!(plan.consumer_topic_name(4), "benchmark_topic_1");
    assert_eq!(plan.producer_topic_names(2), vec!["benchmark_topic_2", "benchmark_topic_0"]);
}

#[test]
fn the_source_repeats() {
    let source = source_data();
    assert_eq!(source.len(), 32768);
    assert_eq!(&source[253..257], &[253, 254, 0, 1]);
}

#[test]
fn a_message_starts_with_its_header() {
    let header = build_message_header(3, 45, 1_700_000_000_000_000_000_123, "t");
    assert_eq!(header, b"3:45:1700000000000000000123:t:");
    assert_eq!(
        read_message_time(&header),
        MessageTime::At(1_700_000_000_000_000_000_123)
    );
    let header = build_message_header(0, 0, 0, "");
    assert_eq!(header, b"0:0:0::");
    assert_eq!(read_message_time(&header), MessageTime::At(0));
    let header = build_message_header(usize::MAX, 0, u128::MAX, "");
    assert_eq!(read_message_time(&header), MessageTime::At(u128::MAX));
}

#[test]
fn a_time_may_be_absent_or_malformed() {
    assert_eq!(read_message_time(b""), MessageTime::Absent);
    assert_eq!(read_message_time(b"1:2"), MessageTime::Absent);
    assert_eq!(read_message_time(b"1:2:3"), MessageTime::Absent);
    assert_eq!(read_message_time(b"1:2::"), MessageTime::Absent);
    assert_eq!(read_message_time(b"1:2: 3:"), MessageTime::Malformed);
    assert_eq!(read_message_time(b"::1A:"), MessageTime::At(27));
    let huge = b"1:2:340282366920938463463374607431768211456:";
    assert_eq!(read_message_time(huge), MessageTime::Malformed);
}

#[test]
fn latencies_do_not_go_below_zero() {
    assert_eq!(latency_ns(10, 3), 7);
    assert_eq!(latency_ns(3, 10), 0);
    assert_eq!(latency_ns(1 << 64, 0), 0);
}

#[test]
fn a_producer_fills_frames() {
    let source = Arc::new(source_data());
    let mut producer = Producer::new(args(4, 3, 3, 2), 1, source).unwrap();
    let mut out: Vec<u8> = vec![];
    for now in 10..13u128 {
        assert!(matches!(producer.produce_frame(now, &mut out), ProducerStep::Buffered));
    }
    assert!(matches!(producer.produce_frame(13, &mut out), ProducerStep::Finished));
    let mut stream = BytesMut::from(&out[..]);
    let mut seen: Vec<(String, Vec<u8>)> = vec![];
    while let NextFrame::Frame { msg_type: 2, body } = next_frame(&mut stream) {
        let (topic, payload) = parse_publish(&body).unwrap();
        seen.push((topic, payload.to_vec()));
    }
    assert_eq!(
        seen,
        vec![
            ("benchmark_topic_1".to_string(), b"1:0:10:benchmark_topic_1:\x00\x01\x02\x03".to_vec()),
            ("benchmark_topic_2".to_string(), b"1:1:11:benchmark_topic_2:\x00\x01\x02\x03".to_vec()),
            ("benchmark_topic_1".to_string(), b"1:2:12:benchmark_topic_1:\x00\x01\x02\x03".to_vec()),
        ]
    );
}

#[test]
fn a_producer_writes_when_it_has_collected_enough() {
    let source = Arc::new(source_data());
    let mut plan = args(2, 100, 1, 1);
    plan.payload_size = 32768;
    let mut producer = Producer::new(plan, 0, source).unwrap();
    let mut out: Vec<u8> = vec![];
    assert!(matches!(producer.produce_frame(1, &mut out), ProducerStep::Buffered));
    assert!(matches!(producer.produce_frame(1, &mut out), ProducerStep::Full));
    assert!(out.len() >= WRITE_BATCH_SIZE);
}

#[test]
fn variable_payloads_follow_the_generator() {
    let source = Arc::new(source_data());
    let mut plan = args(2, 50, 1, 1);
    plan.variable_payload = true;
    let mut producer = Producer::new(plan, 2, source.clone()).unwrap();
    let mut state: u64 = 3 * 0xdead_beef;
    let mut draw = || {
        state ^= state << 13;
        state ^= state >> 7;
        state ^= state << 17;
        assert_ne!(state, 0);
        state as u32
    };
    for seq in 0..50usize {
        let size = 512 + (draw() % (10240 - 512)) as usize;
        let offset = (draw() % 16384) as usize;
        let produced = producer.produce(7).unwrap();
        assert_eq!(produced.place, 0);
        assert_eq!(producer.topic(produced.place), "benchmark_topic_0");
        let mut expected = build_message_header(2, seq, 7, "benchmark_topic_0");
        expected.extend_from_slice(&source[offset..offset + size]);
        assert_eq!(produced.message, expected);
    }
    assert!(producer.produce(7).is_none());
}

#[test]
fn a_producer_may_be_impossible() {
    let source = Arc::new(source_data());
    let mut plan = args(2, 1, 1, 1);
    plan.payload_size = 32769;
    assert_eq!(
        Producer::new(plan, 0, source.clone()).err(),
        Some(ProducerError::PayloadTooLong)
    );
    assert_eq!(
        Producer::new(plan, usize::MAX, source.clone()).err(),
        Some(ProducerError::NoSeed)
    );
    plan.messages_per_conn = 0;
    assert!(Producer::new(plan, 0, source.clone()).is_ok());
    plan.messages_per_conn = 1;
    plan.variable_payload = true;
    assert!(Producer::new(plan, 0, source).is_ok());
}

#[test]
fn a_consumer_counts_and_samples() {
    let mut producer = Producer::new(args(2, 102, 1, 1), 0, Arc::new(source_data())).unwrap();
    let mut messages: Vec<Message> = vec![];
    for now in 0..102u128 {
        let produced = producer.produce(1000 + now).unwrap();
        messages.push(Message { payload: Arc::new(bytes::Bytes::from(produced.message)) });
    }
    let batch = encode_batch("benchmark_topic_0", &messages).unwrap();
    let mut stream = BytesMut::from(&batch[..]);
    let mut consumer = Consumer::new(102);
    let mut lengths = 0;
    let mut times: Vec<u128> = vec![];
    while !consumer.is_done() {
        match consumer.step(&mut stream) {
            ConsumerStep::Data { length, counted: true, made } => {
                lengths += length;
                if let Some(made) = made {
                    times.push(made);
                    consumer.sample(made + 50, made);
                }
            }
            other => panic!("{:?}", other),
        }
    }
    assert_eq!(lengths, batch.len());
    assert_eq!(consumer.received, 102);
    assert_eq!(times, vec![1000, 1100]);
    assert_eq!(consumer.latencies.recorded_values(), vec![(50, 2)]);
    assert_eq!(consumer.step(&mut stream), ConsumerStep::Incomplete);
}

#[test]
fn a_consumer_passes_over_what_carries_no_message() {
    let mut consumer = Consumer::new(1);
    let mut stream = BytesMut::from(&b"\x00\x02\x09x\x00\x04\x03abc\x00\x00\x00\x05\x03\x00\x09\x00\x00"[..]);
    assert_eq!(consumer.step(&mut stream), ConsumerStep::PassedOver);
    assert_eq!(
        consumer.step(&mut stream),
        ConsumerStep::Data { length: 6, counted: false, made: None }
    );
    assert_eq!(consumer.step(&mut stream), ConsumerStep::PassedOver);
    assert_eq!(
        consumer.step(&mut stream),
        ConsumerStep::Data { length: 7, counted: true, made: None }
    );
    assert!(stream.is_empty());
    assert_eq!(consumer.received, 1);
}

#[test]
fn a_consumer_stops_at_what_it_cannot_read() {
    let mut consumer = Consumer::new(1);
    let mut stream = BytesMut::from(&b"\x00\x00\x03"[..]);
    assert_eq!(consumer.step(&mut stream), ConsumerStep::Malformed);
    assert_eq!(stream.len(), 3);
    let mut stream = BytesMut::from(&b"\x00\x0b\x03\x00\x00\x00\x06a:b:!:"[..]);
    assert_eq!(consumer.step(&mut stream), ConsumerStep::Malformed);
    assert_eq!(consumer.received, 0);
}

#[test]
fn a_consumer_takes_bare_messages() {
    let mut consumer = Consumer::new(2);
    assert_eq!(consumer.take_message(b"0:0:77:t:xx"), Some(Some(77)));
    assert_eq!(consumer.take_message(b"0:0:78:t:xx"), Some(None));
    assert!(consumer.is_done());
    let mut other = Consumer::new(1);
    assert_eq!(other.take_message(b"0:0:!:"), None);
    assert_eq!(other.take_message(b"none"), Some(None));
}
