//! The benchmark of the datagram service.

use hugimq::address::SocketAddress;
use hugimq::histogram::LatencyHistogram;
use hugimq::orchestrator::{
    merge_latencies, publisher_configs, publisher_totals, subscriber_configs, subscriber_totals,
    summarize, BenchmarkConfig, ConfigError,
};
use hugimq::protocol::{build_data_packet, build_nack_packet, build_subscribe_packet, parse_packet};
use hugimq::publisher::{Publisher, PublisherConfig, PublisherResult};
use hugimq::subscriber::{
    after_packet, before_wait, Reaction, SubscriberConfig, SubscriberResult, SubscriberSession,
    WaitDecision,
};
use std::time::Duration;

fn server() -> SocketAddress {
    SocketAddress::V6 { ip6: 1, port: 7000, flowinfo: 0, scope_id: 0 }
}

fn config(publishers: u32, subscribers: u32, topics: u32) -> BenchmarkConfig {
    BenchmarkConfig {
        num_publishers: publishers,
        num_subscribers: subscribers,
        num_topics: topics,
        messages_per_topic: 5,
        server_addr: server(),
    }
}

fn subscriber_config(topics: Vec<u32>, expected: u64) -> SubscriberConfig {
    SubscriberConfig {
        subscriber_id: 1,
        topics,
        server_addr: server(),
        listen_port: 6000,
        expected_messages_per_topic: expected,
    }
}

#[test]
fn a_publisher_serves_its_topics_in_turn() {
    let config = PublisherConfig {
        publisher_id: 1,
        topics: vec![8, 9],
        server_addr: server(),
        messages_per_topic: 3,
    };
    assert_eq!(config.total_messages(), Some(6));
    let mut publisher = Publisher::new(config).unwrap();
    let mut sent: Vec<(u32, u64, u64)> = vec![];
    while !publisher.is_done() {
        let now = 100 + publisher.sent();
        let out = publisher.next_packet(now);
        assert!(!out.pause);
        let (_, topic, seq, ts, _) = parse_packet(&out.packet).unwrap();
        sent.push((topic, seq, ts));
    }
    assert_eq!(
        sent,
        vec![(8, 0, 100), (8, 1, 101), (8, 2, 102), (9, 0, 103), (9, 1, 104), (9, 2, 105)]
    );
}

#[test]
fn a_publisher_pauses_every_1024_messages() {
    let config = PublisherConfig {
        publisher_id: 1,
        topics: vec![8],
        server_addr: server(),
        messages_per_topic: 3000,
    };
    let mut publisher = Publisher::new(config).unwrap();
    let mut pauses: Vec<u64> = vec![];
    while !publisher.is_done() {
        if publisher.next_packet(0).pause {
            pauses.push(publisher.sent());
        }
    }
    assert_eq!(pauses, vec![1024, 2048]);
}

#[test]
fn a_publisher_may_have_nothing_or_too_much_to_do() {
    let config = |topics: Vec<u32>, messages_per_topic: u64| PublisherConfig {
        publisher_id: 1,
        topics,
        server_addr: server(),
        messages_per_topic,
    };
    assert!(Publisher::new(config(vec![], 5)).unwrap().is_done());
    assert!(Publisher::new(config(vec![1, 2], 0)).unwrap().is_done());
    assert_eq!(config(vec![1, 2], u64::MAX).total_messages(), None);
    assert!(Publisher::new(config(vec![1, 2], u64::MAX)).is_none());
}

#[test]
fn packets_in_order_are_all_received() {
    let mut session = SubscriberSession::new(&vec![4]);
    for seq in 0..10 {
        let packet = build_data_packet(4, seq, 1000);
        assert!(matches!(session.on_packet(&packet, 1500), Reaction::Silent));
    }
    assert_eq!(session.total_received(), 10);
    let result = session.finish(3, Duration::from_secs(2));
    assert_eq!(result.subscriber_id, 3);
    assert_eq!(result.total_received, 10);
    assert_eq!(result.messages_lost, 0);
    assert_eq!(result.total_nacks_sent, 0);
    assert_eq!(result.total_retransmissions, 0);
    assert_eq!(result.elapsed, Duration::from_secs(2));
    assert_eq!(result.latency_histogram.recorded_values(), vec![(500, 10)]);
}

#[test]
fn a_gap_is_asked_for_and_counted() {
    let mut session = SubscriberSession::new(&vec![4]);
    session.on_packet(&build_data_packet(4, 0, 0), 0);
    match session.on_packet(&build_data_packet(4, 4, 0), 0) {
        Reaction::Request(nack) => assert_eq!(nack, build_nack_packet(4, 1, 3)),
        _ => panic!("nothing asked for"),
    }
    // What comes again is late by now.
    let mut again = build_data_packet(4, 2, 0);
    again[0] = 4;
    assert!(matches!(session.on_packet(&again, 0), Reaction::Silent));
    session.on_packet(&build_data_packet(4, 5, 0), 0);
    let result = session.finish(0, Duration::from_secs(0));
    assert_eq!(result.total_received, 3);
    assert_eq!(result.messages_lost, 3);
    assert_eq!(result.total_nacks_sent, 1);
    assert_eq!(result.total_retransmissions, 1);
    assert!(result.latency_histogram.recorded_values().is_empty());
}

#[test]
fn received_and_lost_add_up() {
    let mut session = SubscriberSession::new(&vec![1, 2]);
    for (topic, seq) in [(1, 0), (2, 3), (1, 1), (7, 2), (2, 1), (1, 5)] {
        session.on_packet(&build_data_packet(topic, seq, 0), 0);
    }
    let result = session.finish(0, Duration::from_secs(0));
    // Six lie before the next one of topic 1, four of topic 2, three of topic 7.
    assert_eq!(result.total_received + result.messages_lost, 6 + 4 + 3);
}

#[test]
fn missing_messages_are_asked_for_once() {
    let mut session = SubscriberSession::new(&vec![1, 2]);
    let mut asked: Vec<Vec<u8>> = vec![];
    for (topic, seq) in [(1, 2), (2, 0), (1, 1), (1, 6), (2, 4), (1, 6), (1, 7), (1, 3)] {
        if let Reaction::Request(nack) = session.on_packet(&build_data_packet(topic, seq, 0), 0) {
            asked.push(nack);
        }
    }
    assert_eq!(
        asked,
        vec![
            build_nack_packet(1, 0, 1),
            build_nack_packet(1, 3, 5),
            build_nack_packet(2, 1, 3),
        ]
    );
    let result = session.finish(0, Duration::from_secs(0));
    assert_eq!(result.total_nacks_sent, 3);
    assert_eq!(result.messages_lost, 2 + 3 + 3);
    // The highest messages are 7 and 4.
    assert_eq!(result.total_received + result.messages_lost, 8 + 5);
}

#[test]
fn other_packets_mean_nothing() {
    let mut session = SubscriberSession::new(&vec![1]);
    assert!(matches!(session.on_packet(&[1, 2, 3], 0), Reaction::Silent));
    assert!(matches!(session.on_packet(&build_subscribe_packet(1), 0), Reaction::Silent));
    assert_eq!(session.total_received(), 0);
}

#[test]
fn counts_do_not_overflow() {
    let mut session = SubscriberSession::new(&vec![1, 2]);
    assert!(matches!(session.on_packet(&build_data_packet(1, u64::MAX, 0), 0), Reaction::Overflow));
    assert_eq!(session.total_received(), 0);
    let packet = build_data_packet(1, u64::MAX - 1, 0);
    assert!(matches!(session.on_packet(&packet, 0), Reaction::Request(_)));
    let packet = build_data_packet(2, 2, 0);
    assert!(matches!(session.on_packet(&packet, 0), Reaction::Overflow));
}

#[test]
fn only_latencies_below_a_minute_count() {
    let mut session = SubscriberSession::new(&vec![1]);
    session.on_packet(&build_data_packet(1, 0, 100), 100);
    session.on_packet(&build_data_packet(1, 1, 100), 60_000_000_100);
    session.on_packet(&build_data_packet(1, 2, 100), 50);
    session.on_packet(&build_data_packet(1, 3, 100), 101);
    session.on_packet(&build_data_packet(1, 4, 100)[..43], 103);
    let result = session.finish(0, Duration::from_secs(0));
    assert_eq!(result.total_received, 5);
    assert_eq!(result.latency_histogram.recorded_values(), vec![(1, 1)]);
}

#[test]
fn a_subscriber_waits_for_stragglers() {
    assert!(matches!(before_wait(true, 5, 5, 0, None), WaitDecision::Stop));
    assert!(matches!(before_wait(false, 5, 5, 0, None), WaitDecision::Wait { deadline: None }));
    let decision = before_wait(true, 4, 5, 7, None);
    assert!(matches!(decision, WaitDecision::Wait { deadline: Some(10_000_000_007) }));
    let decision = before_wait(true, 4, 5, 10_000_000_007, Some(10_000_000_007));
    assert!(matches!(decision, WaitDecision::Wait { deadline: Some(10_000_000_007) }));
    let decision = before_wait(true, 4, 5, 10_000_000_008, Some(10_000_000_007));
    assert!(matches!(decision, WaitDecision::Stop));
    assert!(after_packet(5, 5));
    assert!(!after_packet(4, 5));
    assert_eq!(subscriber_config(vec![1, 2], 3).total_expected(), Some(6));
    assert_eq!(subscriber_config(vec![1, 2], u64::MAX).total_expected(), None);
}

#[test]
fn topics_and_ports_are_dealt_out_in_turn() {
    let publishers = publisher_configs(&config(3, 0, 2)).unwrap();
    let topics: Vec<Vec<u32>> = publishers.iter().map(|p| p.topics.clone()).collect();
    assert_eq!(topics, vec![vec![0], vec![1], vec![0]]);
    assert_eq!(publishers[2].publisher_id, 2);
    assert_eq!(publishers[2].messages_per_topic, 5);
    assert_eq!(publishers[2].server_addr, server());
    let subscribers = subscriber_configs(&config(0, 3, 2)).unwrap();
    let ports: Vec<u16> = subscribers.iter().map(|s| s.listen_port).collect();
    assert_eq!(ports, vec![6000, 6001, 6002]);
    assert_eq!(subscribers[1].topics, vec![1]);
    assert_eq!(subscribers[1].subscriber_id, 1);
    assert_eq!(subscribers[1].expected_messages_per_topic, 5);
}

#[test]
fn a_benchmark_may_be_impossible() {
    assert_eq!(publisher_configs(&config(1, 0, 0)).err(), Some(ConfigError::NoTopics));
    assert!(publisher_configs(&config(0, 0, 0)).unwrap().is_empty());
    assert_eq!(subscriber_configs(&config(0, 1, 0)).err(), Some(ConfigError::NoTopics));
    let most = subscriber_configs(&config(0, 59535, 1)).unwrap();
    assert_eq!(most[59534].listen_port, 65534);
    assert_eq!(
        subscriber_configs(&config(0, 59536, 1)).err(),
        Some(ConfigError::TooManySubscribers)
    );
}

fn published(total_sent: u64, throughput: u64) -> PublisherResult {
    PublisherResult { publisher_id: 0, total_sent, elapsed: Duration::from_secs(1), throughput }
}

fn subscribed(received: u64, lost: u64, latencies: &[u64]) -> SubscriberResult {
    let mut histogram = LatencyHistogram::with_limit(60_000_000_000);
    for ns in latencies {
        histogram.record(*ns);
    }
    SubscriberResult {
        subscriber_id: 0,
        total_received: received,
        total_nacks_sent: 2,
        total_retransmissions: 3,
        messages_lost: lost,
        latency_histogram: histogram,
        elapsed: Duration::from_secs(1),
    }
}

#[test]
fn results_are_put_together() {
    let subscribers = vec![subscribed(10, 1, &[5, 6]), subscribed(20, 0, &[6])];
    let publishers = vec![published(15, 7), published(16, 8)];
    let totals = publisher_totals(&publishers).unwrap();
    assert_eq!((totals.sent, totals.throughput), (31, 15));
    let totals = subscriber_totals(&subscribers).unwrap();
    assert_eq!((totals.received, totals.lost, totals.nacks, totals.retransmissions), (30, 1, 4, 6));
    assert!(!totals.is_lossless());
    assert_eq!(merge_latencies(&subscribers).recorded_values(), vec![(5, 1), (6, 2)]);
    let result = summarize(publishers, subscribers, Duration::from_secs(9)).unwrap();
    assert_eq!(result.total_messages_sent, 31);
    assert_eq!(result.total_messages_received, 30);
    assert_eq!(result.total_messages_lost, 1);
    assert_eq!(result.total_nacks_sent, 4);
    assert_eq!(result.total_retransmissions, 6);
    assert_eq!(result.total_elapsed, Duration::from_secs(9));
    assert_eq!(result.merged_histogram.recorded_values(), vec![(5, 1), (6, 2)]);
    assert_eq!(result.publisher_results.len(), 2);
    assert_eq!(result.subscriber_results.len(), 2);
}

#[test]
fn totals_may_have_no_number() {
    let publishers = vec![published(u64::MAX, 0), published(1, 0)];
    assert!(publisher_totals(&publishers).is_none());
    assert!(summarize(publishers, vec![], Duration::from_secs(0)).is_none());
    let subscribers = vec![subscribed(1, u64::MAX, &[]), subscribed(1, 1, &[])];
    assert!(subscriber_totals(&subscribers).is_none());
}

#[test]
fn the_widest_histograms_add_up() {
    let mut a = LatencyHistogram::with_limit(u64::MAX / 2);
    let mut b = LatencyHistogram::with_limit(u64::MAX / 2);
    a.record(5);
    b.record(u64::MAX / 2);
    b.record(u64::MAX);
    assert!(a.merge(&b));
    assert_eq!(a.recorded_values(), vec![(5, 1), (u64::MAX / 2, 1)]);
}

#[test]
fn a_histogram_keeps_to_three_digits_and_its_limit() {
    let mut histogram = LatencyHistogram::with_limit(10_000_000_000);
    histogram.record(10_000_000_000);
    histogram.record(u64::MAX);
    assert_eq!(histogram.recorded_values(), vec![(10_007_609_343, 1)]);
    let mut other = LatencyHistogram::with_limit(10_000_000_000);
    other.record(3);
    assert!(histogram.merge(&other));
    assert_eq!(histogram.recorded_values()[0], (3, 1));
    // A histogram for less takes what it can count, and nothing of what it cannot.
    let mut small = LatencyHistogram::with_limit(2000);
    assert!(small.merge(&other));
    assert!(!small.merge(&histogram));
    assert_eq!(small.recorded_values(), vec![(3, 1)]);
    // Latencies are exact below two thousand.
    small.record(1999);
    assert_eq!(small.recorded_values(), vec![(3, 1), (1999, 1)]);
}

#[test]
fn latencies_share_counters_from_2048_on() {
    let mut histogram = LatencyHistogram::with_limit(3000);
    for ns in [2047, 2048, 2049, 2050, 4095, 4096] {
        histogram.record(ns);
    }
    assert_eq!(histogram.recorded_values(), vec![(2047, 1), (2049, 2), (2051, 1), (4095, 1)]);
    let mut smallest = LatencyHistogram::with_limit(2);
    smallest.record(2047);
    smallest.record(2048);
    assert_eq!(smallest.recorded_values(), vec![(2047, 1)]);
}
