//! Topics, producers' sessions and subscribers' connections of the stream service.

use bytes::BytesMut;
use hugimq::broker::{
    group_batch, next_delivery, role_of, DeliveryAction, DeliveryEvent, Group, Publication,
    PublishAction, PublishSession, Role, BATCH_SIZE,
};
use hugimq::frame::{encode_batch, push_publish_frame, Message};
use hugimq::topics::{
    dead_count, get_or_create_topic, live_subscribers, with_subscriber, Lookup, Topic, TopicTable,
};
use std::sync::Arc;

fn topic(id: usize, name: &str) -> Arc<Topic<u32>> {
    Arc::new(Topic { id, name: name.to_string(), state: 0 })
}

fn publication(topic: &Arc<Topic<u32>>, payload: &[u8]) -> Publication<u32> {
    Publication {
        topic: topic.clone(),
        message: Message { payload: Arc::new(bytes::Bytes::copy_from_slice(payload)) },
    }
}

fn shown(groups: &[Group<u32>]) -> Vec<(String, Vec<Vec<u8>>)> {
    groups
        .iter()
        .map(|g| (g.topic.name.clone(), g.messages.iter().map(|m| m.payload.to_vec()).collect()))
        .collect()
}

fn lookup(table: &mut TopicTable<u32>, name: &str) -> Arc<Topic<u32>> {
    match get_or_create_topic(table, name, 1) {
        Lookup::Found(topic) => topic,
        Lookup::Created { table: next, topic } => {
            *table = next;
            topic
        }
    }
}

#[test]
fn a_topic_is_created_once() {
    let mut table: TopicTable<u32> = TopicTable::new();
    assert!(table.find("a").is_none());
    let a = lookup(&mut table, "a");
    assert_eq!((a.id, a.name.as_str(), a.state), (0, "a", 1));
    let b = lookup(&mut table, "b");
    assert_eq!((b.id, b.name.as_str()), (1, "b"));
    assert!(Arc::ptr_eq(&lookup(&mut table, "a"), &a));
    assert!(Arc::ptr_eq(&table.find("b").unwrap(), &b));
    assert!(table.find("c").is_none());
}

#[test]
fn subscriber_lists_grow_and_shrink() {
    let list = with_subscriber(&with_subscriber(&vec![], 'a'), 'b');
    let list = with_subscriber(&list, 'c');
    assert_eq!(list, vec!['a', 'b', 'c']);
    assert_eq!(live_subscribers(&list, &vec![false, true, false]), (vec!['a', 'c'], 1));
    assert_eq!(live_subscribers(&list, &vec![false; 3]), (list.clone(), 0));
    assert_eq!(dead_count(&vec![true, false, false]), 2);
    assert_eq!(dead_count(&vec![]), 0);
}

#[test]
fn the_first_frame_tells_the_role() {
    assert!(matches!(role_of(2, b"anything"), Role::Publisher));
    assert!(matches!(role_of(1, b"\x00\x01t"), Role::Subscriber(t) if t == "t"));
    assert!(matches!(role_of(1, b"\x00\x02t"), Role::Malformed));
    assert!(matches!(role_of(3, b""), Role::Unknown(3)));
}

#[test]
fn a_batch_is_grouped_by_topic_in_order() {
    let (a, b) = (topic(0, "a"), topic(1, "b"));
    let batch = vec![
        publication(&b, b"1"),
        publication(&a, b"2"),
        publication(&b, b"3"),
        publication(&b, b"4"),
        publication(&a, b"5"),
    ];
    assert_eq!(
        shown(&group_batch(&batch)),
        vec![
            ("b".to_string(), vec![b"1".to_vec(), b"3".to_vec(), b"4".to_vec()]),
            ("a".to_string(), vec![b"2".to_vec(), b"5".to_vec()]),
        ]
    );
    assert!(group_batch::<u32>(&vec![]).is_empty());
}

#[test]
fn topics_of_one_name_are_two_groups() {
    let (a, other) = (topic(0, "a"), topic(1, "a"));
    let batch = vec![publication(&a, b"1"), publication(&other, b"2"), publication(&a, b"3")];
    let groups = group_batch(&batch);
    assert_eq!(
        shown(&groups),
        vec![
            ("a".to_string(), vec![b"1".to_vec(), b"3".to_vec()]),
            ("a".to_string(), vec![b"2".to_vec()]),
        ]
    );
    assert!(Arc::ptr_eq(&groups[0].topic, &a));
    assert!(Arc::ptr_eq(&groups[1].topic, &other));
}

/// Runs a producer's connection over reads, and returns what was handed on and what was looked up.
fn run(first: &[u8], reads: &[&[u8]]) -> (Vec<Group<u32>>, Vec<String>) {
    let mut table: TopicTable<u32> = TopicTable::new();
    let mut session: PublishSession<u32> = PublishSession::new();
    let mut groups: Vec<Group<u32>> = vec![];
    let mut looked_up: Vec<String> = vec![];
    let mut stream = BytesMut::new();
    let mut reads = reads.iter();
    let mut action = session.start(first);
    loop {
        action = match action {
            PublishAction::Continue => session.step(&mut stream),
            PublishAction::EmptyFrame => panic!("frame without a type"),
            PublishAction::Flush(g) => {
                groups.extend(g);
                PublishAction::Continue
            }
            PublishAction::Lookup(name) => {
                let topic = lookup(&mut table, &name);
                looked_up.push(name);
                session.resolved(topic)
            }
            PublishAction::Read => match reads.next() {
                Some(bytes) => {
                    stream.extend_from_slice(bytes);
                    PublishAction::Continue
                }
                None => break,
            },
        };
    }
    groups.extend(session.finish());
    (groups, looked_up)
}

#[test]
fn a_connection_hands_on_what_it_read() {
    let mut bytes: Vec<u8> = vec![];
    push_publish_frame(&mut bytes, "b", b"two");
    bytes.extend_from_slice(b"\x00\x02\x07x"); // another type
    bytes.extend_from_slice(b"\x00\x04\x02\x00\x09x"); // too short for its topic
    push_publish_frame(&mut bytes, "a", b"three");
    let (groups, looked_up) = run(b"\x00\x01aone", &[&bytes[..7], &bytes[7..]]);
    assert_eq!(
        shown(&groups),
        vec![
            ("a".to_string(), vec![b"one".to_vec(), b"three".to_vec()]),
            ("b".to_string(), vec![b"two".to_vec()]),
        ]
    );
    assert_eq!(looked_up, vec!["a".to_string(), "b".to_string()]);
}

#[test]
fn a_full_batch_is_handed_on_at_once() {
    let mut bytes: Vec<u8> = vec![];
    for i in 0..BATCH_SIZE {
        push_publish_frame(&mut bytes, "a", &[(i % 256) as u8]);
    }
    let (groups, looked_up) = run(b"\x00\x01a!", &[&bytes[..]]);
    assert_eq!(groups.len(), 2);
    assert_eq!(groups[0].messages.len(), 512);
    assert_eq!(groups[1].messages.len(), 1);
    assert_eq!(&groups[0].messages[0].payload[..], b"!");
    assert_eq!(&groups[1].messages[0].payload[..], &[255]);
    assert_eq!(looked_up.len(), 1);
    let written = encode_batch("a", &groups[0].messages).unwrap();
    assert_eq!(&written[..9], b"\x00\x07\x03\x00\x01a\x00\x01!");
}

#[test]
fn four_topics_are_remembered() {
    let names = ["b", "c", "d", "a", "e", "b", "a"];
    let mut bytes: Vec<u8> = vec![];
    for name in names {
        push_publish_frame(&mut bytes, name, b"");
    }
    let (_, looked_up) = run(b"\x00\x01a", &[&bytes[..]]);
    assert_eq!(looked_up, vec!["a", "b", "c", "d", "e", "a"]);
}

#[test]
fn a_malformed_first_frame_publishes_nothing() {
    let (groups, looked_up) = run(b"\x00", &[]);
    assert!(groups.is_empty());
    assert!(looked_up.is_empty());
}

#[test]
fn a_frame_without_a_type_ends_the_session() {
    let mut session: PublishSession<u32> = PublishSession::new();
    let mut stream = BytesMut::from(&b"\x00\x00\x02"[..]);
    assert!(matches!(session.step(&mut stream), PublishAction::EmptyFrame));
}

#[test]
fn batches_are_flushed_once_none_waits() {
    let next = next_delivery;
    assert!(matches!(next(DeliveryEvent::Acknowledged { sent: true }), DeliveryAction::Receive));
    assert!(matches!(next(DeliveryEvent::Acknowledged { sent: false }), DeliveryAction::Stop));
    assert!(matches!(next(DeliveryEvent::Received { batch: true }), DeliveryAction::Write));
    assert!(matches!(next(DeliveryEvent::Received { batch: false }), DeliveryAction::Stop));
    let written = DeliveryEvent::Written { sent: true, more: true };
    assert!(matches!(next(written), DeliveryAction::Receive));
    let written = DeliveryEvent::Written { sent: true, more: false };
    assert!(matches!(next(written), DeliveryAction::Flush));
    let written = DeliveryEvent::Written { sent: false, more: false };
    assert!(matches!(next(written), DeliveryAction::Stop));
    assert!(matches!(next(DeliveryEvent::Flushed { sent: true }), DeliveryAction::Receive));
    assert!(matches!(next(DeliveryEvent::Flushed { sent: false }), DeliveryAction::Stop));
}

/// Runs a subscriber's connection over a channel, with more batches waiting after a write as told,
/// and returns the batches written and how many of them each flush was behind.
fn deliver(batches: &[&str], more: &[bool], fails_at: usize) -> (Vec<String>, Vec<usize>) {
    let mut channel = batches.iter();
    let mut batch: Option<&&str> = None;
    let mut written: Vec<String> = vec![];
    let mut flushes: Vec<usize> = vec![];
    let mut event = DeliveryEvent::Acknowledged { sent: true };
    loop {
        event = match next_delivery(event) {
            DeliveryAction::Receive => {
                batch = channel.next();
                DeliveryEvent::Received { batch: batch.is_some() }
            }
            DeliveryAction::Write => {
                let n = written.len();
                if n == fails_at {
                    DeliveryEvent::Written { sent: false, more: more[n] }
                } else {
                    written.push(batch.unwrap().to_string());
                    DeliveryEvent::Written { sent: true, more: more[n] }
                }
            }
            DeliveryAction::Flush => {
                flushes.push(written.len());
                DeliveryEvent::Flushed { sent: true }
            }
            DeliveryAction::Stop => break,
        };
    }
    (written, flushes)
}

#[test]
fn every_batch_is_written_once_and_flushed() {
    let batches = ["one", "two", "three"];
    let (written, flushes) = deliver(&batches, &[true, false, false], 9);
    assert_eq!(written, vec!["one", "two", "three"]);
    assert_eq!(flushes, vec![2, 3]);
    let (written, flushes) = deliver(&batches, &[true, true, false], 2);
    assert_eq!(written, vec!["one", "two"]);
    assert!(flushes.is_empty());
}
