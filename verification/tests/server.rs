//! Retransmission and the datagram service.

use hugimq::address::SocketAddress;
use hugimq::protocol::{
    build_data_packet, build_nack_packet, build_subscribe_packet, Header, MSG_ACK_CTRL,
    MSG_RETRANSMIT,
};
use hugimq::ring_buffer::RetransmitRing;
use hugimq::server::{Datagram, ServerState, Subscriber};

fn host(port: u16) -> SocketAddress {
    SocketAddress::V4 { ip: 0x7f00_0001, port }
}

fn assert_confirmed(datagram: &Datagram, topic: u32, to: SocketAddress) {
    assert_eq!(datagram.to, to);
    assert_eq!(datagram.bytes.len(), 24);
    let h = Header::deserialize(&datagram.bytes);
    assert_eq!((h.msg_type, h.topic_id, h.sequence, h.timestamp_ns), (MSG_ACK_CTRL, topic, 0, 0));
}

#[test]
fn a_ring_keeps_the_last_packets() {
    let mut ring = RetransmitRing::new(3, 0);
    assert_eq!(ring.capacity(), 3);
    for seq in 10u64..15 {
        let slot = ring.push(&[seq as u8; 24], seq);
        assert_eq!(slot, (seq as usize - 10) % 3);
    }
    assert!(ring.get(10).is_none());
    assert!(ring.get(11).is_none());
    for seq in 12u64..15 {
        assert_eq!(ring.get(seq), Some(vec![seq as u8; 24]));
    }
    assert!(ring.get(15).is_none());
}

#[test]
fn a_fresh_ring_holds_nothing() {
    let mut ring = RetransmitRing::new(2, 4);
    assert!(ring.get(0).is_none());
    ring.push(&[1, 2], 0);
    assert_eq!(ring.get(0), Some(vec![1, 2]));
}

#[test]
fn a_slot_keeps_its_room() {
    let mut ring = RetransmitRing::new(1, 8);
    assert!(ring.fits(32));
    assert!(!ring.fits(33));
    assert_eq!(ring.push(&[1u8; 24], 1), 0);
    assert!(ring.fits(32));
    assert_eq!(ring.push(&[2u8; 32], 2), 0);
    assert_eq!(ring.get(2), Some(vec![2u8; 32]));
    assert_eq!(ring.get(1), None);
    assert!(!RetransmitRing::new(0, 4).fits(0));
}

#[test]
fn the_first_of_equal_numbers_is_found() {
    let mut ring = RetransmitRing::new(3, 0);
    ring.push(&[1], 7);
    ring.push(&[2], 7);
    assert_eq!(ring.get(7), Some(vec![1]));
}

#[test]
fn subscribers_are_kept_in_order() {
    let mut state = ServerState::new();
    assert!(state.get_subscribers(1).is_empty());
    state.subscribe(1, Subscriber { addr: host(1) });
    state.subscribe(2, Subscriber { addr: host(2) });
    state.subscribe(1, Subscriber { addr: host(3) });
    state.subscribe(1, Subscriber { addr: host(1) });
    let addrs: Vec<SocketAddress> = state.get_subscribers(1).iter().map(|s| s.addr).collect();
    assert_eq!(addrs, vec![host(1), host(3), host(1)]);
    assert_eq!(state.get_subscribers(2).len(), 1);
}

#[test]
fn packets_are_stored_by_topic() {
    let mut state = ServerState::new();
    assert!(state.fulfill_nack(5, 1).is_none());
    state.store_for_retransmit(5, &[1; 30], 1);
    assert_eq!(state.fulfill_nack(5, 1), Some(vec![1; 30]));
    assert!(state.fulfill_nack(6, 1).is_none());
    assert_eq!(state.get_or_create_ring(5, 8, 8).capacity(), 65536);
    assert_eq!(state.get_or_create_ring(6, 8, 8).capacity(), 8);
    assert!(state.fits(7, 280));
    assert!(!state.fits(7, 281));
}

#[test]
fn a_subscription_is_confirmed() {
    let mut state = ServerState::new();
    let handled = state.handle_packet(&build_subscribe_packet(4), host(9));
    assert_eq!(handled.out.len(), 1);
    assert_confirmed(&handled.out[0], 4, host(9));
    assert_eq!(state.get_subscribers(4)[0].addr, host(9));
}

#[test]
fn data_is_forwarded_and_sent_again_on_request() {
    let mut state = ServerState::new();
    state.handle_packet(&build_subscribe_packet(4), host(1));
    state.handle_packet(&build_subscribe_packet(4), host(2));
    state.handle_packet(&build_subscribe_packet(5), host(3));
    for seq in 0..3 {
        let packet = build_data_packet(4, seq, 77);
        let handled = state.handle_packet(&packet, host(50));
        assert!(!handled.overflow);
        let to: Vec<SocketAddress> = handled.out.iter().map(|d| d.to).collect();
        assert_eq!(to, vec![host(1), host(2)]);
        assert!(handled.out.iter().all(|d| d.bytes == packet));
    }
    let handled = state.handle_packet(&build_nack_packet(4, 1, 9), host(2));
    assert_eq!(handled.out.len(), 3);
    assert_confirmed(&handled.out[0], 4, host(2));
    for (i, d) in handled.out[1..].iter().enumerate() {
        let original = build_data_packet(4, i as u64 + 1, 77);
        assert_eq!(d.to, host(2));
        assert_eq!(Header::deserialize(&d.bytes).msg_type, MSG_RETRANSMIT);
        assert_eq!(d.bytes[4..], original[4..]);
    }
    for (topic, start, end) in [(4, 2, 1), (8, 0, 3), (4, u64::MAX, u64::MAX)] {
        let handled = state.handle_packet(&build_nack_packet(topic, start, end), host(2));
        assert_eq!(handled.out.len(), 1);
        assert_confirmed(&handled.out[0], topic, host(2));
    }
}

#[test]
fn other_packets_are_ignored() {
    let mut state = ServerState::new();
    assert!(state.handle_packet(&[2, 0, 0], host(1)).out.is_empty());
    let mut unknown = build_subscribe_packet(1);
    unknown[0] = 77;
    assert!(state.handle_packet(&unknown, host(1)).out.is_empty());
    let short_nack = &build_nack_packet(1, 0, 1)[..39];
    assert!(state.handle_packet(short_nack, host(1)).out.is_empty());
}

#[test]
fn a_long_packet_is_kept_behind_a_short_one() {
    let mut state = ServerState::new();
    state.store_for_retransmit(4, &[1; 24], 1);
    assert!(state.fits(4, 280));
    let mut packet = build_data_packet(4, 2, 0);
    packet.resize(280, 7);
    assert!(!state.handle_packet(&packet, host(1)).overflow);
    assert_eq!(state.fulfill_nack(4, 2), Some(packet));
}

#[test]
fn a_packet_too_long_to_keep_is_forwarded_only() {
    let mut state = ServerState::new();
    state.handle_packet(&build_subscribe_packet(4), host(1));
    let mut packet = build_data_packet(4, 0, 0);
    packet.resize(281, 0);
    let handled = state.handle_packet(&packet, host(2));
    assert!(handled.overflow);
    assert_eq!(handled.out.len(), 1);
    assert!(state.fulfill_nack(4, 0).is_none());
}
