//! The datagram protocol.

use hugimq::protocol::{
    build_data_packet, build_nack_packet, build_subscribe_packet, parse_packet, BenchPayload,
    Header, NackMsg, Packet, SubscribeMsg, HEADER_SIZE, MSG_ACK_CTRL, MSG_DATA, MSG_NACK,
    MSG_RETRANSMIT, MSG_SUBSCRIBE, PAYLOAD_OFFSET,
};

fn header() -> Header {
    Header {
        msg_type: 0x0403_0201,
        topic_id: 0x0807_0605,
        sequence: 0x100f_0e0d_0c0b_0a09,
        timestamp_ns: 0x1817_1615_1413_1211,
    }
}

#[test]
fn the_constants_are_those_of_the_wire() {
    assert_eq!(HEADER_SIZE, 24);
    assert_eq!(PAYLOAD_OFFSET, 24);
    assert_eq!([MSG_DATA, MSG_SUBSCRIBE, MSG_NACK, MSG_RETRANSMIT, MSG_ACK_CTRL], [1, 2, 3, 4, 5]);
    assert_eq!(BenchPayload::size(), 20);
}

#[test]
fn a_header_is_little_endian() {
    let mut buf = vec![0xffu8; 26];
    header().serialize(&mut buf);
    let expected: Vec<u8> = (1u8..=24).chain([0xff, 0xff]).collect();
    assert_eq!(buf, expected);
    let back = Header::deserialize(&buf);
    assert_eq!(back.msg_type, 0x0403_0201);
    assert_eq!(back.topic_id, 0x0807_0605);
    assert_eq!(back.sequence, 0x100f_0e0d_0c0b_0a09);
    assert_eq!(back.timestamp_ns, 0x1817_1615_1413_1211);
}

#[test]
fn a_payload_takes_twenty_bytes() {
    let payload = BenchPayload { topic_id: 1, sequence: 2, send_timestamp_ns: u64::MAX };
    let mut buf = vec![9u8; 24];
    payload.serialize(&mut buf);
    assert_eq!(buf[..20], [1, 0, 0, 0, 2, 0, 0, 0, 0, 0, 0, 0, 255, 255, 255, 255, 255, 255, 255, 255]);
    assert_eq!(buf[20..], [9, 9, 9, 9]);
    let back = BenchPayload::deserialize(&buf);
    assert_eq!((back.topic_id, back.sequence, back.send_timestamp_ns), (1, 2, u64::MAX));
}

#[test]
fn a_packet_is_its_header_and_its_payload() {
    let packet = Packet { header: header(), payload: vec![100, 101] };
    let bytes = packet.to_bytes();
    let expected: Vec<u8> = (1u8..=24).chain([100, 101]).collect();
    assert_eq!(bytes, expected);
    let back = Packet::from_bytes(&bytes);
    assert_eq!(back.payload, vec![100, 101]);
    assert_eq!(back.header.sequence, header().sequence);
    assert_eq!(back.to_bytes(), bytes);
}

#[test]
fn a_subscription_body_is_read_back() {
    let mut addr = [0u8; 18];
    for i in 0..18 {
        addr[i] = i as u8 + 1;
    }
    let mut buf = vec![0u8; 20];
    SubscribeMsg { subscriber_addr: addr }.serialize(&mut buf);
    assert_eq!(buf[..18], addr);
    assert_eq!(buf[18..], [0, 0]);
    assert_eq!(SubscribeMsg::deserialize(&buf).subscriber_addr, addr);
}

#[test]
fn a_nack_body_is_read_back() {
    let mut buf = vec![0u8; 16];
    NackMsg { start_seq: 258, end_seq: 3 }.serialize(&mut buf);
    assert_eq!(buf, vec![2, 1, 0, 0, 0, 0, 0, 0, 3, 0, 0, 0, 0, 0, 0, 0]);
    let back = NackMsg::deserialize(&buf);
    assert_eq!((back.start_seq, back.end_seq), (258, 3));
}

#[test]
fn a_data_packet_is_understood() {
    let packet = build_data_packet(7, 300, 5);
    assert_eq!(packet.len(), 44);
    assert_eq!(packet[..9], [1, 0, 0, 0, 7, 0, 0, 0, 44]);
    assert_eq!(packet[24..33], [7, 0, 0, 0, 44, 1, 0, 0, 0]);
    let (msg_type, topic, seq, ts, payload) = parse_packet(&packet).unwrap();
    assert_eq!((msg_type, topic, seq, ts), (MSG_DATA, 7, 300, 5));
    let payload = payload.unwrap();
    assert_eq!((payload.topic_id, payload.sequence, payload.send_timestamp_ns), (7, 300, 5));
}

#[test]
fn control_packets_are_understood() {
    let packet = build_subscribe_packet(9);
    assert_eq!(packet.len(), 24);
    let (msg_type, topic, seq, ts, payload) = parse_packet(&packet).unwrap();
    assert_eq!((msg_type, topic, seq, ts), (MSG_SUBSCRIBE, 9, 0, 0));
    assert!(payload.is_none());

    let packet = build_nack_packet(9, 10, 12);
    assert_eq!(packet.len(), 40);
    assert_eq!(Header::deserialize(&packet).msg_type, MSG_NACK);
    let nack = NackMsg::deserialize(&packet[24..]);
    assert_eq!((nack.start_seq, nack.end_seq), (10, 12));
}

#[test]
fn a_short_packet_is_none_and_a_payload_needs_its_room() {
    let packet = build_data_packet(1, 2, 3);
    assert!(parse_packet(&packet[..23]).is_none());
    assert!(parse_packet(&packet[..24]).unwrap().4.is_none());
    assert!(parse_packet(&packet[..43]).unwrap().4.is_none());
    assert!(parse_packet(&packet[..44]).unwrap().4.is_some());
}
