//! Frames of the stream service.

use bytes::{Bytes, BytesMut};
use hugimq::frame::{
    build_subscribe_frame, encode_batch, next_frame, parse_first_header, parse_publish,
    parse_subscribe, push_publish_frame, Message, NextFrame, MSG_PUBLISH, MSG_SUBSCRIBE,
};
use std::sync::Arc;

fn message(payload: &[u8]) -> Message {
    Message { payload: Arc::new(Bytes::copy_from_slice(payload)) }
}

fn stream(bytes: &[u8]) -> BytesMut {
    BytesMut::from(bytes)
}

#[test]
fn a_subscribe_frame_asks_for_its_topic() {
    let frame = build_subscribe_frame("news");
    assert_eq!(frame, b"\x00\x07\x01\x00\x04news");
    assert_eq!(parse_first_header(&[frame[0], frame[1], frame[2]]), Some((MSG_SUBSCRIBE, 6)));
    assert_eq!(parse_subscribe(&frame[3..]).unwrap(), "news");
    assert_eq!(parse_first_header(&[0, 0, 1]), None);
}

#[test]
fn a_topic_longer_than_its_frame_is_refused() {
    assert!(parse_subscribe(b"\x00").is_none());
    assert!(parse_subscribe(b"\x00\x05news").is_none());
    assert!(parse_publish(&Bytes::copy_from_slice(b"\x01\x00news")).is_none());
    assert_eq!(parse_subscribe(b"\x00\x00").unwrap(), "");
}

#[test]
fn a_publish_frame_is_read_back() {
    let mut out: Vec<u8> = vec![];
    push_publish_frame(&mut out, "t\u{e9}", b"hello");
    assert_eq!(out, b"\x00\x0b\x02\x00\x03t\xc3\xa9hello");
    push_publish_frame(&mut out, "u", b"");
    let mut buf = stream(&out);
    match next_frame(&mut buf) {
        NextFrame::Frame { msg_type, body } => {
            assert_eq!(msg_type, MSG_PUBLISH);
            let (topic, payload) = parse_publish(&body).unwrap();
            assert_eq!(topic, "t\u{e9}");
            assert_eq!(&payload[..], b"hello");
        }
        _ => panic!("no frame"),
    }
    match next_frame(&mut buf) {
        NextFrame::Frame { body, .. } => {
            let (topic, payload) = parse_publish(&body).unwrap();
            assert_eq!((topic.as_str(), payload.len()), ("u", 0));
        }
        _ => panic!("no frame"),
    }
    assert!(buf.is_empty());
}

#[test]
fn invalid_text_is_replaced() {
    assert_eq!(parse_subscribe(b"\x00\x02a\xff").unwrap(), "a\u{fffd}");
}

#[test]
fn an_incomplete_frame_stays() {
    let mut buf = stream(b"\x00\x05\x02ab");
    assert!(matches!(next_frame(&mut buf), NextFrame::Incomplete));
    assert_eq!(buf.len(), 5);
    buf.extend_from_slice(b"cd");
    assert!(matches!(next_frame(&mut buf), NextFrame::Frame { .. }));
    let mut short = stream(b"\x00\x00");
    assert!(matches!(next_frame(&mut short), NextFrame::Incomplete));
    short.extend_from_slice(b"\x09");
    assert!(matches!(next_frame(&mut short), NextFrame::Empty));
    assert_eq!(short.len(), 3);
}

#[test]
fn where_a_stream_is_cut_does_not_matter() {
    let mut bytes: Vec<u8> = vec![];
    push_publish_frame(&mut bytes, "a", b"one");
    push_publish_frame(&mut bytes, "b", b"two");
    for cut in 0..bytes.len() {
        let mut buf = stream(&bytes[..cut]);
        let mut bodies: Vec<Vec<u8>> = vec![];
        for part in [&b""[..], &bytes[cut..]] {
            buf.extend_from_slice(part);
            while let NextFrame::Frame { body, .. } = next_frame(&mut buf) {
                bodies.push(body.to_vec());
            }
        }
        assert_eq!(bodies, vec![b"\x00\x01aone".to_vec(), b"\x00\x01btwo".to_vec()]);
        assert!(buf.is_empty());
    }
}

#[test]
fn a_batch_is_one_data_frame_per_message() {
    let batch = encode_batch("ab", &vec![message(b"x"), message(b"")]).unwrap();
    assert_eq!(
        &batch[..],
        b"\x00\x08\x03\x00\x02ab\x00\x01x\x00\x07\x03\x00\x02ab\x00\x00"
    );
    assert_eq!(encode_batch("ab", &vec![]).unwrap().len(), 0);
    let first = encode_batch("ab", &vec![message(b"x")]).unwrap();
    let second = encode_batch("ab", &vec![message(b"")]).unwrap();
    assert_eq!([&first[..], &second[..]].concat(), batch.to_vec());
}

#[test]
fn lengths_keep_their_low_sixteen_bits() {
    let payload = vec![1u8; 65536];
    let batch = encode_batch("", &vec![message(&payload)]).unwrap();
    assert_eq!(batch.len(), 65536 + 7);
    assert_eq!(&batch[..7], &[0, 5, 3, 0, 0, 0, 0]);
}
