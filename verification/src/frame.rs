//! Frames of the stream service.
//!
//! Every frame is `[total: be16][type: 1 byte][body]`, where `total` counts the type and the body.
//!
//! | type             | body                                             |
//! |------------------|--------------------------------------------------|
//! | `SUBSCRIBE`      | `[topic length: be16][topic]`                    |
//! | `PUBLISH`        | `[topic length: be16][topic][payload]`           |
//! | `SUBSCRIBE_DATA` | `[topic length: be16][topic][payload length: be16][payload]` |

use crate::buffers;
use crate::buffers::{
    bytes_from, bytes_mut_slice, bytes_slice, from_utf8_lossy, put_slice, put_u16, put_u8,
};
use crate::codec;
use bytes::{Bytes, BytesMut};
use std::sync::Arc;
use vstd::prelude::*;
use vstd::slice::slice_subrange;
use vstd::utf8;

verus! {

/// Asks for the messages of a topic.
pub const MSG_SUBSCRIBE: u8 = 0x01;

/// Carries a message from a producer.
pub const MSG_PUBLISH: u8 = 0x02;

/// Carries a message to a consumer.
pub const MSG_SUBSCRIBE_DATA: u8 = 0x03;

/// Bytes that are set aside per message when a batch is encoded.
pub const ENCODED_SIZE_HINT: usize = 150;

/// The low sixteen bits of a number.
pub open spec fn low16(n: nat) -> u16 {
    (n % 65536) as u16
}

/// The frame that asks for a topic.
pub open spec fn subscribe_frame(topic: Seq<u8>) -> Seq<u8> {
    codec::be16(low16(3 + topic.len())) + seq![MSG_SUBSCRIBE] + codec::be16(
        low16(topic.len()),
    ) + topic
}

/// The frame that carries `payload` from a producer.
pub open spec fn publish_frame(topic: Seq<u8>, payload: Seq<u8>) -> Seq<u8> {
    codec::be16(low16(3 + topic.len() + payload.len())) + seq![MSG_PUBLISH] + codec::be16(
        low16(topic.len()),
    ) + topic + payload
}

/// The frame that carries `payload` to a consumer.
pub open spec fn data_frame(topic: Seq<u8>, payload: Seq<u8>) -> Seq<u8> {
    codec::be16(low16(5 + topic.len() + payload.len())) + seq![MSG_SUBSCRIBE_DATA] + codec::be16(
        low16(topic.len()),
    ) + topic + codec::be16(low16(payload.len())) + payload
}

/// The data frames of some payloads, one behind the other.
pub open spec fn data_frames(topic: Seq<u8>, payloads: Seq<Seq<u8>>) -> Seq<u8>
    decreases payloads.len(),
{
    if payloads.len() == 0 {
        Seq::empty()
    } else {
        data_frames(topic, payloads.drop_last()) + data_frame(topic, payloads.last())
    }
}

/// How long the first frame of a stream is, by its length field.
pub open spec fn frame_len(s: Seq<u8>) -> int {
    2 + codec::be16_at(s, 0)
}

/// Whether a stream starts with a whole frame. One with neither type nor body is seen only together
/// with the byte behind it.
pub open spec fn has_frame(s: Seq<u8>) -> bool {
    s.len() >= 3 && s.len() >= frame_len(s)
}

/// Type and body of a frame.
#[verifier::ext_equal]
pub struct FrameView {
    pub msg_type: u8,
    pub body: Seq<u8>,
}

/// The first frame of a stream.
pub open spec fn first_frame(s: Seq<u8>) -> FrameView {
    FrameView { msg_type: s[2], body: s.subrange(3, frame_len(s)) }
}

/// The frames of a stream, up to one that is not complete or has no type.
pub open spec fn frames_of(s: Seq<u8>) -> Seq<FrameView>
    decreases s.len(),
{
    if has_frame(s) && frame_len(s) > 2 {
        seq![first_frame(s)] + frames_of(s.skip(frame_len(s)))
    } else {
        Seq::empty()
    }
}

/// What is left of a stream behind its frames.
pub open spec fn remainder_of(s: Seq<u8>) -> Seq<u8>
    decreases s.len(),
{
    if has_frame(s) && frame_len(s) > 2 {
        remainder_of(s.skip(frame_len(s)))
    } else {
        s
    }
}

/// What stands at the front of a stream.
pub enum NextFrame {
    /// The first frame has not arrived as a whole.
    Incomplete,
    /// The first frame has neither type nor body.
    Empty,
    /// The first frame, taken off the stream.
    Frame { msg_type: u8, body: Bytes },
}

/// Takes the first frame off a stream.
pub fn next_frame(buf: &mut BytesMut) -> (next: NextFrame)
    ensures
        ({
            let s = buffers::bytes_mut_contents(*old(buf));
            let rest = buffers::bytes_mut_contents(*final(buf));
            match next {
                NextFrame::Incomplete => !has_frame(s) && rest == s,
                NextFrame::Empty => has_frame(s) && frame_len(s) == 2 && rest == s,
                NextFrame::Frame { msg_type, body } => {
                    &&& has_frame(s)
                    &&& frame_len(s) > 2
                    &&& first_frame(s) == (FrameView {
                        msg_type,
                        body: buffers::bytes_contents(body),
                    })
                    &&& rest == s.skip(frame_len(s))
                },
            }
        }),
{
    let ghost s = buffers::bytes_mut_contents(*buf);
    if buf.len() < 3 {
        return NextFrame::Incomplete;
    }
    let total: usize = get_be16(bytes_mut_slice(buf), 0);
    let len: usize = 2 + total;
    if buf.len() < len {
        return NextFrame::Incomplete;
    }
    if total == 0 {
        return NextFrame::Empty;
    }
    let mut frame = buf.split_to(len);
    buffers::bytes_mut_advance(&mut frame, 2);
    let msg_type: u8 = bytes_mut_slice(&frame)[0];
    let body = frame.split_off(1).freeze();
    assert(buffers::bytes_contents(body) =~= s.subrange(3, frame_len(s)));
    NextFrame::Frame { msg_type, body }
}

/// Whether a body starts with a topic.
pub open spec fn has_topic(body: Seq<u8>) -> bool {
    body.len() >= 2 && body.len() >= 2 + codec::be16_at(body, 0)
}

/// The bytes of the topic that a body starts with.
pub open spec fn topic_of(body: Seq<u8>) -> Seq<u8> {
    body.subrange(2, 2 + codec::be16_at(body, 0))
}

/// What follows the topic in a body.
pub open spec fn behind_topic(body: Seq<u8>) -> Seq<u8> {
    body.skip(2 + codec::be16_at(body, 0))
}

/// The message that the body of a PUBLISH frame carries: the name of its topic, and its payload.
pub open spec fn published(body: Seq<u8>) -> Option<(Seq<char>, Seq<u8>)> {
    if has_topic(body) {
        Some((buffers::lossy_text(topic_of(body)), behind_topic(body)))
    } else {
        None
    }
}

/// The body of a frame that starts with a topic: its length, the topic, and what follows.
pub open spec fn topic_body(topic: Seq<u8>, behind: Seq<u8>) -> Seq<u8> {
    codec::be16(topic.len() as u16) + topic + behind
}

/// A topic that is valid UTF-8 has the name that it spells.
pub open spec fn text_agrees(body: Seq<u8>) -> bool {
    has_topic(body) && utf8::valid_utf8(topic_of(body)) ==> buffers::lossy_text(topic_of(body))
        == utf8::decode_utf8(topic_of(body))
}

/// The two bytes of `buf` from `at` on, most significant first.
fn get_be16(buf: &[u8], at: usize) -> (x: usize)
    requires
        at + 2 <= buf@.len(),
    ensures
        x == codec::be16_at(buf@, at as int),
        x <= 65535,
{
    assert(at + 2 <= buf.len());
    buf[at] as usize * 256 + buf[at + 1] as usize
}

/// The name of the topic that a body starts with, and where the topic ends.
fn read_topic(body: &[u8]) -> (topic: Option<(String, usize)>)
    ensures
        match topic {
            Some((name, end)) => {
                &&& has_topic(body@)
                &&& name@ == buffers::lossy_text(topic_of(body@))
                &&& end == 2 + codec::be16_at(body@, 0)
            },
            None => !has_topic(body@),
        },
        text_agrees(body@),
{
    if body.len() < 2 {
        return None;
    }
    let topic_len: usize = get_be16(body, 0);
    if body.len() < 2 + topic_len {
        return None;
    }
    Some((from_utf8_lossy(slice_subrange(body, 2, 2 + topic_len)), 2 + topic_len))
}

/// Takes the body of a PUBLISH frame apart: the name of the topic, and the payload. `None` where the
/// topic is longer than the body.
pub fn parse_publish(body: &Bytes) -> (message: Option<(String, Bytes)>)
    ensures
        match message {
            Some((name, payload)) => published(buffers::bytes_contents(*body)) == Some(
                (name@, buffers::bytes_contents(payload)),
            ),
            None => published(buffers::bytes_contents(*body)) is None,
        },
        text_agrees(buffers::bytes_contents(*body)),
        forall|topic: Seq<char>, payload: Seq<u8>|
            utf8::encode_utf8(topic).len() <= 65535 && buffers::bytes_contents(*body)
                == #[trigger] topic_body(utf8::encode_utf8(topic), payload) ==> match message {
                Some((name, p)) => name@ == topic && buffers::bytes_contents(p) == payload,
                None => false,
            },
{
    proof {
        lemma_names_of_bodies(buffers::bytes_contents(*body));
    }
    match read_topic(bytes_slice(body)) {
        Some((name, end)) => Some((name, bytes_from(body, end))),
        None => None,
    }
}

/// The name of the topic that the body of a SUBSCRIBE frame asks for. `None` where the topic is
/// longer than the body.
pub fn parse_subscribe(body: &[u8]) -> (topic: Option<String>)
    ensures
        match topic {
            Some(name) => has_topic(body@) && name@ == buffers::lossy_text(topic_of(body@)),
            None => !has_topic(body@),
        },
        text_agrees(body@),
        forall|name: Seq<char>, behind: Seq<u8>|
            utf8::encode_utf8(name).len() <= 65535 && body@ == #[trigger] topic_body(
                utf8::encode_utf8(name),
                behind,
            ) ==> (topic matches Some(text) && text@ == name),
{
    proof {
        lemma_names_of_bodies(body@);
    }
    match read_topic(body) {
        Some((name, _)) => Some(name),
        None => None,
    }
}

/// Type and length of the body of the frame that starts with three bytes, if it has a type.
pub open spec fn first_header(header: Seq<u8>) -> Option<(u8, int)> {
    if codec::be16_at(header, 0) == 0 {
        None
    } else {
        Some((header[2], codec::be16_at(header, 0) - 1))
    }
}

/// The first three bytes of a stream say of what type its first frame is, and how long its body is.
/// `None` where the frame has no type.
pub fn parse_first_header(header: &[u8; 3]) -> (first: Option<(u8, usize)>)
    ensures
        match first {
            Some((msg_type, len)) => {
                &&& codec::be16_at(header@, 0) > 0
                &&& msg_type == header@[2]
                &&& len == codec::be16_at(header@, 0) - 1
            },
            None => codec::be16_at(header@, 0) == 0,
        },
        match first {
            Some((msg_type, len)) => first_header(header@) == Some((msg_type, len as int)),
            None => first_header(header@) is None,
        },
{
    let total: usize = header[0] as usize * 256 + header[1] as usize;
    if total == 0 {
        None
    } else {
        Some((header[2], total - 1))
    }
}

/// Puts the low sixteen bits of `n` behind `out`, most significant byte first.
fn push_be16(out: &mut Vec<u8>, n: usize)
    ensures
        final(out)@ == old(out)@ + codec::be16(low16(n as nat)),
{
    let low: usize = n % 65536;
    out.push((low / 256) as u8);
    out.push((low % 256) as u8);
    assert(out@ =~= old(out)@ + codec::be16(low16(n as nat)));
}

/// Builds the frame that asks for a topic.
pub fn build_subscribe_frame(topic: &str) -> (frame: Vec<u8>)
    requires
        utf8::encode_utf8(topic@).len() + 5 <= usize::MAX,
    ensures
        frame@ == subscribe_frame(utf8::encode_utf8(topic@)),
{
    let bytes = topic.as_bytes();
    assert(bytes@.len() + 5 <= usize::MAX);
    let mut frame: Vec<u8> = Vec::with_capacity(5 + bytes.len());
    push_be16(&mut frame, 3 + bytes.len());
    frame.push(MSG_SUBSCRIBE);
    push_be16(&mut frame, bytes.len());
    frame.extend_from_slice(bytes);
    assert(frame@ =~= subscribe_frame(utf8::encode_utf8(topic@)));
    frame
}

/// Puts a PUBLISH frame behind `out`.
pub fn push_publish_frame(out: &mut Vec<u8>, topic: &str, payload: &[u8])
    requires
        3 + utf8::encode_utf8(topic@).len() + payload@.len() <= usize::MAX,
    ensures
        final(out)@ == old(out)@ + publish_frame(utf8::encode_utf8(topic@), payload@),
{
    let bytes = topic.as_bytes();
    assert(3 + bytes@.len() + payload@.len() <= usize::MAX);
    push_be16(out, 3 + bytes.len() + payload.len());
    out.push(MSG_PUBLISH);
    push_be16(out, bytes.len());
    out.extend_from_slice(bytes);
    out.extend_from_slice(payload);
    assert(out@ =~= old(out)@ + publish_frame(utf8::encode_utf8(topic@), payload@));
}

/// A message of a topic.
#[derive(Debug, Clone)]
pub struct Message {
    pub payload: Arc<Bytes>,
}

impl View for Message {
    type V = Seq<u8>;

    /// The payload.
    open spec fn view(&self) -> Seq<u8> {
        buffers::bytes_contents(*self.payload)
    }
}

/// The payloads of some messages.
pub open spec fn payloads(messages: Seq<Message>) -> Seq<Seq<u8>> {
    messages.map_values(|m: Message| m@)
}

/// The data frames of a longer run of messages are no shorter.
proof fn lemma_data_frames_grow(topic: Seq<u8>, all: Seq<Seq<u8>>, k: int)
    requires
        0 <= k <= all.len(),
    ensures
        data_frames(topic, all.take(k)).len() <= data_frames(topic, all).len(),
    decreases all.len(),
{
    if k == all.len() {
        assert(all.take(k) =~= all);
    } else {
        assert(all.take(k) =~= all.drop_last().take(k));
        lemma_data_frames_grow(topic, all.drop_last(), k);
    }
}

/// Encodes the messages of a topic once, for all its subscribers: their data frames, one behind the
/// other. `None` where those would be more than half as long as an allocation can be.
pub fn encode_batch(topic: &str, messages: &Vec<Message>) -> (batch: Option<Bytes>)
    ensures
        match batch {
            Some(b) => {
                &&& messages@.len() * ENCODED_SIZE_HINT <= isize::MAX / 2
                &&& buffers::bytes_contents(b) == data_frames(
                    utf8::encode_utf8(topic@),
                    payloads(messages@),
                )
                &&& buffers::bytes_contents(b).len() <= isize::MAX / 2
            },
            None => {
                ||| messages@.len() * ENCODED_SIZE_HINT > isize::MAX / 2
                ||| data_frames(utf8::encode_utf8(topic@), payloads(messages@)).len() > isize::MAX / 2
            },
        },
{
    let limit: usize = (isize::MAX / 2) as usize;
    if messages.len() > limit / ENCODED_SIZE_HINT {
        return None;
    }
    let bytes = topic.as_bytes();
    let mut batch = BytesMut::with_capacity(messages.len() * ENCODED_SIZE_HINT);
    let ghost all = payloads(messages@);
    let mut i: usize = 0;
    assert(all.take(0) =~= Seq::<Seq<u8>>::empty());
    while i < messages.len()
        invariant
            limit == isize::MAX / 2,
            messages@.len() * ENCODED_SIZE_HINT <= isize::MAX / 2,
            all == payloads(messages@),
            bytes@ == utf8::encode_utf8(topic@),
            i <= messages@.len(),
            buffers::bytes_mut_uncut(batch),
            buffers::bytes_mut_contents(batch) == data_frames(bytes@, all.take(i as int)),
            buffers::bytes_mut_contents(batch).len() <= isize::MAX / 2,
        decreases messages@.len() - i,
    {
        let ghost before = buffers::bytes_mut_contents(batch);
        proof {
            assert(all.take(i + 1).drop_last() =~= all.take(i as int));
            assert(all.take(i + 1).last() == all[i as int]);
            lemma_data_frames_grow(bytes@, all, i + 1);
        }
        let payload = bytes_slice(&messages[i].payload);
        assert(payload@ == all[i as int]);
        let room: usize = limit - batch.len();
        if room < 7 || bytes.len() > room - 7 || payload.len() > room - 7 - bytes.len() {
            assert(data_frames(bytes@, all.take(i + 1)).len() == before.len() + 7 + bytes@.len()
                + payload@.len());
            return None;
        }
        put_u16(&mut batch, ((5 + bytes.len() + payload.len()) % 65536) as u16);
        put_u8(&mut batch, MSG_SUBSCRIBE_DATA);
        put_u16(&mut batch, (bytes.len() % 65536) as u16);
        put_slice(&mut batch, bytes);
        put_u16(&mut batch, (payload.len() % 65536) as u16);
        put_slice(&mut batch, payload);
        assert(buffers::bytes_mut_contents(batch) =~= before + data_frame(bytes@, payload@));
        i += 1;
    }
    assert(all.take(i as int) =~= all);
    Some(batch.freeze())
}

/// Where a stream is cut into reads does not matter: the frames of the whole are those of the first
/// part, followed by those of what was left of it with the second part behind.
pub proof fn law_cuts_do_not_matter(a: Seq<u8>, b: Seq<u8>)
    ensures
        frames_of(a + b) == frames_of(a) + frames_of(remainder_of(a) + b),
        remainder_of(a + b) == remainder_of(remainder_of(a) + b),
    decreases a.len(),
{
    if has_frame(a) && frame_len(a) > 2 {
        let rest = a.skip(frame_len(a));
        assert(codec::be16_at(a + b, 0) == codec::be16_at(a, 0));
        assert((a + b).skip(frame_len(a)) =~= rest + b);
        assert(first_frame(a + b).body =~= first_frame(a).body);
        law_cuts_do_not_matter(rest, b);
        assert(frames_of(a + b) =~= frames_of(a) + frames_of(remainder_of(a) + b));
    } else {
        assert(frames_of(a) + frames_of(a + b) =~= frames_of(a + b));
    }
}

/// A frame of the given type and body.
pub open spec fn wire_frame(f: FrameView) -> Seq<u8> {
    codec::be16(low16(1 + f.body.len())) + seq![f.msg_type] + f.body
}

/// A frame whose length fits its length field is read back, whatever follows it.
pub proof fn law_frame_round_trip(f: FrameView, rest: Seq<u8>)
    requires
        1 + f.body.len() <= 65535,
    ensures
        frames_of(wire_frame(f) + rest) == seq![f] + frames_of(rest),
        remainder_of(wire_frame(f) + rest) == remainder_of(rest),
{
    let s = wire_frame(f) + rest;
    assert(s.subrange(0, 2) =~= codec::be16(low16(1 + f.body.len())));
    codec::lemma_be16_round_trip(s, 0, low16(1 + f.body.len()));
    assert(frame_len(s) == 3 + f.body.len());
    assert(first_frame(s).body =~= f.body);
    assert(first_frame(s) =~= f);
    assert(s.skip(frame_len(s)) =~= rest);
}

/// A topic at the front of a body is read back, whatever follows it.
proof fn lemma_topic_round_trip(topic: Seq<u8>, rest: Seq<u8>)
    requires
        topic.len() <= 65535,
    ensures
        has_topic(codec::be16(low16(topic.len())) + topic + rest),
        topic_of(codec::be16(low16(topic.len())) + topic + rest) == topic,
        behind_topic(codec::be16(low16(topic.len())) + topic + rest) == rest,
{
    let body = codec::be16(low16(topic.len())) + topic + rest;
    assert(body.subrange(0, 2) =~= codec::be16(low16(topic.len())));
    codec::lemma_be16_round_trip(body, 0, low16(topic.len()));
    assert(topic_of(body) =~= topic);
    assert(behind_topic(body) =~= rest);
}

/// The same of a body that was put together.
proof fn lemma_topic_body(topic: Seq<u8>, behind: Seq<u8>)
    requires
        topic.len() <= 65535,
    ensures
        has_topic(topic_body(topic, behind)),
        topic_of(topic_body(topic, behind)) == topic,
        behind_topic(topic_body(topic, behind)) == behind,
{
    assert(topic.len() as u16 == low16(topic.len()));
    lemma_topic_round_trip(topic, behind);
}

/// What follows from a body that starts with the UTF-8 form of a name.
#[verifier::spinoff_prover]
proof fn lemma_names_of_bodies(body: Seq<u8>)
    ensures
        forall|name: Seq<char>, behind: Seq<u8>|
            utf8::encode_utf8(name).len() <= 65535 && body == #[trigger] topic_body(
                utf8::encode_utf8(name),
                behind,
            ) ==> {
                &&& has_topic(body)
                &&& topic_of(body) == utf8::encode_utf8(name)
                &&& behind_topic(body) == behind
                &&& utf8::valid_utf8(topic_of(body))
                &&& utf8::decode_utf8(topic_of(body)) == name
            },
{
    assert forall|name: Seq<char>, behind: Seq<u8>|
        utf8::encode_utf8(name).len() <= 65535 && body == #[trigger] topic_body(
            utf8::encode_utf8(name),
            behind,
        ) implies {
        &&& has_topic(body)
        &&& topic_of(body) == utf8::encode_utf8(name)
        &&& behind_topic(body) == behind
        &&& utf8::valid_utf8(topic_of(body))
        &&& utf8::decode_utf8(topic_of(body)) == name
    } by {
        lemma_topic_body(utf8::encode_utf8(name), behind);
        utf8::encode_utf8_valid_utf8(name);
        utf8::encode_utf8_decode_utf8(name);
    }
}

/// Whatever the topic and however long the payload, the body that carries them publishes that
/// payload to that topic. A body that is put together in no such way publishes nothing.
pub proof fn law_bodies_publish_what_they_carry(body: Seq<u8>)
    ensures
        forall|topic: Seq<u8>, payload: Seq<u8>|
            topic.len() <= 65535 && body == #[trigger] topic_body(topic, payload) ==> published(
                body,
            ) == Some((buffers::lossy_text(topic), payload)),
        published(body) is Some ==> exists|topic: Seq<u8>, payload: Seq<u8>|
            topic.len() <= 65535 && body == #[trigger] topic_body(topic, payload),
{
    assert forall|topic: Seq<u8>, payload: Seq<u8>|
        topic.len() <= 65535 && body == #[trigger] topic_body(topic, payload) implies published(
        body,
    ) == Some((buffers::lossy_text(topic), payload)) by {
        lemma_topic_body(topic, payload);
    }
    if published(body) is Some {
        let (topic, payload) = (topic_of(body), behind_topic(body));
        codec::lemma_be16_of_bytes(body, 0);
        assert(body =~= topic_body(topic, payload));
    }
}

/// The same for the topic that a SUBSCRIBE asks for: it is found just in bodies that start with a
/// topic, and whatever follows the topic does not matter.
pub proof fn law_bodies_start_with_their_topic(body: Seq<u8>)
    ensures
        forall|topic: Seq<u8>, behind: Seq<u8>|
            topic.len() <= 65535 && body == #[trigger] topic_body(topic, behind) ==> has_topic(
                body,
            ) && topic_of(body) == topic && behind_topic(body) == behind,
        has_topic(body) ==> exists|topic: Seq<u8>, behind: Seq<u8>|
            topic.len() <= 65535 && body == #[trigger] topic_body(topic, behind),
{
    assert forall|topic: Seq<u8>, behind: Seq<u8>|
        topic.len() <= 65535 && body == #[trigger] topic_body(topic, behind) implies has_topic(body)
        && topic_of(body) == topic && behind_topic(body) == behind by {
        lemma_topic_body(topic, behind);
    }
    if has_topic(body) {
        codec::lemma_be16_of_bytes(body, 0);
        assert(body =~= topic_body(topic_of(body), behind_topic(body)));
    }
}

/// A PUBLISH frame publishes what it was built for, whatever follows it in the stream: to its topic,
/// by the name that the topic's bytes are read as, exactly its payload. A topic that is read as it
/// is spelled has its own name.
#[verifier::spinoff_prover]
pub proof fn law_publish_frame_publishes(topic: Seq<u8>, payload: Seq<u8>, rest: Seq<u8>)
    requires
        3 + topic.len() + payload.len() <= 65535,
    ensures
        ({
            let s = publish_frame(topic, payload) + rest;
            &&& has_frame(s)
            &&& frames_of(s).len() > 0
            &&& frames_of(s)[0] == first_frame(s)
            &&& frames_of(s).drop_first() == frames_of(rest)
            &&& s.skip(frame_len(s)) == rest
            &&& first_frame(s).msg_type == MSG_PUBLISH
            &&& published(first_frame(s).body) == Some((buffers::lossy_text(topic), payload))
        }),
        forall|name: Seq<char>|
            topic == #[trigger] utf8::encode_utf8(name) && text_agrees(
                first_frame(publish_frame(topic, payload) + rest).body,
            ) ==> published(first_frame(publish_frame(topic, payload) + rest).body) == Some(
                (name, payload),
            ),
{
    let body = topic_body(topic, payload);
    let f = FrameView { msg_type: MSG_PUBLISH, body };
    assert(wire_frame(f) =~= publish_frame(topic, payload));
    lemma_first_frame(f, rest);
    law_frame_round_trip(f, rest);
    assert(frames_of(wire_frame(f) + rest).drop_first() =~= frames_of(rest));
    law_bodies_publish_what_they_carry(body);
    assert forall|name: Seq<char>|
        topic == #[trigger] utf8::encode_utf8(name) && text_agrees(body) implies published(body)
        == Some((name, payload)) by {
        lemma_names_of_bodies(body);
        assert(body == topic_body(utf8::encode_utf8(name), payload));
    }
}

/// A frame is the first of the stream that it stands at the front of.
proof fn lemma_first_frame(f: FrameView, rest: Seq<u8>)
    requires
        1 + f.body.len() <= 65535,
    ensures
        has_frame(wire_frame(f) + rest),
        frame_len(wire_frame(f) + rest) == wire_frame(f).len(),
        first_frame(wire_frame(f) + rest) == f,
        (wire_frame(f) + rest).skip(frame_len(wire_frame(f) + rest)) == rest,
{
    let s = wire_frame(f) + rest;
    let total = low16(1 + f.body.len());
    assert(s.subrange(0, 2) =~= codec::be16(total));
    codec::lemma_be16_round_trip(s, 0, total);
    assert(first_frame(s).body =~= f.body);
    assert(first_frame(s) =~= f);
    assert(s.skip(frame_len(s)) =~= rest);
}

/// The frames of a stream and what is left behind them are the stream: nothing of it is skipped, and
/// what is left does not start with a whole frame that has a type.
pub proof fn law_frames_make_up_the_stream(s: Seq<u8>)
    ensures
        wire_frames(frames_of(s)) + remainder_of(s) == s,
        remainder_of(s).len() >= 3 ==> {
            let total = codec::be16_at(remainder_of(s), 0);
            total == 0 || remainder_of(s).len() < 2 + total
        },
    decreases s.len(),
{
    if has_frame(s) && frame_len(s) > 2 {
        let rest = s.skip(frame_len(s));
        let f = first_frame(s);
        law_frames_make_up_the_stream(rest);
        codec::lemma_be16_of_bytes(s, 0);
        assert(wire_frame(f) =~= s.take(frame_len(s)));
        assert(frames_of(s).drop_first() =~= frames_of(rest));
        assert(wire_frames(frames_of(s)) + remainder_of(s) =~= wire_frame(f) + (wire_frames(
            frames_of(rest),
        ) + remainder_of(rest)));
        assert(wire_frame(f) + rest =~= s);
    } else {
        assert(wire_frames(frames_of(s)) + remainder_of(s) =~= s);
    }
}

/// Some frames on the wire, one behind the other.
pub open spec fn wire_frames(frames: Seq<FrameView>) -> Seq<u8>
    decreases frames.len(),
{
    if frames.len() == 0 {
        Seq::empty()
    } else {
        wire_frame(frames[0]) + wire_frames(frames.drop_first())
    }
}

/// What a message is built into, however long topic and payload are: the topic and the payload stand
/// in the frame unchanged, and the lengths in front of them lack only what two bytes cannot hold.
#[verifier::spinoff_prover]
pub proof fn law_frames_hold_topic_and_payload(topic: Seq<u8>, payload: Seq<u8>)
    ensures
        ({
            let sent = publish_frame(topic, payload);
            let n = topic.len() as int;
            &&& sent.len() == 5 + n + payload.len()
            &&& codec::be16_at(sent, 0) == (3 + n + payload.len()) % 65536
            &&& codec::be16_at(sent, 3) == n % 65536
            &&& sent.subrange(5, 5 + n) == topic
            &&& sent.skip(5 + n) == payload
        }),
        ({
            let sent = data_frame(topic, payload);
            let n = topic.len() as int;
            &&& sent.len() == 7 + n + payload.len()
            &&& codec::be16_at(sent, 0) == (5 + n + payload.len()) % 65536
            &&& codec::be16_at(sent, 3) == n % 65536
            &&& sent.subrange(5, 5 + n) == topic
            &&& codec::be16_at(sent, 5 + n) == payload.len() % 65536
            &&& sent.skip(7 + n) == payload
        }),
{
    let n = topic.len() as int;
    let a = publish_frame(topic, payload);
    assert(a.subrange(0, 2) =~= codec::be16(low16(3 + topic.len() + payload.len())));
    codec::lemma_be16_round_trip(a, 0, low16(3 + topic.len() + payload.len()));
    assert(a.subrange(3, 5) =~= codec::be16(low16(topic.len())));
    codec::lemma_be16_round_trip(a, 3, low16(topic.len()));
    assert(a.subrange(5, 5 + n) =~= topic);
    assert(a.skip(5 + n) =~= payload);
    let b = data_frame(topic, payload);
    assert(b.subrange(0, 2) =~= codec::be16(low16(5 + topic.len() + payload.len())));
    codec::lemma_be16_round_trip(b, 0, low16(5 + topic.len() + payload.len()));
    assert(b.subrange(3, 5) =~= codec::be16(low16(topic.len())));
    codec::lemma_be16_round_trip(b, 3, low16(topic.len()));
    assert(b.subrange(5, 5 + n) =~= topic);
    assert(b.subrange(5 + n, 7 + n) =~= codec::be16(low16(payload.len())));
    codec::lemma_be16_round_trip(b, 5 + n, low16(payload.len()));
    assert(b.skip(7 + n) =~= payload);
}

/// A SUBSCRIBE frame is understood as it was built: it asks for its topic.
pub proof fn law_subscribe_is_understood(topic: Seq<char>)
    requires
        3 + utf8::encode_utf8(topic).len() <= 65535,
    ensures
        ({
            let frames = frames_of(subscribe_frame(utf8::encode_utf8(topic)));
            &&& frames.len() == 1
            &&& frames[0].msg_type == MSG_SUBSCRIBE
            &&& has_topic(frames[0].body)
            &&& utf8::valid_utf8(topic_of(frames[0].body))
            &&& utf8::decode_utf8(topic_of(frames[0].body)) == topic
        }),
        remainder_of(subscribe_frame(utf8::encode_utf8(topic))) == Seq::<u8>::empty(),
{
    let t = utf8::encode_utf8(topic);
    let f = FrameView { msg_type: MSG_SUBSCRIBE, body: codec::be16(low16(t.len())) + t };
    assert(wire_frame(f) + Seq::<u8>::empty() =~= subscribe_frame(t));
    law_frame_round_trip(f, Seq::empty());
    assert(f.body + Seq::<u8>::empty() =~= f.body);
    lemma_topic_round_trip(t, Seq::empty());
    utf8::encode_utf8_valid_utf8(topic);
    utf8::encode_utf8_decode_utf8(topic);
}

/// A PUBLISH frame is understood as it was built, whatever follows it: it carries its payload to its
/// topic.
pub proof fn law_publish_is_understood(topic: Seq<char>, payload: Seq<u8>, rest: Seq<u8>)
    requires
        3 + utf8::encode_utf8(topic).len() + payload.len() <= 65535,
    ensures
        ({
            let s = publish_frame(utf8::encode_utf8(topic), payload) + rest;
            let body = frames_of(s)[0].body;
            &&& frames_of(s) == seq![FrameView { msg_type: MSG_PUBLISH, body }] + frames_of(rest)
            &&& remainder_of(s) == remainder_of(rest)
            &&& has_topic(body)
            &&& utf8::valid_utf8(topic_of(body))
            &&& utf8::decode_utf8(topic_of(body)) == topic
            &&& behind_topic(body) == payload
        }),
{
    let t = utf8::encode_utf8(topic);
    let body = codec::be16(low16(t.len())) + t + payload;
    let f = FrameView { msg_type: MSG_PUBLISH, body };
    assert(wire_frame(f) =~= publish_frame(t, payload));
    law_frame_round_trip(f, rest);
    lemma_topic_round_trip(t, payload);
    utf8::encode_utf8_valid_utf8(topic);
    utf8::encode_utf8_decode_utf8(topic);
}

/// The body of the data frame that carries `payload`.
pub open spec fn data_body(topic: Seq<u8>, payload: Seq<u8>) -> Seq<u8> {
    codec::be16(low16(topic.len())) + topic + codec::be16(low16(payload.len())) + payload
}

/// The frames that a consumer reads of a batch.
pub open spec fn data_frame_views(topic: Seq<u8>, payloads: Seq<Seq<u8>>) -> Seq<FrameView> {
    payloads.map_values(
        |p: Seq<u8>| FrameView { msg_type: MSG_SUBSCRIBE_DATA, body: data_body(topic, p) },
    )
}

/// A batch is read as one data frame per message, in the order of the messages, whatever follows it.
/// Each frame must fit its length field.
pub proof fn law_batch_is_understood(topic: Seq<u8>, payloads: Seq<Seq<u8>>, rest: Seq<u8>)
    requires
        forall|i: int|
            0 <= i < payloads.len() ==> 5 + topic.len() + (#[trigger] payloads[i]).len() <= 65535,
    ensures
        frames_of(data_frames(topic, payloads) + rest) == data_frame_views(topic, payloads)
            + frames_of(rest),
        remainder_of(data_frames(topic, payloads) + rest) == remainder_of(rest),
    decreases payloads.len(),
{
    if payloads.len() == 0 {
        assert(data_frames(topic, payloads) + rest =~= rest);
        assert(data_frame_views(topic, payloads) + frames_of(rest) =~= frames_of(rest));
    } else {
        let p = payloads.last();
        let f = FrameView { msg_type: MSG_SUBSCRIBE_DATA, body: data_body(topic, p) };
        let earlier = payloads.drop_last();
        assert(p == payloads[payloads.len() - 1]);
        assert(wire_frame(f) =~= data_frame(topic, p));
        law_frame_round_trip(f, rest);
        assert forall|i: int| 0 <= i < earlier.len() implies 5 + topic.len() + (
        #[trigger] earlier[i]).len() <= 65535 by {
            assert(earlier[i] == payloads[i]);
        }
        law_batch_is_understood(topic, earlier, wire_frame(f) + rest);
        assert(data_frames(topic, payloads) + rest =~= data_frames(topic, earlier) + (wire_frame(f)
            + rest));
        assert(data_frame_views(topic, payloads) + frames_of(rest) =~= data_frame_views(
            topic,
            earlier,
        ) + (seq![f] + frames_of(rest)));
    }
}

/// The body of a data frame gives topic and payload back.
pub proof fn law_data_body_is_understood(topic: Seq<u8>, payload: Seq<u8>)
    requires
        5 + topic.len() + payload.len() <= 65535,
    ensures
        has_topic(data_body(topic, payload)),
        topic_of(data_body(topic, payload)) == topic,
        behind_topic(data_body(topic, payload)).len() == 2 + payload.len(),
        codec::be16_at(behind_topic(data_body(topic, payload)), 0) == payload.len(),
        behind_topic(data_body(topic, payload)).skip(2) == payload,
{
    let rest = codec::be16(low16(payload.len())) + payload;
    assert(data_body(topic, payload) =~= codec::be16(low16(topic.len())) + topic + rest);
    lemma_topic_round_trip(topic, rest);
    assert(rest.subrange(0, 2) =~= codec::be16(low16(payload.len())));
    codec::lemma_be16_round_trip(rest, 0, low16(payload.len()));
    assert(rest.skip(2) =~= payload);
}

/// How messages are cut into batches does not matter: the batches, one behind the other, are the
/// batch of all the messages.
pub proof fn law_batches_join(topic: Seq<u8>, a: Seq<Seq<u8>>, b: Seq<Seq<u8>>)
    ensures
        data_frames(topic, a + b) == data_frames(topic, a) + data_frames(topic, b),
    decreases b.len(),
{
    if b.len() == 0 {
        assert(a + b =~= a);
        assert(data_frames(topic, a) + Seq::<u8>::empty() =~= data_frames(topic, a));
    } else {
        assert((a + b).drop_last() =~= a + b.drop_last());
        law_batches_join(topic, a, b.drop_last());
        assert(data_frames(topic, a + b) =~= data_frames(topic, a) + data_frames(topic, b));
    }
}

/// Every message is shown by its payload, in its place.
pub proof fn law_payloads_are_those_of_the_messages(messages: Seq<Message>)
    ensures
        payloads(messages).len() == messages.len(),
        forall|i: int|
            0 <= i < messages.len() ==> #[trigger] payloads(messages)[i]
                == buffers::bytes_contents(*messages[i].payload),
{
}

/// The first three bytes of a stream tell type and length of its first frame, whatever follows: the
/// bytes behind them are the body, and then the rest of the stream.
pub proof fn law_first_header_tells_the_frame(f: FrameView, rest: Seq<u8>)
    requires
        1 + f.body.len() <= 65535,
    ensures
        ({
            let s = wire_frame(f) + rest;
            let n = f.body.len() as int;
            &&& first_header(s.take(3)) == Some((f.msg_type, n))
            &&& s.subrange(3, 3 + n) == f.body
            &&& s.skip(3 + n) == rest
        }),
        first_header(seq![0u8, 0u8, f.msg_type]) is None,
{
    let s = wire_frame(f) + rest;
    let total = low16(1 + f.body.len());
    assert(s.take(3).subrange(0, 2) =~= codec::be16(total));
    codec::lemma_be16_round_trip(s.take(3), 0, total);
    let n = f.body.len() as int;
    assert(s.subrange(3, 3 + n) =~= f.body);
    assert(s.skip(3 + n) =~= rest);
}

} // verus!
