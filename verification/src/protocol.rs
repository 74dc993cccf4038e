//! Binary protocol of the datagram service.
//!
//! Header layout (24 bytes, every integer little-endian):
//!
//! | bytes    | field          |
//! |----------|----------------|
//! | `0..4`   | `msg_type`     |
//! | `4..8`   | `topic_id`     |
//! | `8..16`  | `sequence`     |
//! | `16..24` | `timestamp_ns` |

use crate::codec;
use crate::codec::{get_le32, get_le64, put_bytes, put_le32, put_le64};
use vstd::prelude::*;
use vstd::slice::{slice_subrange, slice_to_vec};

verus! {

/// Bytes that a header takes on the wire.
pub const HEADER_SIZE: usize = 24;

/// Where the payload of a packet starts.
pub const PAYLOAD_OFFSET: usize = 24;

/// Publisher to server, and server to subscribers.
pub const MSG_DATA: u32 = 1;

/// Subscriber to server.
pub const MSG_SUBSCRIBE: u32 = 2;

/// Subscriber to server: asks for retransmission.
pub const MSG_NACK: u32 = 3;

/// Server to subscriber: a data packet sent again.
pub const MSG_RETRANSMIT: u32 = 4;

/// Server to subscriber: confirms a SUBSCRIBE or a NACK.
pub const MSG_ACK_CTRL: u32 = 5;

/// Bytes that a [`BenchPayload`] takes on the wire.
pub const BENCH_PAYLOAD_SIZE: usize = 20;

/// Bytes that the body of a NACK takes on the wire.
pub const NACK_SIZE: usize = 16;

/// Bytes that the body of a SUBSCRIBE takes on the wire.
pub const SUBSCRIBE_SIZE: usize = 18;

/// The header of every datagram.
#[derive(Clone, Copy, Debug)]
pub struct Header {
    pub msg_type: u32,
    pub topic_id: u32,
    pub sequence: u64,
    pub timestamp_ns: u64,
}

impl Header {
    /// The bytes of this header on the wire.
    pub open spec fn wire(self) -> Seq<u8> {
        codec::le32(self.msg_type) + codec::le32(self.topic_id) + codec::le64(self.sequence) + codec::le64(self.timestamp_ns)
    }

    /// The header that the first bytes of `s` spell.
    pub open spec fn parse(s: Seq<u8>) -> Header {
        Header {
            msg_type: codec::le32_at(s, 0),
            topic_id: codec::le32_at(s, 4),
            sequence: codec::le64_at(s, 8),
            timestamp_ns: codec::le64_at(s, 16),
        }
    }

    /// Writes the header to the front of `buf`; the bytes behind it stay as they are.
    pub fn serialize(&self, buf: &mut [u8])
        requires
            old(buf)@.len() >= HEADER_SIZE,
        ensures
            final(buf)@ == self.wire() + old(buf)@.skip(HEADER_SIZE as int),
    {
        put_le32(buf, 0, self.msg_type);
        put_le32(buf, 4, self.topic_id);
        put_le64(buf, 8, self.sequence);
        put_le64(buf, 16, self.timestamp_ns);
        assert(buf@ =~= self.wire() + old(buf)@.skip(HEADER_SIZE as int));
    }

    /// Reads the header at the front of `buf`.
    pub fn deserialize(buf: &[u8]) -> (header: Header)
        requires
            buf@.len() >= HEADER_SIZE,
        ensures
            header == Header::parse(buf@),
    {
        Header {
            msg_type: get_le32(buf, 0),
            topic_id: get_le32(buf, 4),
            sequence: get_le64(buf, 8),
            timestamp_ns: get_le64(buf, 16),
        }
    }
}

/// What a benchmark publisher puts behind the header, and a subscriber reads back.
#[derive(Clone, Copy, Debug)]
pub struct BenchPayload {
    pub topic_id: u32,
    pub sequence: u64,
    pub send_timestamp_ns: u64,
}

impl BenchPayload {
    /// The bytes of the fields on the wire.
    pub open spec fn wire(self) -> Seq<u8> {
        codec::le32(self.topic_id) + codec::le64(self.sequence) + codec::le64(self.send_timestamp_ns)
    }

    /// The payload that the bytes of `s` from `at` on spell.
    pub open spec fn parse(s: Seq<u8>, at: int) -> BenchPayload {
        BenchPayload {
            topic_id: codec::le32_at(s, at),
            sequence: codec::le64_at(s, at + 4),
            send_timestamp_ns: codec::le64_at(s, at + 12),
        }
    }

    /// Writes the fields to the front of `buf`; the bytes behind them stay as they are.
    pub fn serialize(&self, buf: &mut [u8])
        requires
            old(buf)@.len() >= BENCH_PAYLOAD_SIZE,
        ensures
            final(buf)@ == self.wire() + old(buf)@.skip(BENCH_PAYLOAD_SIZE as int),
    {
        put_le32(buf, 0, self.topic_id);
        put_le64(buf, 4, self.sequence);
        put_le64(buf, 12, self.send_timestamp_ns);
        assert(buf@ =~= self.wire() + old(buf)@.skip(BENCH_PAYLOAD_SIZE as int));
    }

    /// Reads the fields at the front of `buf`.
    pub fn deserialize(buf: &[u8]) -> (payload: BenchPayload)
        requires
            buf@.len() >= BENCH_PAYLOAD_SIZE,
        ensures
            payload == BenchPayload::parse(buf@, 0),
    {
        BenchPayload {
            topic_id: get_le32(buf, 0),
            sequence: get_le64(buf, 4),
            send_timestamp_ns: get_le64(buf, 12),
        }
    }

    /// Bytes that a payload takes on the wire.
    pub fn size() -> (n: usize)
        ensures
            n == BENCH_PAYLOAD_SIZE,
    {
        BENCH_PAYLOAD_SIZE
    }
}

/// A header and the bytes behind it.
pub struct Packet {
    pub header: Header,
    pub payload: Vec<u8>,
}

impl Packet {
    /// The bytes of this packet on the wire.
    pub open spec fn wire(self) -> Seq<u8> {
        self.header.wire() + self.payload@
    }

    /// The wire form: the header, then the payload.
    pub fn to_bytes(&self) -> (bytes: Vec<u8>)
        requires
            HEADER_SIZE + self.payload@.len() <= usize::MAX,
        ensures
            bytes@ == self.wire(),
    {
        let mut buf: Vec<u8> = vec![0u8; HEADER_SIZE + self.payload.len()];
        self.header.serialize(buf.as_mut_slice());
        put_bytes(buf.as_mut_slice(), HEADER_SIZE, self.payload.as_slice());
        assert(buf@ =~= self.wire());
        buf
    }

    /// Takes a packet apart: the header, and everything behind it.
    pub fn from_bytes(buf: &[u8]) -> (packet: Packet)
        requires
            buf@.len() >= HEADER_SIZE,
        ensures
            packet.header == Header::parse(buf@),
            packet.payload@ == buf@.skip(HEADER_SIZE as int),
    {
        let header = Header::deserialize(buf);
        let payload = slice_to_vec(slice_subrange(buf, HEADER_SIZE, buf.len()));
        assert(payload@ =~= buf@.skip(HEADER_SIZE as int));
        Packet { header, payload }
    }
}

/// Body of a SUBSCRIBE: four bytes of address, two of port, and padding.
#[derive(Clone, Copy, Debug)]
pub struct SubscribeMsg {
    pub subscriber_addr: [u8; 18],
}

impl SubscribeMsg {
    /// Writes the body to the front of `buf`; the bytes behind it stay as they are.
    pub fn serialize(&self, buf: &mut [u8])
        requires
            old(buf)@.len() >= SUBSCRIBE_SIZE,
        ensures
            final(buf)@ == self.subscriber_addr@ + old(buf)@.skip(SUBSCRIBE_SIZE as int),
    {
        let mut i: usize = 0;
        while i < SUBSCRIBE_SIZE
            invariant
                i <= SUBSCRIBE_SIZE,
                buf@.len() == old(buf)@.len(),
                buf@.len() >= SUBSCRIBE_SIZE,
                forall|j: int|
                    0 <= j < buf@.len() ==> buf@[j] == if j < i {
                        self.subscriber_addr@[j]
                    } else {
                        old(buf)@[j]
                    },
            decreases SUBSCRIBE_SIZE - i,
        {
            buf[i] = self.subscriber_addr[i];
            i += 1;
        }
        assert(buf@ =~= self.subscriber_addr@ + old(buf)@.skip(SUBSCRIBE_SIZE as int));
    }

    /// Reads the body at the front of `buf`.
    pub fn deserialize(buf: &[u8]) -> (msg: SubscribeMsg)
        requires
            buf@.len() >= SUBSCRIBE_SIZE,
        ensures
            msg.subscriber_addr@ == buf@.take(SUBSCRIBE_SIZE as int),
    {
        let mut addr: [u8; 18] = [0u8; 18];
        let mut i: usize = 0;
        while i < SUBSCRIBE_SIZE
            invariant
                i <= SUBSCRIBE_SIZE,
                buf@.len() >= SUBSCRIBE_SIZE,
                forall|j: int| 0 <= j < i ==> addr@[j] == buf@[j],
            decreases SUBSCRIBE_SIZE - i,
        {
            addr[i] = buf[i];
            i += 1;
        }
        assert(addr@ =~= buf@.take(SUBSCRIBE_SIZE as int));
        SubscribeMsg { subscriber_addr: addr }
    }
}

/// Body of a NACK: asks for every packet from `start_seq` up to and including `end_seq`.
#[derive(Clone, Copy, Debug)]
pub struct NackMsg {
    pub start_seq: u64,
    pub end_seq: u64,
}

impl NackMsg {
    /// The bytes of this body on the wire.
    pub open spec fn wire(self) -> Seq<u8> {
        codec::le64(self.start_seq) + codec::le64(self.end_seq)
    }

    /// The body that the bytes of `s` from `at` on spell.
    pub open spec fn parse(s: Seq<u8>, at: int) -> NackMsg {
        NackMsg { start_seq: codec::le64_at(s, at), end_seq: codec::le64_at(s, at + 8) }
    }

    /// Writes the body to the front of `buf`; the bytes behind it stay as they are.
    pub fn serialize(&self, buf: &mut [u8])
        requires
            old(buf)@.len() >= NACK_SIZE,
        ensures
            final(buf)@ == self.wire() + old(buf)@.skip(NACK_SIZE as int),
    {
        put_le64(buf, 0, self.start_seq);
        put_le64(buf, 8, self.end_seq);
        assert(buf@ =~= self.wire() + old(buf)@.skip(NACK_SIZE as int));
    }

    /// Reads the body at the front of `buf`.
    pub fn deserialize(buf: &[u8]) -> (msg: NackMsg)
        requires
            buf@.len() >= NACK_SIZE,
        ensures
            msg == NackMsg::parse(buf@, 0),
    {
        NackMsg { start_seq: get_le64(buf, 0), end_seq: get_le64(buf, 8) }
    }
}

/// The data packet of a benchmark publisher: a header and a payload.
pub open spec fn data_packet(topic_id: u32, sequence: u64, timestamp_ns: u64) -> Seq<u8> {
    (Header { msg_type: MSG_DATA, topic_id, sequence, timestamp_ns }).wire() + (BenchPayload {
        topic_id,
        sequence,
        send_timestamp_ns: timestamp_ns,
    }).wire()
}

/// A header without a sequence number or a time.
pub open spec fn control_header(msg_type: u32, topic_id: u32) -> Header {
    Header { msg_type, topic_id, sequence: 0, timestamp_ns: 0 }
}

/// Builds the data packet for one message of a topic.
pub fn build_data_packet(topic_id: u32, sequence: u64, timestamp_ns: u64) -> (packet: Vec<u8>)
    ensures
        packet@ == data_packet(topic_id, sequence, timestamp_ns),
{
    let mut buf: Vec<u8> = vec![0u8; HEADER_SIZE + BENCH_PAYLOAD_SIZE];
    let header = Header { msg_type: MSG_DATA, topic_id, sequence, timestamp_ns };
    header.serialize(buf.as_mut_slice());
    let payload = BenchPayload { topic_id, sequence, send_timestamp_ns: timestamp_ns };
    let (_, body) = buf.as_mut_slice().split_at_mut(HEADER_SIZE);
    payload.serialize(body);
    assert(buf@ =~= data_packet(topic_id, sequence, timestamp_ns));
    buf
}

/// Builds the packet that asks for a topic.
pub fn build_subscribe_packet(topic_id: u32) -> (packet: Vec<u8>)
    ensures
        packet@ == control_header(MSG_SUBSCRIBE, topic_id).wire(),
{
    let mut buf: Vec<u8> = vec![0u8; HEADER_SIZE];
    let header = Header { msg_type: MSG_SUBSCRIBE, topic_id, sequence: 0, timestamp_ns: 0 };
    header.serialize(buf.as_mut_slice());
    assert(buf@ =~= header.wire());
    buf
}

/// Builds the packet that asks for the messages from `start_seq` up to and including `end_seq`.
pub fn build_nack_packet(topic_id: u32, start_seq: u64, end_seq: u64) -> (packet: Vec<u8>)
    ensures
        packet@ == control_header(MSG_NACK, topic_id).wire() + (NackMsg {
            start_seq,
            end_seq,
        }).wire(),
{
    let mut buf: Vec<u8> = vec![0u8; HEADER_SIZE + NACK_SIZE];
    let header = Header { msg_type: MSG_NACK, topic_id, sequence: 0, timestamp_ns: 0 };
    header.serialize(buf.as_mut_slice());
    let nack = NackMsg { start_seq, end_seq };
    let (_, body) = buf.as_mut_slice().split_at_mut(HEADER_SIZE);
    nack.serialize(body);
    assert(buf@ =~= header.wire() + nack.wire());
    buf
}

/// What the bytes of a received packet say: `None` for one too short for a header; otherwise the
/// four header fields, and the payload where the packet has room for one.
pub open spec fn parsed_packet(s: Seq<u8>) -> Option<(u32, u32, u64, u64, Option<BenchPayload>)> {
    if s.len() < HEADER_SIZE {
        None
    } else {
        let h = Header::parse(s);
        let payload = if s.len() >= HEADER_SIZE + BENCH_PAYLOAD_SIZE {
            Some(BenchPayload::parse(s, HEADER_SIZE as int))
        } else {
            None
        };
        Some((h.msg_type, h.topic_id, h.sequence, h.timestamp_ns, payload))
    }
}

/// Takes an incoming packet apart: message type, topic, sequence number, time, payload.
pub fn parse_packet(buf: &[u8]) -> (parsed: Option<(u32, u32, u64, u64, Option<BenchPayload>)>)
    ensures
        parsed == parsed_packet(buf@),
{
    if buf.len() < HEADER_SIZE {
        return None;
    }
    let header = Header::deserialize(buf);
    let payload = if buf.len() >= HEADER_SIZE + BENCH_PAYLOAD_SIZE {
        Some(BenchPayload::deserialize(slice_subrange(buf, HEADER_SIZE, buf.len())))
    } else {
        None
    };
    Some((header.msg_type, header.topic_id, header.sequence, header.timestamp_ns, payload))
}

/// A header written in front of any bytes is read back.
pub proof fn law_header_round_trip(h: Header, behind: Seq<u8>)
    ensures
        h.wire().len() == HEADER_SIZE,
        Header::parse(h.wire() + behind) == h,
{
    let s = h.wire() + behind;
    assert(s.subrange(0, 4) =~= codec::le32(h.msg_type));
    assert(s.subrange(4, 8) =~= codec::le32(h.topic_id));
    assert(s.subrange(8, 16) =~= codec::le64(h.sequence));
    assert(s.subrange(16, 24) =~= codec::le64(h.timestamp_ns));
    codec::lemma_le32_round_trip(s, 0, h.msg_type);
    codec::lemma_le32_round_trip(s, 4, h.topic_id);
    codec::lemma_le64_round_trip(s, 8, h.sequence);
    codec::lemma_le64_round_trip(s, 16, h.timestamp_ns);
}

/// A header that was read is written as the bytes that it was read from.
pub proof fn law_header_bytes_round_trip(s: Seq<u8>)
    requires
        s.len() >= HEADER_SIZE,
    ensures
        Header::parse(s).wire() == s.take(HEADER_SIZE as int),
{
    codec::lemma_le32_of_bytes(s, 0);
    codec::lemma_le32_of_bytes(s, 4);
    codec::lemma_le64_of_bytes(s, 8);
    codec::lemma_le64_of_bytes(s, 16);
    assert(Header::parse(s).wire() =~= s.take(HEADER_SIZE as int));
}

/// A payload written between any bytes is read back.
pub proof fn law_bench_payload_round_trip(before: Seq<u8>, p: BenchPayload, behind: Seq<u8>)
    ensures
        p.wire().len() == BENCH_PAYLOAD_SIZE,
        BenchPayload::parse(before + p.wire() + behind, before.len() as int) == p,
{
    let s = before + p.wire() + behind;
    let at = before.len() as int;
    assert(s.subrange(at, at + 4) =~= codec::le32(p.topic_id));
    assert(s.subrange(at + 4, at + 12) =~= codec::le64(p.sequence));
    assert(s.subrange(at + 12, at + 20) =~= codec::le64(p.send_timestamp_ns));
    codec::lemma_le32_round_trip(s, at, p.topic_id);
    codec::lemma_le64_round_trip(s, at + 4, p.sequence);
    codec::lemma_le64_round_trip(s, at + 12, p.send_timestamp_ns);
}

/// A NACK body written between any bytes is read back.
pub proof fn law_nack_round_trip(before: Seq<u8>, n: NackMsg, behind: Seq<u8>)
    ensures
        n.wire().len() == NACK_SIZE,
        NackMsg::parse(before + n.wire() + behind, before.len() as int) == n,
{
    let s = before + n.wire() + behind;
    let at = before.len() as int;
    assert(s.subrange(at, at + 8) =~= codec::le64(n.start_seq));
    assert(s.subrange(at + 8, at + 16) =~= codec::le64(n.end_seq));
    codec::lemma_le64_round_trip(s, at, n.start_seq);
    codec::lemma_le64_round_trip(s, at + 8, n.end_seq);
}

/// A SUBSCRIBE body is read back from the front of the bytes that it was written to.
pub proof fn law_subscribe_round_trip(m: SubscribeMsg, behind: Seq<u8>)
    ensures
        (m.subscriber_addr@ + behind).take(SUBSCRIBE_SIZE as int) == m.subscriber_addr@,
{
    assert((m.subscriber_addr@ + behind).take(SUBSCRIBE_SIZE as int) =~= m.subscriber_addr@);
}

/// Taking the wire form of a packet apart gives its header and its payload, and putting the parts
/// of a wire form together gives the wire form.
pub proof fn law_packet_round_trip(p: Packet, s: Seq<u8>)
    requires
        s.len() >= HEADER_SIZE,
    ensures
        Header::parse(p.wire()) == p.header,
        p.wire().skip(HEADER_SIZE as int) == p.payload@,
        Header::parse(s).wire() + s.skip(HEADER_SIZE as int) == s,
{
    law_header_round_trip(p.header, p.payload@);
    assert(p.wire().skip(HEADER_SIZE as int) =~= p.payload@);
    law_header_bytes_round_trip(s);
    assert(s.take(HEADER_SIZE as int) + s.skip(HEADER_SIZE as int) =~= s);
}

/// A data packet is understood as it was built: its fields stand in the header and again in the
/// payload.
pub proof fn law_data_packet_is_understood(topic_id: u32, sequence: u64, timestamp_ns: u64)
    ensures
        data_packet(topic_id, sequence, timestamp_ns).len() == HEADER_SIZE + BENCH_PAYLOAD_SIZE,
        parsed_packet(data_packet(topic_id, sequence, timestamp_ns)) == Some(
            (
                MSG_DATA,
                topic_id,
                sequence,
                timestamp_ns,
                Some(BenchPayload { topic_id, sequence, send_timestamp_ns: timestamp_ns }),
            ),
        ),
{
    let h = Header { msg_type: MSG_DATA, topic_id, sequence, timestamp_ns };
    let p = BenchPayload { topic_id, sequence, send_timestamp_ns: timestamp_ns };
    let s = data_packet(topic_id, sequence, timestamp_ns);
    law_header_round_trip(h, p.wire());
    law_bench_payload_round_trip(h.wire(), p, Seq::empty());
    assert(s + Seq::<u8>::empty() =~= s);
}

/// A SUBSCRIBE packet is understood as it was built, and carries no payload.
pub proof fn law_subscribe_packet_is_understood(topic_id: u32)
    ensures
        parsed_packet(control_header(MSG_SUBSCRIBE, topic_id).wire()) == Some(
            (MSG_SUBSCRIBE, topic_id, 0u64, 0u64, None::<BenchPayload>),
        ),
{
    let h = control_header(MSG_SUBSCRIBE, topic_id);
    law_header_round_trip(h, Seq::empty());
    assert(h.wire() + Seq::<u8>::empty() =~= h.wire());
}

/// A NACK packet is understood as it was built: the topic from the header, the range from the body.
pub proof fn law_nack_packet_is_understood(topic_id: u32, start_seq: u64, end_seq: u64)
    ensures
        ({
            let n = NackMsg { start_seq, end_seq };
            let s = control_header(MSG_NACK, topic_id).wire() + n.wire();
            &&& s.len() == HEADER_SIZE + NACK_SIZE
            &&& Header::parse(s) == control_header(MSG_NACK, topic_id)
            &&& NackMsg::parse(s, HEADER_SIZE as int) == n
        }),
{
    let h = control_header(MSG_NACK, topic_id);
    let n = NackMsg { start_seq, end_seq };
    law_header_round_trip(h, n.wire());
    law_nack_round_trip(h.wire(), n, Seq::empty());
    assert(h.wire() + n.wire() + Seq::<u8>::empty() =~= h.wire() + n.wire());
}

/// What any packet says: one that is shorter than a header says nothing; behind a header the payload
/// is read just if there are bytes enough for one, and whatever follows it does not matter.
pub proof fn law_packets_are_taken_apart(h: Header, p: BenchPayload, behind: Seq<u8>, s: Seq<u8>)
    ensures
        s.len() < 24 ==> parsed_packet(s) is None,
        parsed_packet(h.wire() + p.wire() + behind) == Some(
            (h.msg_type, h.topic_id, h.sequence, h.timestamp_ns, Some(p)),
        ),
        behind.len() < 20 ==> parsed_packet(h.wire() + behind) == Some(
            (h.msg_type, h.topic_id, h.sequence, h.timestamp_ns, None::<BenchPayload>),
        ),
{
    law_header_round_trip(h, p.wire() + behind);
    assert(h.wire() + p.wire() + behind =~= h.wire() + (p.wire() + behind));
    law_bench_payload_round_trip(h.wire(), p, behind);
    law_header_round_trip(h, behind);
}

} // verus!
