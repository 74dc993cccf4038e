//! What a consumer of a load test makes of what it reads: it counts messages, and measures of every
//! hundredth how long it was under way.

use crate::buffers;
use crate::buffers::{bytes_mut_advance, bytes_mut_slice};
use crate::codec;
use crate::decimal;
use crate::frame;
use crate::frame::MSG_SUBSCRIBE_DATA;
use crate::histogram;
use crate::histogram::LatencyHistogram;
use crate::producer;
use crate::producer::COLON;
use bytes::BytesMut;
use vstd::multiset::Multiset;
use vstd::prelude::*;
use vstd::slice::slice_subrange;
use vstd::utf8;

verus! {

/// Every how many messages a latency is measured.
pub const SAMPLE_EVERY: u64 = 100;

/// The longest latency from producer to consumer that is counted, in nanoseconds.
pub const MAX_DELIVERY_NS: u64 = 10_000_000_000;

/// The longest time that a producer's run is counted with, in nanoseconds.
pub const MAX_PUBLISH_NS: u64 = 300_000_000_000;

/// The place of the first colon from `i` on, or the length where there is none.
pub open spec fn colon_from(s: Seq<u8>, i: int) -> int
    decreases s.len() - i,
{
    if i < 0 || i >= s.len() {
        s.len() as int
    } else if s[i] == COLON {
        i
    } else {
        colon_from(s, i + 1)
    }
}

/// Where the third colon-separated field of a message starts, if there are two colons before it.
pub open spec fn time_start(s: Seq<u8>) -> int {
    colon_from(s, colon_from(s, 0) + 1) + 1
}

/// The third colon-separated field of a message, which a colon must end.
pub open spec fn time_field(s: Seq<u8>) -> Option<Seq<u8>> {
    let start = time_start(s);
    let end = colon_from(s, start);
    if colon_from(s, 0) < s.len() && start <= s.len() && end < s.len() {
        Some(s.subrange(start, end))
    } else {
        None
    }
}

/// Whether bytes can be read as a number: none lies below the digits, and the number fits.
pub open spec fn is_number(s: Seq<u8>) -> bool {
    &&& forall|i: int| 0 <= i < s.len() ==> #[trigger] s[i] >= 48
    &&& decimal::value_of(s) <= u128::MAX
}

/// What a message says about when it was made.
#[derive(Clone, Copy, Debug, PartialEq, Eq, Structural)]
pub enum MessageTime {
    /// Nothing.
    Absent,
    /// What stands there is no number.
    Malformed,
    /// At that time.
    At(u128),
}

/// What a message says about when it was made.
pub open spec fn message_time(s: Seq<u8>) -> MessageTime {
    match time_field(s) {
        Some(field) => if field.len() == 0 {
            MessageTime::Absent
        } else if is_number(field) {
            MessageTime::At(decimal::value_of(field) as u128)
        } else {
            MessageTime::Malformed
        },
        None => MessageTime::Absent,
    }
}

/// The number of a longer run of bytes that are no lower than digits is no smaller.
proof fn lemma_value_grows(s: Seq<u8>, k: int)
    requires
        0 <= k <= s.len(),
        forall|i: int| 0 <= i < s.len() ==> #[trigger] s[i] >= 48,
    ensures
        0 <= decimal::value_of(s.take(k)) <= decimal::value_of(s),
    decreases s.len(),
{
    if k == s.len() {
        assert(s.take(k) =~= s);
        if s.len() > 0 {
            lemma_value_grows(s.drop_last(), s.len() - 1);
            assert(s.drop_last().take(s.len() - 1) =~= s.drop_last());
        }
    } else {
        lemma_value_grows(s.drop_last(), k);
        assert(s.drop_last().take(k) =~= s.take(k));
    }
}

/// Reads bytes as a number.
fn parse_number(s: &[u8]) -> (number: Option<u128>)
    ensures
        number == if is_number(s@) {
            Some(decimal::value_of(s@) as u128)
        } else {
            None::<u128>
        },
{
    let mut value: u128 = 0;
    let mut i: usize = 0;
    while i < s.len()
        invariant
            i <= s@.len(),
            forall|j: int| 0 <= j < i ==> #[trigger] s@[j] >= 48,
            value == decimal::value_of(s@.take(i as int)),
        decreases s@.len() - i,
    {
        assert(s@.take(i + 1).drop_last() =~= s@.take(i as int));
        assert(s@.take(i + 1).last() == s@[i as int]);
        if s[i] < 48 {
            return None;
        }
        let digit: u128 = (s[i] - 48) as u128;
        let ghost so_far = value * 10 + digit;
        assert(so_far == decimal::value_of(s@.take(i + 1)));
        proof {
            if is_number(s@) {
                lemma_value_grows(s@, i + 1);
            }
        }
        let tens: u128 = match value.checked_mul(10) {
            Some(tens) => tens,
            None => return None,
        };
        value = match tens.checked_add(digit) {
            Some(sum) => sum,
            None => return None,
        };
        i += 1;
    }
    assert(s@.take(i as int) =~= s@);
    Some(value)
}

/// Finds the first colon from `from` on; the length of `s` where there is none.
fn find_colon(s: &[u8], from: usize) -> (at: usize)
    requires
        from <= s@.len(),
    ensures
        at == colon_from(s@, from as int),
        from <= at <= s@.len(),
{
    let mut i: usize = from;
    while i < s.len()
        invariant
            from <= i <= s@.len(),
            colon_from(s@, from as int) == colon_from(s@, i as int),
        decreases s@.len() - i,
    {
        if s[i] == COLON {
            return i;
        }
        i += 1;
    }
    i
}

/// Reads from a message when it was made.
pub fn read_message_time(s: &[u8]) -> (time: MessageTime)
    ensures
        time == message_time(s@),
{
    let first: usize = find_colon(s, 0);
    if first == s.len() {
        return MessageTime::Absent;
    }
    let second: usize = find_colon(s, first + 1);
    if second == s.len() {
        return MessageTime::Absent;
    }
    let start: usize = second + 1;
    let end: usize = find_colon(s, start);
    if end == s.len() || end == start {
        return MessageTime::Absent;
    }
    match parse_number(slice_subrange(s, start, end)) {
        Some(time) => MessageTime::At(time),
        None => MessageTime::Malformed,
    }
}

/// How long a message was under way, in nanoseconds: the low 64 bits of the difference, and zero
/// where the clocks disagree.
pub open spec fn latency(now: u128, made: u128) -> u64 {
    if now < made {
        0
    } else {
        ((now - made) % 0x1_0000_0000_0000_0000) as u64
    }
}

/// How long a message was under way.
pub fn latency_ns(now: u128, made: u128) -> (ns: u64)
    ensures
        ns == latency(now, made),
{
    let gone: u128 = if now < made {
        0
    } else {
        now - made
    };
    (gone % 0x1_0000_0000_0000_0000) as u64
}

/// A consumer of a load test.
pub struct Consumer {
    /// How many messages it is to receive.
    pub expected: u64,
    /// How many messages it has received.
    pub received: u64,
    /// The latencies that it measured.
    pub latencies: LatencyHistogram,
}

/// What a consumer found at the front of what it read.
#[derive(Clone, Copy, Debug, PartialEq, Eq, Structural)]
pub enum ConsumerStep {
    /// No whole frame.
    Incomplete,
    /// Something that it cannot go on from.
    Malformed,
    /// A frame that carries no message.
    PassedOver,
    /// A frame that is meant to carry a message. It counts by its `length`, and as a message if
    /// `counted`; if it is a sample, `made` says when the message was made.
    Data { length: usize, counted: bool, made: Option<u128> },
}

/// Whether the body of a data frame is long enough to carry a message.
pub open spec fn carries_message(body: Seq<u8>) -> bool {
    body.len() >= 4
}

/// The message that the body of a data frame carries, if it is as long as it says the topic is.
pub open spec fn carried(body: Seq<u8>) -> Option<Seq<u8>> {
    if body.len() >= 4 + codec::be16_at(body, 0) {
        Some(body.skip(4 + codec::be16_at(body, 0)))
    } else {
        None
    }
}

/// What the body of a data frame says about when its message was made.
pub open spec fn body_time(body: Seq<u8>) -> MessageTime {
    match carried(body) {
        Some(message) => message_time(message),
        None => MessageTime::Absent,
    }
}

/// What a consumer that has received so many messages finds in the body of a data frame of that
/// length.
pub open spec fn found_in_body(received: u64, body: Seq<u8>, length: usize) -> ConsumerStep {
    if !carries_message(body) {
        ConsumerStep::Data { length, counted: false, made: None }
    } else if received == u64::MAX {
        ConsumerStep::Malformed
    } else if received % SAMPLE_EVERY != 0 {
        ConsumerStep::Data { length, counted: true, made: None }
    } else {
        match body_time(body) {
            MessageTime::Absent => ConsumerStep::Data { length, counted: true, made: None },
            MessageTime::Malformed => ConsumerStep::Malformed,
            MessageTime::At(t) => ConsumerStep::Data { length, counted: true, made: Some(t) },
        }
    }
}

/// What a consumer that has received so many messages finds at the front of what it read. A frame
/// with neither type nor body is passed over, unless the byte behind it is the type of a data frame.
pub open spec fn found(received: u64, stream: Seq<u8>) -> ConsumerStep {
    if !frame::has_frame(stream) {
        ConsumerStep::Incomplete
    } else if stream[2] != MSG_SUBSCRIBE_DATA {
        ConsumerStep::PassedOver
    } else if frame::frame_len(stream) == 2 {
        ConsumerStep::Malformed
    } else {
        found_in_body(
            received,
            frame::first_frame(stream).body,
            frame::frame_len(stream) as usize,
        )
    }
}

/// What a consumer that has received so many messages reads from one that came without a frame:
/// `None` where it cannot go on, and otherwise the time, if the message is a sample that has one.
pub open spec fn read_from_message(received: u64, message: Seq<u8>) -> Option<Option<u128>> {
    if received == u64::MAX {
        None
    } else if received % SAMPLE_EVERY != 0 {
        Some(None)
    } else {
        match message_time(message) {
            MessageTime::Absent => Some(None),
            MessageTime::Malformed => None,
            MessageTime::At(t) => Some(Some(t)),
        }
    }
}

/// How many more messages a step counts.
pub open spec fn counted_by(step: ConsumerStep) -> int {
    if step matches ConsumerStep::Data { counted: true, .. } {
        1
    } else {
        0
    }
}

/// How many bytes of a stream a step takes.
pub open spec fn taken_by(step: ConsumerStep, stream: Seq<u8>) -> int {
    match step {
        ConsumerStep::Incomplete | ConsumerStep::Malformed => 0,
        _ => frame::frame_len(stream),
    }
}

impl Consumer {
    /// A consumer that is to receive so many messages.
    pub fn new(expected: u64) -> (consumer: Consumer)
        ensures
            consumer.expected == expected,
            consumer.received == 0,
            histogram::latency_high(consumer.latencies) == MAX_DELIVERY_NS,
            histogram::latency_contents(consumer.latencies) == Multiset::<u64>::empty(),
    {
        Consumer { expected, received: 0, latencies: LatencyHistogram::with_limit(MAX_DELIVERY_NS) }
    }

    /// Whether all messages were received.
    pub fn is_done(&self) -> (done: bool)
        ensures
            done == (self.received >= self.expected),
    {
        self.received >= self.expected
    }

    /// Handles the body of a data frame.
    fn take_body(&mut self, body: &[u8], length: usize) -> (step: ConsumerStep)
        ensures
            step == found_in_body(old(self).received, body@, length),
            final(self).received == old(self).received + counted_by(step),
            final(self).expected == old(self).expected,
            final(self).latencies == old(self).latencies,
    {
        if body.len() < 4 {
            return ConsumerStep::Data { length, counted: false, made: None };
        }
        if self.received == u64::MAX {
            return ConsumerStep::Malformed;
        }
        let mut made: Option<u128> = None;
        if self.received % SAMPLE_EVERY == 0 {
            let topic_len: usize = body[0] as usize * 256 + body[1] as usize;
            if body.len() >= 4 + topic_len {
                let message = slice_subrange(body, 4 + topic_len, body.len());
                assert(message@ =~= body@.skip(4 + topic_len));
                match read_message_time(message) {
                    MessageTime::Absent => {},
                    MessageTime::Malformed => return ConsumerStep::Malformed,
                    MessageTime::At(t) => {
                        made = Some(t);
                    },
                }
            }
        }
        self.received += 1;
        ConsumerStep::Data { length, counted: true, made }
    }

    /// Handles what stands at the front of what was read.
    pub fn step(&mut self, stream: &mut BytesMut) -> (step: ConsumerStep)
        ensures
            step == found(old(self).received, buffers::bytes_mut_contents(*old(stream))),
            buffers::bytes_mut_contents(*final(stream)) == buffers::bytes_mut_contents(
                *old(stream),
            ).skip(taken_by(step, buffers::bytes_mut_contents(*old(stream)))),
            final(self).received == old(self).received + counted_by(step),
            final(self).expected == old(self).expected,
            final(self).latencies == old(self).latencies,
    {
        let ghost s = buffers::bytes_mut_contents(*stream);
        assert(s.skip(0) =~= s);
        if stream.len() < 3 {
            return ConsumerStep::Incomplete;
        }
        let bytes = bytes_mut_slice(stream);
        let length: usize = 2 + bytes[0] as usize * 256 + bytes[1] as usize;
        if bytes.len() < length {
            return ConsumerStep::Incomplete;
        }
        let step = if bytes[2] != MSG_SUBSCRIBE_DATA {
            ConsumerStep::PassedOver
        } else if length == 2 {
            ConsumerStep::Malformed
        } else {
            self.take_body(slice_subrange(bytes, 3, length), length)
        };
        if let ConsumerStep::Malformed = step {
            return step;
        }
        bytes_mut_advance(stream, length);
        step
    }

    /// Handles a message that came without a frame. `None` where it cannot be gone on from.
    pub fn take_message(&mut self, message: &[u8]) -> (made: Option<Option<u128>>)
        ensures
            made == read_from_message(old(self).received, message@),
            match made {
                None => {
                    &&& old(self).received == u64::MAX || (old(self).received % SAMPLE_EVERY == 0
                        && message_time(message@) is Malformed)
                    &&& *final(self) == *old(self)
                },
                Some(time) => {
                    &&& final(self).received == old(self).received + 1
                    &&& final(self).expected == old(self).expected
                    &&& final(self).latencies == old(self).latencies
                    &&& old(self).received % SAMPLE_EVERY != 0 ==> time is None
                    &&& old(self).received % SAMPLE_EVERY == 0 ==> match message_time(message@) {
                        MessageTime::At(t) => time == Some(t),
                        MessageTime::Absent => time is None,
                        MessageTime::Malformed => false,
                    }
                },
            },
    {
        if self.received == u64::MAX {
            return None;
        }
        let mut time: Option<u128> = None;
        if self.received % SAMPLE_EVERY == 0 {
            match read_message_time(message) {
                MessageTime::Absent => {},
                MessageTime::Malformed => return None,
                MessageTime::At(t) => {
                    time = Some(t);
                },
            }
        }
        self.received += 1;
        Some(time)
    }

    /// Counts the latency of a sample.
    pub fn sample(&mut self, now: u128, made: u128)
        ensures
            final(self).received == old(self).received,
            final(self).expected == old(self).expected,
            histogram::latency_high(final(self).latencies) == histogram::latency_high(
                old(self).latencies,
            ),
            histogram::latency_contents(final(self).latencies) == histogram::counted(
                histogram::latency_contents(old(self).latencies),
                histogram::latency_high(old(self).latencies),
                latency(now, made),
            ),
    {
        self.latencies.record(latency_ns(now, made));
    }
}

/// The place of a colon with none before it is the first one.
proof fn lemma_colon_at(s: Seq<u8>, from: int, at: int)
    requires
        0 <= from <= at < s.len(),
        s[at] == COLON,
        forall|i: int| from <= i < at ==> #[trigger] s[i] != COLON,
    ensures
        colon_from(s, from) == at,
    decreases at - from,
{
    if from < at {
        lemma_colon_at(s, from + 1, at);
    }
}

/// A consumer reads from a producer's message the time at which the message was made.
pub proof fn law_time_is_read_back(
    id: u128,
    seq: u128,
    now: u128,
    topic: Seq<char>,
    payload: Seq<u8>,
)
    ensures
        message_time(
            producer::message_header(id as nat, seq as nat, now as nat, topic) + payload,
        ) == MessageTime::At(now),
{
    let a = utf8::encode_utf8(decimal::decimal(id as nat));
    let b = utf8::encode_utf8(decimal::decimal(seq as nat));
    let c = utf8::encode_utf8(decimal::decimal(now as nat));
    decimal::law_decimal_round_trip(id as nat);
    decimal::law_decimal_round_trip(seq as nat);
    decimal::law_decimal_round_trip(now as nat);
    let s = producer::message_header(id as nat, seq as nat, now as nat, topic) + payload;
    let i = a.len() as int;
    let j = i + 1 + b.len();
    let k = j + 1 + c.len();
    assert(s =~= a.push(COLON) + b.push(COLON) + c.push(COLON) + (utf8::encode_utf8(topic).push(
        COLON,
    ) + payload));
    assert forall|x: int| 0 <= x < i implies #[trigger] s[x] != COLON by {
        assert(s[x] == a[x]);
    }
    assert forall|x: int| i < x < j implies #[trigger] s[x] != COLON by {
        assert(s[x] == b[x - i - 1]);
    }
    assert forall|x: int| j < x < k implies #[trigger] s[x] != COLON by {
        assert(s[x] == c[x - j - 1]);
    }
    lemma_colon_at(s, 0, i);
    lemma_colon_at(s, i + 1, j);
    lemma_colon_at(s, j + 1, k);
    assert(s.subrange(j + 1, k) =~= c);
}

/// From producer to consumer: the data frame in which a producer's message reaches a consumer counts
/// as one message, and as a sample it tells when the message was made.
pub proof fn law_message_arrives(p: producer::ProducerView, now: u128, received: u64, rest: Seq<u8>)
    requires
        p.wf(),
        !p.finished(),
        received < u64::MAX,
    ensures
        ({
            let topic = utf8::encode_utf8(p.topic());
            let sent = frame::data_frame(topic, p.message(now as nat));
            &&& found(received, sent + rest) == (ConsumerStep::Data {
                length: sent.len() as usize,
                counted: true,
                made: if received % SAMPLE_EVERY == 0 {
                    Some(now)
                } else {
                    None
                },
            })
            &&& taken_by(found(received, sent + rest), sent + rest) == sent.len()
        }),
{
    let topic = utf8::encode_utf8(p.topic());
    let message = p.message(now as nat);
    let sent = frame::data_frame(topic, message);
    let body = frame::data_body(topic, message);
    let f = frame::FrameView { msg_type: MSG_SUBSCRIBE_DATA, body };
    producer::law_messages_fit_frames(p, now);
    assert(sent =~= frame::wire_frame(f));
    frame::law_frame_round_trip(f, rest);
    assert(frame::frames_of(sent + rest)[0] == f);
    assert(frame::first_frame(sent + rest) == f);
    assert(frame::frame_len(sent + rest) == sent.len());
    frame::law_data_body_is_understood(topic, message);
    assert(body.skip(4 + codec::be16_at(body, 0)) =~= frame::behind_topic(body).skip(2));
    assert(carried(body) == Some(message));
    law_time_is_read_back(
        p.id as u128,
        p.seq as u128,
        now,
        p.topic(),
        p.source.subrange(p.choice().offset, p.choice().offset + p.choice().len),
    );
}

/// Without a colon from a place on, the search ends at the end.
proof fn lemma_no_colon(s: Seq<u8>, from: int)
    requires
        0 <= from,
        forall|i: int| from <= i < s.len() ==> #[trigger] s[i] != COLON,
    ensures
        colon_from(s, from) == s.len(),
    decreases s.len() - from,
{
    if from < s.len() {
        lemma_no_colon(s, from + 1);
    }
}

/// Whether some bytes hold no colon.
pub open spec fn is_one_field(s: Seq<u8>) -> bool {
    forall|i: int| 0 <= i < s.len() ==> #[trigger] s[i] != COLON
}

/// The field that the time is read from: what stands between the second colon and the third, however
/// long the fields are and whatever follows. With fewer colons there is none.
#[verifier::spinoff_prover]
pub proof fn law_time_stands_in_the_third_field(
    a: Seq<u8>,
    b: Seq<u8>,
    c: Seq<u8>,
    behind: Seq<u8>,
)
    requires
        is_one_field(a),
        is_one_field(b),
        is_one_field(c),
    ensures
        time_field(a.push(COLON) + b.push(COLON) + c.push(COLON) + behind) == Some(c),
        time_field(a.push(COLON) + b.push(COLON) + c) is None,
        time_field(a.push(COLON) + b) is None,
        time_field(a) is None,
{
    let (i, j, k) = (
        a.len() as int,
        a.len() + 1 + b.len() as int,
        a.len() + 1 + b.len() + 1 + c.len() as int,
    );
    let whole = a.push(COLON) + b.push(COLON) + c.push(COLON) + behind;
    assert forall|x: int| 0 <= x < k && x != i && x != j implies #[trigger] whole[x] != COLON by {
        if x < i {
            assert(whole[x] == a[x]);
        } else if x < j {
            assert(whole[x] == b[x - i - 1]);
        } else {
            assert(whole[x] == c[x - j - 1]);
        }
    }
    lemma_colon_at(whole, 0, i);
    lemma_colon_at(whole, i + 1, j);
    lemma_colon_at(whole, j + 1, k);
    assert(whole.subrange(j + 1, k) =~= c);
    let three = a.push(COLON) + b.push(COLON) + c;
    assert forall|x: int| 0 <= x < three.len() && x != i && x != j implies #[trigger] three[x]
        != COLON by {
        assert(three[x] == whole[x]);
    }
    lemma_colon_at(three, 0, i);
    lemma_colon_at(three, i + 1, j);
    lemma_no_colon(three, j + 1);
    let two = a.push(COLON) + b;
    assert forall|x: int| 0 <= x < two.len() && x != i implies #[trigger] two[x] != COLON by {
        assert(two[x] == whole[x]);
    }
    lemma_colon_at(two, 0, i);
    lemma_no_colon(two, i + 1);
    lemma_no_colon(a, 0);
}

/// What the field says: its digits are a time, however many there are, as long as 128 bits hold it.
/// An empty field says nothing, and one with a byte below the digits cannot be read.
pub proof fn law_times_are_read(s: Seq<u8>, now: u128)
    ensures
        time_field(s) == Some(utf8::encode_utf8(decimal::decimal(now as nat))) ==> message_time(s)
            == MessageTime::At(now),
        time_field(s) is Some && time_field(s)->0.len() > 0 && (forall|i: int|
            0 <= i < time_field(s)->0.len() ==> #[trigger] time_field(s)->0[i] >= 48)
            && decimal::value_of(time_field(s)->0) <= u128::MAX ==> message_time(s)
            == MessageTime::At(decimal::value_of(time_field(s)->0) as u128),
        time_field(s) is Some && decimal::value_of(time_field(s)->0) > u128::MAX ==> message_time(s)
            is Malformed,
        time_field(s) is None ==> message_time(s) is Absent,
        time_field(s) == Some(Seq::<u8>::empty()) ==> message_time(s) is Absent,
        forall|i: int|
            time_field(s) is Some && 0 <= i < time_field(s)->0.len() && #[trigger] time_field(
                s,
            )->0[i] < 48 ==> message_time(s) is Malformed,
{
    decimal::law_decimal_round_trip(now as nat);
}

/// What a producer writes into a message is found in it again, field by field: its number, the
/// number of the message, the time, and behind these the topic, a colon and the payload.
#[verifier::spinoff_prover]
pub proof fn law_message_is_read_back(
    id: u128,
    seq: u128,
    now: u128,
    topic: Seq<char>,
    payload: Seq<u8>,
)
    ensures
        ({
            let s = producer::message_header(id as nat, seq as nat, now as nat, topic) + payload;
            let t = utf8::encode_utf8(topic);
            let i = colon_from(s, 0);
            let j = colon_from(s, i + 1);
            let k = colon_from(s, j + 1);
            &&& 0 < i && i + 1 < j && j + 1 < k < s.len()
            &&& decimal::value_of(s.take(i)) == id
            &&& decimal::value_of(s.subrange(i + 1, j)) == seq
            &&& decimal::value_of(s.subrange(j + 1, k)) == now
            &&& s.skip(k + 1) == t.push(COLON) + payload
        }),
{
    let a = utf8::encode_utf8(decimal::decimal(id as nat));
    let b = utf8::encode_utf8(decimal::decimal(seq as nat));
    let c = utf8::encode_utf8(decimal::decimal(now as nat));
    let t = utf8::encode_utf8(topic);
    decimal::law_decimal_round_trip(id as nat);
    decimal::law_decimal_round_trip(seq as nat);
    decimal::law_decimal_round_trip(now as nat);
    let s = producer::message_header(id as nat, seq as nat, now as nat, topic) + payload;
    let i = a.len() as int;
    let j = i + 1 + b.len();
    let k = j + 1 + c.len();
    assert(s =~= a.push(COLON) + b.push(COLON) + c.push(COLON) + (t.push(COLON) + payload));
    assert forall|x: int| 0 <= x < i implies #[trigger] s[x] != COLON by {
        assert(s[x] == a[x]);
    }
    assert forall|x: int| i < x < j implies #[trigger] s[x] != COLON by {
        assert(s[x] == b[x - i - 1]);
    }
    assert forall|x: int| j < x < k implies #[trigger] s[x] != COLON by {
        assert(s[x] == c[x - j - 1]);
    }
    lemma_colon_at(s, 0, i);
    lemma_colon_at(s, i + 1, j);
    lemma_colon_at(s, j + 1, k);
    assert(s.take(i) =~= a);
    assert(s.subrange(i + 1, j) =~= b);
    assert(s.subrange(j + 1, k) =~= c);
    assert(s.skip(k + 1) =~= t.push(COLON) + payload);
}

/// A message was under way for as long as passed between the two times. Clocks that disagree make
/// that nothing, and of longer times the low 64 bits are kept.
pub proof fn law_latency_is_the_difference(made: u128, ns: u64, now: u128)
    ensures
        made + ns <= u128::MAX ==> latency((made + ns) as u128, made) == ns,
        now < made ==> latency(now, made) == 0,
        made <= now && now + 0x1_0000_0000_0000_0000 <= u128::MAX ==> latency(
            (now + 0x1_0000_0000_0000_0000) as u128,
            made,
        ) == latency(now, made),
{
}

/// What a consumer finds in a data frame, whatever topic and payload it carries and whatever follows
/// it: one message, counted, the frame taken off whole. Of every hundredth message the time is read.
/// Each frame must fit its length field.
#[verifier::spinoff_prover]
pub proof fn law_data_frames_are_counted(
    topic: Seq<u8>,
    payload: Seq<u8>,
    received: u64,
    rest: Seq<u8>,
)
    requires
        5 + topic.len() + payload.len() <= 65535,
        received < u64::MAX,
    ensures
        ({
            let sent = frame::data_frame(topic, payload);
            let step = found(received, sent + rest);
            let length = sent.len() as usize;
            &&& received % 100 != 0 ==> step == (ConsumerStep::Data {
                length,
                counted: true,
                made: None,
            })
            &&& received % 100 == 0 ==> match message_time(payload) {
                MessageTime::At(t) => step == (ConsumerStep::Data {
                    length,
                    counted: true,
                    made: Some(t),
                }),
                MessageTime::Absent => step == (ConsumerStep::Data {
                    length,
                    counted: true,
                    made: None,
                }),
                MessageTime::Malformed => step is Malformed,
            }
            &&& step !is Malformed ==> taken_by(step, sent + rest) == sent.len() && (sent
                + rest).skip(sent.len() as int) == rest
        }),
{
    let sent = frame::data_frame(topic, payload);
    let body = frame::data_body(topic, payload);
    let f = frame::FrameView { msg_type: MSG_SUBSCRIBE_DATA, body };
    assert(sent =~= frame::wire_frame(f));
    frame::law_frame_round_trip(f, rest);
    assert(frame::frames_of(sent + rest)[0] == f);
    assert(frame::first_frame(sent + rest) == f);
    assert(frame::frame_len(sent + rest) == sent.len());
    frame::law_data_body_is_understood(topic, payload);
    assert(body.skip(4 + codec::be16_at(body, 0)) =~= frame::behind_topic(body).skip(2));
    assert(carried(body) == Some(payload));
    assert((sent + rest).skip(sent.len() as int) =~= rest);
}

/// What a consumer finds in frames that carry no message: one of another type is taken off and not
/// counted, and a frame of which not all has arrived is left alone.
pub proof fn law_other_frames_are_not_counted(f: frame::FrameView, received: u64, rest: Seq<u8>)
    requires
        1 + f.body.len() <= 65535,
        f.msg_type != MSG_SUBSCRIBE_DATA,
    ensures
        ({
            let sent = frame::wire_frame(f);
            let step = found(received, sent + rest);
            &&& step is PassedOver
            &&& taken_by(step, sent + rest) == sent.len()
        }),
        forall|n: int|
            #![trigger frame::wire_frame(f).take(n)]
            0 <= n < frame::wire_frame(f).len() ==> found(
                received,
                frame::wire_frame(f).take(n),
            ) is Incomplete && taken_by(
                found(received, frame::wire_frame(f).take(n)),
                frame::wire_frame(f).take(n),
            ) == 0,
{
    let sent = frame::wire_frame(f);
    frame::law_frame_round_trip(f, rest);
    assert(frame::frames_of(sent + rest)[0] == f);
    assert(frame::first_frame(sent + rest) == f);
    let total = frame::low16(1 + f.body.len());
    assert((sent + rest).subrange(0, 2) =~= codec::be16(total));
    codec::lemma_be16_round_trip(sent + rest, 0, total);
    assert forall|n: int|
        #![trigger sent.take(n)]
        0 <= n < sent.len() implies found(received, sent.take(n)) is Incomplete by {
        if n >= 3 {
            assert(sent.take(n).subrange(0, 2) =~= codec::be16(total));
            codec::lemma_be16_round_trip(sent.take(n), 0, total);
        }
    }
}

/// How many messages a consumer counts in what it reads, step by step.
pub open spec fn counted_in(received: u64, stream: Seq<u8>) -> int
    decreases stream.len(),
{
    let step = found(received, stream);
    let taken = taken_by(step, stream);
    if 0 < taken <= stream.len() {
        counted_by(step) + counted_in(
            (received + counted_by(step)) as u64,
            stream.skip(taken),
        )
    } else {
        0
    }
}

/// A consumer counts every message of a batch: as many as the batch was made of, and then it goes on
/// with what follows. A message whose time cannot be read would stop it.
pub proof fn law_every_message_of_a_batch_is_counted(
    topic: Seq<u8>,
    payloads: Seq<Seq<u8>>,
    received: u64,
    rest: Seq<u8>,
)
    requires
        received + payloads.len() <= u64::MAX,
        forall|i: int|
            0 <= i < payloads.len() ==> 5 + topic.len() + (#[trigger] payloads[i]).len() <= 65535
                && message_time(payloads[i]) !is Malformed,
    ensures
        counted_in(received, frame::data_frames(topic, payloads) + rest) == payloads.len()
            + counted_in((received + payloads.len()) as u64, rest),
    decreases payloads.len(),
{
    if payloads.len() == 0 {
        assert(frame::data_frames(topic, payloads) + rest =~= rest);
    } else {
        let head = payloads[0];
        let tail = payloads.drop_first();
        let one = seq![head];
        let sent = frame::data_frame(topic, head);
        let behind = frame::data_frames(topic, tail) + rest;
        let stream = frame::data_frames(topic, payloads) + rest;
        assert(one + tail =~= payloads);
        frame::law_batches_join(topic, one, tail);
        assert(one.drop_last() =~= Seq::<Seq<u8>>::empty());
        assert(frame::data_frames(topic, Seq::<Seq<u8>>::empty()) =~= Seq::<u8>::empty());
        assert(frame::data_frames(topic, one) =~= sent);
        assert(stream =~= sent + behind);
        law_data_frames_are_counted(topic, head, received, behind);
        assert forall|i: int| 0 <= i < tail.len() implies 5 + topic.len() + (
        #[trigger] tail[i]).len() <= 65535 && message_time(tail[i]) !is Malformed by {
            assert(tail[i] == payloads[i + 1]);
        }
        law_every_message_of_a_batch_is_counted(topic, tail, (received + 1) as u64, rest);
        let step = found(received, stream);
        assert(counted_by(step) == 1);
        assert(taken_by(step, stream) == sent.len());
        assert(stream.skip(sent.len() as int) =~= behind);
    }
}

/// What a producer's message consists of: its fields are the producer's number, the number of the
/// message, the time and the topic that the message goes to, and behind them stands the whole piece
/// of the source that was chosen.
#[verifier::spinoff_prover]
pub proof fn law_messages_say_what_they_are(p: producer::ProducerView, now: u128)
    requires
        p.wf(),
        !p.finished(),
    ensures
        ({
            let s = p.message(now as nat);
            let t = utf8::encode_utf8(p.topic());
            let i = colon_from(s, 0);
            let j = colon_from(s, i + 1);
            let k = colon_from(s, j + 1);
            let start = k + 1 + t.len() + 1;
            &&& 0 < i && i + 1 < j && j + 1 < k
            &&& decimal::value_of(s.take(i)) == p.id
            &&& decimal::value_of(s.subrange(i + 1, j)) == p.seq
            &&& decimal::value_of(s.subrange(j + 1, k)) == now
            &&& s.subrange(k + 1, start - 1) == t
            &&& s[start - 1] == COLON
            &&& s.len() == start + p.choice().len
            &&& forall|x: int|
                0 <= x < p.choice().len ==> #[trigger] s[start + x] == p.source[p.choice().offset
                    + x]
        }),
        p.topic() == crate::bench::topic_text(
            p.args.producer_topic(p.id as int, p.place()) as nat,
        ),
{
    producer::law_payload_lies_in_source(p);
    let payload = p.source.subrange(p.choice().offset, p.choice().offset + p.choice().len);
    let s = p.message(now as nat);
    let t = utf8::encode_utf8(p.topic());
    law_message_is_read_back(p.id as u128, p.seq as u128, now, p.topic(), payload);
    assert(s == producer::message_header(p.id, p.seq, now as nat, p.topic()) + payload);
    let i = colon_from(s, 0);
    let j = colon_from(s, i + 1);
    let k = colon_from(s, j + 1);
    assert(0 < k < s.len());
    let back = s.skip(k + 1);
    assert(back == t.push(COLON) + payload);
    assert(back.len() == s.len() - (k + 1));
    assert(back.len() == t.len() + 1 + p.choice().len);
    assert(s.subrange(k + 1, k + 1 + t.len()) =~= back.take(t.len() as int));
    assert(back.take(t.len() as int) =~= t);
    assert(s[k + 1 + t.len()] == back[t.len() as int]);
    let start = k + 1 + t.len() + 1;
    assert forall|x: int| 0 <= x < p.choice().len implies #[trigger] s[start + x]
        == p.source[p.choice().offset + x] by {
        assert(s[start + x] == back[t.len() + 1 + x]);
        assert(back[t.len() + 1 + x] == payload[x]);
    }
}

/// What a consumer finds in a frame of the type for data, whatever its body is: one with fewer than
/// four bytes carries no message and is not counted; any other is. Only from a body that is as long
/// as it says its topic is, a time is read.
pub proof fn law_bodies_are_counted_by_length(body: Seq<u8>, received: u64, rest: Seq<u8>)
    requires
        1 + body.len() <= 65535,
        received < u64::MAX,
    ensures
        ({
            let f = frame::FrameView { msg_type: MSG_SUBSCRIBE_DATA, body };
            let sent = frame::wire_frame(f);
            let step = found(received, sent + rest);
            let length = sent.len() as usize;
            &&& body.len() < 4 ==> step == (ConsumerStep::Data {
                length,
                counted: false,
                made: None,
            })
            &&& body.len() >= 4 && (received % 100 != 0 || body.len() < 4 + codec::be16_at(body, 0))
                ==> step == (ConsumerStep::Data { length, counted: true, made: None })
            &&& step !is Malformed ==> taken_by(step, sent + rest) == sent.len()
            &&& step is Malformed ==> received % 100 == 0 && body.len() >= 4 + codec::be16_at(
                body,
                0,
            ) && message_time(body.skip(4 + codec::be16_at(body, 0))) is Malformed
        }),
{
    let f = frame::FrameView { msg_type: MSG_SUBSCRIBE_DATA, body };
    let sent = frame::wire_frame(f);
    frame::law_frame_round_trip(f, rest);
    assert(frame::frames_of(sent + rest)[0] == f);
    assert(frame::first_frame(sent + rest) == f);
    let total = frame::low16(1 + f.body.len());
    assert((sent + rest).subrange(0, 2) =~= codec::be16(total));
    codec::lemma_be16_round_trip(sent + rest, 0, total);
}

/// A message that comes without a frame is taken as if it had come in a data frame: it is counted
/// alike, and read for its time alike.
pub proof fn law_messages_without_frames_count_alike(
    topic: Seq<u8>,
    payload: Seq<u8>,
    received: u64,
    rest: Seq<u8>,
)
    requires
        5 + topic.len() + payload.len() <= 65535,
        received < u64::MAX,
    ensures
        ({
            let sent = frame::data_frame(topic, payload);
            found(received, sent + rest) == match read_from_message(received, payload) {
                Some(made) => ConsumerStep::Data { length: sent.len() as usize, counted: true, made },
                None => ConsumerStep::Malformed,
            }
        }),
{
    law_data_frames_are_counted(topic, payload, received, rest);
}

} // verus!
