//! What a producer of a load test sends.
//!
//! A message is text followed by payload: `producer:sequence:time:topic:` and then bytes cut from a
//! fixed source.

use crate::bench;
use crate::bench::BenchArgs;
use crate::decimal;
use crate::decimal::format_decimal;
use crate::frame;
use crate::frame::push_publish_frame;
use std::sync::Arc;
use vstd::prelude::*;
use vstd::slice::slice_subrange;
use vstd::utf8;

verus! {

/// How many bytes payloads are cut from.
pub const SOURCE_SIZE: usize = 32768;

/// The smallest payload of a producer that varies them.
pub const MIN_VARIABLE_PAYLOAD: u32 = 512;

/// How many different lengths such a producer's payloads have.
pub const VARIABLE_PAYLOAD_SPAN: u32 = 9728;

/// From how many places of the source such payloads are cut.
pub const OFFSET_SPAN: u32 = 16384;

/// A producer writes to its connection when it has collected so many bytes.
pub const WRITE_BATCH_SIZE: usize = 65536;

/// The seed of the first producer; the others' are its multiples.
pub const SEED: u64 = 0xdeadbeef;

/// The colon.
pub const COLON: u8 = 58;

/// The bytes that payloads are cut from.
pub open spec fn source_bytes() -> Seq<u8> {
    Seq::new(SOURCE_SIZE as nat, |i: int| (i % 255) as u8)
}

/// Makes the bytes that payloads are cut from.
pub fn source_data() -> (source: Vec<u8>)
    ensures
        source@ == source_bytes(),
{
    let mut source: Vec<u8> = Vec::with_capacity(SOURCE_SIZE);
    while source.len() < SOURCE_SIZE
        invariant
            source@.len() <= SOURCE_SIZE,
            forall|i: int| 0 <= i < source@.len() ==> #[trigger] source@[i] == (i % 255) as u8,
        decreases SOURCE_SIZE - source@.len(),
    {
        source.push((source.len() % 255) as u8);
    }
    assert(source@ =~= source_bytes());
    source
}

/// The next state of a producer's random number generator.
pub open spec fn xorshift(state: u64) -> u64 {
    let a = state ^ (state << 13);
    let b = a ^ (a >> 7);
    b ^ (b << 17)
}

/// The random number of a state: its low 32 bits.
pub open spec fn low32(state: u64) -> int {
    state as int % 0x1_0000_0000
}

/// The generator never gets stuck at zero.
pub proof fn law_generator_never_stalls(state: u64)
    requires
        state != 0,
    ensures
        xorshift(state) != 0,
{
    let a = state ^ (state << 13);
    let b = a ^ (a >> 7);
    assert(state ^ (state << 13) != 0) by (bit_vector)
        requires
            state != 0,
    ;
    assert(a ^ (a >> 7) != 0) by (bit_vector)
        requires
            a != 0,
    ;
    assert(b ^ (b << 17) != 0) by (bit_vector)
        requires
            b != 0,
    ;
}

/// The text in front of a payload.
pub open spec fn message_header(id: nat, seq: nat, now: nat, topic: Seq<char>) -> Seq<u8> {
    utf8::encode_utf8(decimal::decimal(id)).push(COLON) + utf8::encode_utf8(
        decimal::decimal(seq),
    ).push(COLON) + utf8::encode_utf8(decimal::decimal(now)).push(COLON) + utf8::encode_utf8(
        topic,
    ).push(COLON)
}

/// Writes the text in front of a payload.
pub fn build_message_header(id: usize, seq: usize, now: u128, topic: &str) -> (header: Vec<u8>)
    ensures
        header@ == message_header(id as nat, seq as nat, now as nat, topic@),
{
    let mut header: Vec<u8> = Vec::with_capacity(128);
    header.extend_from_slice(format_decimal(id as u128).as_str().as_bytes());
    header.push(COLON);
    header.extend_from_slice(format_decimal(seq as u128).as_str().as_bytes());
    header.push(COLON);
    header.extend_from_slice(format_decimal(now).as_str().as_bytes());
    header.push(COLON);
    header.extend_from_slice(topic.as_bytes());
    header.push(COLON);
    assert(header@ =~= message_header(id as nat, seq as nat, now as nat, topic@));
    header
}

/// Which bytes of the source a payload is, and the state of the generator afterwards.
pub struct Choice {
    pub offset: int,
    pub len: int,
    pub rng: u64,
}

/// What a producer is about to do.
#[verifier::ext_equal]
pub struct ProducerView {
    pub args: BenchArgs,
    pub id: nat,
    pub source: Seq<u8>,
    /// How many messages were made.
    pub seq: nat,
    /// The state of the generator.
    pub rng: u64,
}

impl ProducerView {
    /// What the producer of that number starts with.
    pub open spec fn fresh(args: BenchArgs, id: nat, source: Seq<u8>) -> ProducerView {
        ProducerView { args, id, source, seq: 0, rng: ((id + 1) * SEED) as u64 }
    }

    /// The plan can be run, and payloads of a fixed length can be cut from the source.
    pub open spec fn wf(self) -> bool {
        &&& self.args.defect() is None
        &&& self.id <= usize::MAX
        &&& self.source.len() == SOURCE_SIZE
        &&& self.seq <= self.args.messages_per_conn
        &&& !self.args.variable_payload && self.args.messages_per_conn > 0
            ==> self.args.payload_size <= SOURCE_SIZE
    }

    /// All messages were made.
    pub open spec fn finished(self) -> bool {
        self.seq >= self.args.messages_per_conn
    }

    /// Which of its topics the next message goes to.
    pub open spec fn place(self) -> int {
        self.seq as int % self.args.topics_per_producer as int
    }

    /// The name of the topic that the next message goes to.
    pub open spec fn topic(self) -> Seq<char> {
        bench::topic_text(self.args.producer_topic(self.id as int, self.place()) as nat)
    }

    /// The payload of the next message.
    pub open spec fn choice(self) -> Choice {
        if self.args.variable_payload {
            let first = xorshift(self.rng);
            let second = xorshift(first);
            Choice {
                offset: low32(second) % OFFSET_SPAN as int,
                len: MIN_VARIABLE_PAYLOAD + low32(first) % VARIABLE_PAYLOAD_SPAN as int,
                rng: second,
            }
        } else {
            Choice { offset: 0, len: self.args.payload_size as int, rng: self.rng }
        }
    }

    /// The next message, made at the time `now`.
    pub open spec fn message(self, now: nat) -> Seq<u8> {
        message_header(self.id, self.seq, now, self.topic()) + self.source.subrange(
            self.choice().offset,
            self.choice().offset + self.choice().len,
        )
    }

    /// The producer after the next message.
    pub open spec fn next(self) -> ProducerView {
        ProducerView { seq: self.seq + 1, rng: self.choice().rng, ..self }
    }
}

/// A payload always lies within the source.
pub proof fn law_payload_lies_in_source(p: ProducerView)
    requires
        p.wf(),
        !p.finished(),
    ensures
        0 <= p.choice().offset,
        0 <= p.choice().len,
        p.choice().offset + p.choice().len <= SOURCE_SIZE,
{
}

/// The name of a topic takes no more than 55 bytes, one for each of its characters.
proof fn lemma_topic_text(topic: usize)
    ensures
        utf8::encode_utf8(bench::topic_text(topic as nat)).len() <= 55,
{
    let text = bench::topic_text(topic as nat);
    reveal_strlit("benchmark_topic_");
    decimal::lemma_ascii(topic as nat);
    decimal::lemma_decimal_is_short(topic as u128);
    assert(utf8::is_ascii_chars(text));
    utf8::is_ascii_chars_encode_utf8(text);
}

/// Every message fits the frames that carry it, from the producer and to the consumers.
pub proof fn law_messages_fit_frames(p: ProducerView, now: u128)
    requires
        p.wf(),
        !p.finished(),
    ensures
        3 + utf8::encode_utf8(p.topic()).len() + p.message(now as nat).len() <= 65535,
        5 + utf8::encode_utf8(p.topic()).len() + p.message(now as nat).len() <= 65535,
{
    law_payload_lies_in_source(p);
    let topics = p.args.topics as int;
    vstd::arithmetic::div_mod::lemma_mod_bound(p.id + p.place(), topics);
    lemma_topic_text(p.args.producer_topic(p.id as int, p.place()) as usize);
    decimal::lemma_decimal_is_short(p.id as u128);
    decimal::lemma_decimal_is_short(p.seq as u128);
    decimal::lemma_decimal_is_short(now);
}

/// A message, and which of the producer's topics it goes to.
pub struct Produced {
    pub place: usize,
    pub message: Vec<u8>,
}

/// What came of making a frame.
pub enum ProducerStep {
    /// All messages were made.
    Finished,
    /// A frame was added, and there is room for more.
    Buffered,
    /// A frame was added, and what was collected is to be written.
    Full,
}

/// Why a producer cannot run.
#[derive(Clone, Copy, Debug, PartialEq, Eq, Structural)]
pub enum ProducerError {
    /// There is no seed for a producer of that number.
    NoSeed,
    /// The payload is longer than the source.
    PayloadTooLong,
}

/// A producer of a load test.
pub struct Producer {
    args: BenchArgs,
    id: usize,
    names: Vec<String>,
    source: Arc<Vec<u8>>,
    seq: usize,
    rng: u64,
}

impl View for Producer {
    type V = ProducerView;

    closed spec fn view(&self) -> ProducerView {
        ProducerView {
            args: self.args,
            id: self.id as nat,
            source: self.source@,
            seq: self.seq as nat,
            rng: self.rng,
        }
    }
}

impl Producer {
    /// The producer has the names of its topics.
    pub closed spec fn wf(self) -> bool {
        &&& self@.wf()
        &&& self.names@.len() == self.args.topics_per_producer
        &&& forall|i: int|
            0 <= i < self.names@.len() ==> (#[trigger] self.names@[i])@ == bench::topic_text(
                self.args.producer_topic(self.id as int, i) as nat,
            )
    }

    /// What a well-formed producer is about to do can be done.
    pub proof fn lemma_wf(self)
        requires
            self.wf(),
        ensures
            self@.wf(),
    {
    }

    /// Makes the producer of that number.
    pub fn new(args: BenchArgs, id: usize, source: Arc<Vec<u8>>) -> (made: Result<
        Producer,
        ProducerError,
    >)
        requires
            args.defect() is None,
            source@.len() == SOURCE_SIZE,
        ensures
            match made {
                Ok(p) => {
                    &&& (id + 1) * SEED <= u64::MAX
                    &&& p.wf()
                    &&& p@ == ProducerView::fresh(args, id as nat, source@)
                },
                Err(ProducerError::NoSeed) => (id + 1) * SEED > u64::MAX,
                Err(ProducerError::PayloadTooLong) => {
                    &&& (id + 1) * SEED <= u64::MAX
                    &&& !args.variable_payload
                    &&& args.messages_per_conn > 0
                    &&& args.payload_size > SOURCE_SIZE
                },
            },
    {
        if id as u64 > u64::MAX / SEED - 1 {
            assert((id + 1) * SEED > u64::MAX) by (nonlinear_arith)
                requires
                    id + 1 > u64::MAX / SEED,
                    SEED == 0xdeadbeef,
            ;
            return Err(ProducerError::NoSeed);
        }
        assert((id + 1) * SEED <= u64::MAX) by (nonlinear_arith)
            requires
                id + 1 <= u64::MAX / SEED,
                SEED == 0xdeadbeef,
        ;
        if !args.variable_payload && args.messages_per_conn > 0 && args.payload_size
            > SOURCE_SIZE {
            return Err(ProducerError::PayloadTooLong);
        }
        let names = args.producer_topic_names(id);
        Ok(Producer { args, id, names, source, seq: 0, rng: (id as u64 + 1) * SEED })
    }

    /// The name of one of the producer's topics.
    pub fn topic(&self, place: usize) -> (name: &String)
        requires
            self.wf(),
            place < self@.args.topics_per_producer,
        ensures
            name@ == bench::topic_text(
                self@.args.producer_topic(self@.id as int, place as int) as nat,
            ),
    {
        &self.names[place]
    }

    /// Draws the next random number.
    fn next_u32(&mut self) -> (drawn: u32)
        ensures
            final(self)@ == (ProducerView { rng: xorshift(old(self)@.rng), ..old(self)@ }),
            drawn == low32(final(self)@.rng),
            final(self).names == old(self).names,
            old(self).wf() ==> final(self).wf(),
    {
        let a: u64 = self.rng ^ (self.rng << 13);
        let b: u64 = a ^ (a >> 7);
        self.rng = b ^ (b << 17);
        (self.rng % 0x1_0000_0000) as u32
    }

    /// Makes the next message, at the time `now`. `None` once all messages were made.
    pub fn produce(&mut self, now: u128) -> (produced: Option<Produced>)
        requires
            old(self).wf(),
        ensures
            final(self).wf(),
            match produced {
                Some(p) => {
                    &&& !old(self)@.finished()
                    &&& p.place == old(self)@.place()
                    &&& p.message@ == old(self)@.message(now as nat)
                    &&& final(self)@ == old(self)@.next()
                },
                None => old(self)@.finished() && final(self)@ == old(self)@,
            },
    {
        if self.seq >= self.args.messages_per_conn {
            return None;
        }
        let ghost before = self@;
        let place: usize = self.seq % self.names.len();
        let mut offset: usize = 0;
        let mut len: usize = self.args.payload_size;
        if self.args.variable_payload {
            let size: u32 = self.next_u32() % VARIABLE_PAYLOAD_SPAN;
            len = (MIN_VARIABLE_PAYLOAD + size) as usize;
            offset = (self.next_u32() % OFFSET_SPAN) as usize;
        }
        let mut message = build_message_header(self.id, self.seq, now, self.names[place].as_str());
        let payload = slice_subrange(self.source.as_slice(), offset, offset + len);
        message.extend_from_slice(payload);
        self.seq += 1;
        assert(message@ =~= before.message(now as nat));
        Some(Produced { place, message })
    }

    /// Puts the frame of the next message, made at the time `now`, behind `out`.
    pub fn produce_frame(&mut self, now: u128, out: &mut Vec<u8>) -> (step: ProducerStep)
        requires
            old(self).wf(),
        ensures
            final(self).wf(),
            step is Finished ==> {
                &&& old(self)@.finished()
                &&& final(self)@ == old(self)@
                &&& final(out)@ == old(out)@
            },
            step !is Finished ==> {
                &&& !old(self)@.finished()
                &&& final(self)@ == old(self)@.next()
                &&& final(out)@ == old(out)@ + frame::publish_frame(
                    utf8::encode_utf8(old(self)@.topic()),
                    old(self)@.message(now as nat),
                )
                &&& step is Full <==> final(out)@.len() >= WRITE_BATCH_SIZE
            },
    {
        let ghost before = self@;
        match self.produce(now) {
            None => ProducerStep::Finished,
            Some(p) => {
                proof {
                    law_messages_fit_frames(before, now);
                }
                push_publish_frame(out, self.names[p.place].as_str(), p.message.as_slice());
                if out.len() >= WRITE_BATCH_SIZE {
                    ProducerStep::Full
                } else {
                    ProducerStep::Buffered
                }
            },
        }
    }
}

/// A producer after its first `k` messages.
pub open spec fn producer_after(args: BenchArgs, id: nat, source: Seq<u8>, k: nat) -> ProducerView
    decreases k,
{
    if k == 0 {
        ProducerView::fresh(args, id, source)
    } else {
        producer_after(args, id, source, (k - 1) as nat).next()
    }
}

/// A producer makes its number of messages and then is finished. The messages are numbered in turn,
/// and plan, number and source of the producer stay.
pub proof fn law_messages_are_numbered(args: BenchArgs, id: nat, source: Seq<u8>, k: nat)
    ensures
        producer_after(args, id, source, k).seq == k,
        producer_after(args, id, source, k).finished() <==> k >= args.messages_per_conn,
        producer_after(args, id, source, k).args == args,
        producer_after(args, id, source, k).id == id,
        producer_after(args, id, source, k).source == source,
    decreases k,
{
    if k > 0 {
        law_messages_are_numbered(args, id, source, (k - 1) as nat);
    }
}

/// Messages go to the topics of a producer in turn: the first to the first, each later one to the
/// topic behind that of the message before it, and behind the last topic comes the first.
pub proof fn law_topics_are_served_in_turn(p: ProducerView)
    requires
        p.args.topics_per_producer > 0,
    ensures
        p.seq == 0 ==> p.place() == 0,
        0 <= p.place() < p.args.topics_per_producer,
        p.next().place() == if p.place() + 1 == p.args.topics_per_producer {
            0
        } else {
            p.place() + 1
        },
{
    let n = p.args.topics_per_producer as int;
    bench::lemma_goes_round(p.seq as int, n);
    vstd::arithmetic::div_mod::lemma_small_mod(0, n as nat);
}

/// Over the run of a producer each of its topics gets its share: all the same number of messages,
/// and one more for the first ones where the messages cannot be shared out evenly.
pub proof fn law_each_topic_gets_its_share(args: BenchArgs, id: nat, source: Seq<u8>, place: int)
    requires
        0 <= place < args.topics_per_producer,
    ensures
        bench::count_below(
            args.messages_per_conn as nat,
            |k: int| producer_after(args, id, source, k as nat).place() == place,
        ) == args.messages_per_conn as int / args.topics_per_producer as int + if place
            < args.messages_per_conn as int % args.topics_per_producer as int {
            1int
        } else {
            0int
        },
{
    lemma_share_among_first(args, id, source, place, args.messages_per_conn as nat);
}

/// The same over the first `n` messages.
proof fn lemma_share_among_first(
    args: BenchArgs,
    id: nat,
    source: Seq<u8>,
    place: int,
    n: nat,
)
    requires
        0 <= place < args.topics_per_producer,
    ensures
        bench::count_below(
            n,
            |k: int| producer_after(args, id, source, k as nat).place() == place,
        ) == n as int / args.topics_per_producer as int + if place < n as int
            % args.topics_per_producer as int {
            1int
        } else {
            0int
        },
{
    let t = args.topics_per_producer as int;
    let goes = |k: int| producer_after(args, id, source, k as nat).place() == place;
    let falls = |k: int| k % t == place;
    assert forall|k: int| 0 <= k < n implies #[trigger] goes(k) == #[trigger] falls(k) by {
        law_messages_are_numbered(args, id, source, k as nat);
    }
    bench::lemma_count_same(n, goes, falls);
    bench::law_messages_are_shared_out(n, t, place);
}

/// How many of its first `n` messages a producer sends to a topic.
pub open spec fn messages_sent_to(
    args: BenchArgs,
    id: nat,
    source: Seq<u8>,
    name: Seq<char>,
    n: nat,
) -> int {
    bench::count_below(
        n,
        |k: int| producer_after(args, id, source, k as nat).topic() == name,
    )
}

/// A producer sends to a topic of its own an even part of its first messages, at least, and exactly
/// that where they can be shared out evenly; to other topics it sends nothing.
proof fn lemma_messages_sent_to(
    args: BenchArgs,
    id: nat,
    source: Seq<u8>,
    topic: int,
    n: nat,
)
    requires
        args.defect() is None,
        0 <= topic < args.topics,
    ensures
        ({
            let sent = messages_sent_to(args, id, source, bench::topic_text(topic as nat), n);
            let due = if args.sends_to(id as int, topic) {
                n as int / args.topics_per_producer as int
            } else {
                0
            };
            &&& due <= sent
            &&& n as int % args.topics_per_producer as int == 0 ==> sent == due
        }),
{
    let name = bench::topic_text(topic as nat);
    let goes = |k: int| producer_after(args, id, source, k as nat).topic() == name;
    let at = |k: int| producer_after(args, id, source, k as nat).place();
    assert forall|k: int| 0 <= k < n implies 0 <= #[trigger] at(k) < args.topics_per_producer && goes(
        k,
    ) == (args.producer_topic(id as int, at(k)) == topic) by {
        let p = producer_after(args, id, source, k as nat);
        law_messages_are_numbered(args, id, source, k as nat);
        law_topics_are_served_in_turn(p);
        bench::law_topics_go_round(args, id as int, at(k));
        bench::law_topic_names_differ(
            args.producer_topic(id as int, at(k)) as nat,
            topic as nat,
        );
    }
    if args.sends_to(id as int, topic) {
        let i = choose|i: int|
            0 <= i < args.topics_per_producer && #[trigger] args.producer_topic(id as int, i)
                == topic;
        let here = |k: int| producer_after(args, id, source, k as nat).place() == i;
        assert forall|k: int| 0 <= k < n implies #[trigger] goes(k) == #[trigger] here(k) by {
            assert(0 <= at(k) < args.topics_per_producer);
            if at(k) != i {
                crate::arith::lemma_remainders_distinct(id as int, at(k), i, args.topics as int);
            }
        }
        bench::lemma_count_same(n, goes, here);
        lemma_share_among_first(args, id, source, i, n);
    } else {
        assert forall|k: int| 0 <= k < n implies !#[trigger] goes(k) by {
            assert(0 <= at(k) < args.topics_per_producer);
            assert(args.producer_topic(id as int, at(k)) != topic);
        }
        bench::lemma_count_nothing(n, goes);
    }
}

/// Over all producers the first `n` messages of each bring a topic an even part of them from each
/// producer that sends to it.
proof fn lemma_all_sent_to(args: BenchArgs, source: Seq<u8>, c: int, n: nat)
    requires
        args.defect() is None,
        0 <= c,
    ensures
        ({
            let topic = args.consumer_topic(c);
            let sent = bench::sum_below(
                args.producer_count(),
                |p: int|
                    messages_sent_to(args, p as nat, source, bench::topic_text(topic as nat), n),
            );
            let due = (n as int / args.topics_per_producer as int) * args.senders(topic);
            &&& due <= sent
            &&& n as int % args.topics_per_producer as int == 0 ==> due == sent
        }),
{
    let topic = args.consumer_topic(c);
    bench::law_topics_go_round(args, c, 0);
    let name = bench::topic_text(topic as nat);
    let producers = args.producer_count();
    let part = n as int / args.topics_per_producer as int;
    let even = n as int % args.topics_per_producer as int == 0;
    let sent = |p: int| messages_sent_to(args, p as nat, source, name, n);
    let hit = |p: int|
        if (|p: int| args.sends_to(p, topic))(p) {
            1
        } else {
            0int
        };
    let due = |p: int| part * hit(p);
    assert forall|p: int| 0 <= p < producers implies #[trigger] due(p) <= #[trigger] sent(p) && (even
        ==> due(p) == sent(p)) by {
        lemma_messages_sent_to(args, p as nat, source, topic, n);
        assert(part * 1 == part && part * 0 == 0) by (nonlinear_arith);
    }
    bench::lemma_sum_scaled(producers, part, hit);
    assert(args.senders(topic) == bench::sum_below(producers, hit));
    bench::lemma_sum_bounds(producers, due, sent);
    if even {
        bench::lemma_sum_same(producers, due, sent);
    }
}

/// A consumer waits for what it gets: for exactly as many messages as the producers send to its
/// topic, by name, among those that each can share out evenly. Over their whole runs the producers
/// send no fewer.
pub proof fn law_consumers_get_what_they_wait_for(args: BenchArgs, source: Seq<u8>, c: int)
    requires
        args.defect() is None,
        0 <= c,
    ensures
        ({
            let name = bench::topic_text(args.consumer_topic(c) as nat);
            let uneven = args.messages_per_conn as int % args.topics_per_producer as int;
            let n = (args.messages_per_conn - uneven) as nat;
            args.owed_to(c) == bench::sum_below(
                args.producer_count(),
                |p: int| messages_sent_to(args, p as nat, source, name, n),
            )
        }),
        ({
            let name = bench::topic_text(args.consumer_topic(c) as nat);
            let n = args.messages_per_conn as nat;
            args.owed_to(c) <= bench::sum_below(
                args.producer_count(),
                |p: int| messages_sent_to(args, p as nat, source, name, n),
            )
        }),
{
    let (all, t) = (args.messages_per_conn as int, args.topics_per_producer as int);
    let q = all / t;
    vstd::arithmetic::div_mod::lemma_fundamental_div_mod(all, t);
    vstd::arithmetic::div_mod::lemma_mod_bound(all, t);
    vstd::arithmetic::div_mod::lemma_div_pos_is_pos(all, t);
    assert(t * q == q * t) by (nonlinear_arith);
    assert(q * t >= 0) by (nonlinear_arith)
        requires
            q >= 0,
            t >= 0,
    ;
    vstd::arithmetic::div_mod::lemma_fundamental_div_mod_converse(q * t, t, q, 0);
    lemma_all_sent_to(args, source, c, (all - all % t) as nat);
    lemma_all_sent_to(args, source, c, all as nat);
}

/// The random number of a state is below 2^32 and differs from the state by a multiple of 2^32.
pub proof fn law_low_bits_are_drawn(state: u64)
    ensures
        0 <= low32(state) < 0x1_0000_0000,
        (state - low32(state)) % 0x1_0000_0000 == 0,
{
}

/// What a payload is cut by. A producer that varies its payloads draws a number for the length and
/// then one for the place: the length is the one among 512 to 10239 and the place the one below
/// 16384 that differ from those numbers by multiples of how many there are. Any other producer takes
/// its number of bytes from the front of the source, and draws nothing.
pub proof fn law_payloads_follow_the_draw(p: ProducerView)
    ensures
        p.args.variable_payload ==> {
            let first = xorshift(p.rng);
            let second = xorshift(first);
            &&& 512 <= p.choice().len <= 10239
            &&& (p.choice().len - 512 - low32(first)) % 9728 == 0
            &&& 0 <= p.choice().offset < 16384
            &&& (p.choice().offset - low32(second)) % 16384 == 0
            &&& p.next().rng == second
        },
        !p.args.variable_payload ==> {
            &&& p.choice().offset == 0
            &&& p.choice().len == p.args.payload_size
            &&& p.next().rng == p.rng
        },
{
}

/// The generator mixes bits without losing any: it maps different states to different states, and
/// the exclusive or of two states to that of what they are mapped to.
pub proof fn law_generator_loses_nothing(x: u64, y: u64)
    ensures
        xorshift(x ^ y) == xorshift(x) ^ xorshift(y),
        xorshift(x) == xorshift(y) ==> x == y,
{
    let (a, b) = (x ^ (x << 13), y ^ (y << 13));
    let (c, d) = (a ^ (a >> 7), b ^ (b >> 7));
    assert((x ^ y) ^ ((x ^ y) << 13) == (x ^ (x << 13)) ^ (y ^ (y << 13))) by (bit_vector);
    assert((a ^ b) ^ ((a ^ b) >> 7) == (a ^ (a >> 7)) ^ (b ^ (b >> 7))) by (bit_vector);
    assert((c ^ d) ^ ((c ^ d) << 17) == (c ^ (c << 17)) ^ (d ^ (d << 17))) by (bit_vector);
    if xorshift(x) == xorshift(y) {
        let (u, v) = (xorshift(x), xorshift(y));
        assert(u ^ v == 0) by (bit_vector)
            requires
                u == v,
        ;
        if x ^ y != 0 {
            law_generator_never_stalls(x ^ y);
        }
        assert(x == y) by (bit_vector)
            requires
                x ^ y == 0,
        ;
    }
}

/// The producers' seeds: that of the first, and for each one after it the same amount more.
pub proof fn law_seeds_are_multiples(args: BenchArgs, id: nat, source: Seq<u8>)
    requires
        (id + 2) * SEED <= u64::MAX,
    ensures
        producer_after(args, 0, source, 0).rng == 0xdeadbeef,
        producer_after(args, id + 1, source, 0).rng == producer_after(args, id, source, 0).rng
            + 0xdeadbeef,
{
    let k = SEED as int;
    assert((id + 2) * k == (id + 1) * k + k) by (nonlinear_arith);
    assert((id + 1) * k >= 0) by (nonlinear_arith)
        requires
            k >= 0,
    ;
}

/// The source counts up from zero, and starts again behind every 255 bytes.
pub proof fn law_source_repeats(i: int)
    requires
        0 <= i < 32768,
    ensures
        source_bytes().len() == 32768,
        i < 255 ==> source_bytes()[i] == i,
        i >= 255 ==> source_bytes()[i] == source_bytes()[i - 255],
{
}

} // verus!
