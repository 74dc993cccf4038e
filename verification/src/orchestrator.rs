//! The datagram benchmark as a whole: who takes part, and what it comes to.

use crate::address::SocketAddress;
use crate::histogram;
use crate::histogram::LatencyHistogram;
use crate::publisher::{PublisherConfig, PublisherResult};
use crate::subscriber::{SubscriberConfig, SubscriberResult, MAX_LATENCY_NS};
use vstd::multiset::Multiset;
use vstd::prelude::*;

verus! {

/// The port of the first subscriber.
pub const FIRST_PORT: u16 = 6000;

#[derive(Clone, Copy, Debug)]
pub struct BenchmarkConfig {
    pub num_publishers: u32,
    pub num_subscribers: u32,
    pub num_topics: u32,
    pub messages_per_topic: u64,
    pub server_addr: SocketAddress,
}

pub struct BenchmarkResult {
    pub publisher_results: Vec<PublisherResult>,
    pub subscriber_results: Vec<SubscriberResult>,
    pub merged_histogram: LatencyHistogram,
    pub total_messages_sent: u64,
    pub total_messages_received: u64,
    pub total_messages_lost: u64,
    pub total_nacks_sent: u64,
    pub total_retransmissions: u64,
    pub total_elapsed: std::time::Duration,
}

/// Why a benchmark cannot be run.
#[derive(Clone, Copy, Debug, PartialEq, Eq, Structural)]
pub enum ConfigError {
    /// There is no topic to take part in.
    NoTopics,
    /// There are not enough ports.
    TooManySubscribers,
}

/// Whether a publisher is the one of that number: it serves one topic, and the topics are dealt out
/// in turn.
pub open spec fn is_publisher(config: BenchmarkConfig, p: PublisherConfig, id: int) -> bool {
    &&& p.publisher_id == id
    &&& p.topics@ == seq![(id % config.num_topics as int) as u32]
    &&& p.server_addr == config.server_addr
    &&& p.messages_per_topic == config.messages_per_topic
}

/// Whether a subscriber is the one of that number: it listens to one topic, and topics and ports are
/// dealt out in turn.
pub open spec fn is_subscriber(config: BenchmarkConfig, s: SubscriberConfig, id: int) -> bool {
    &&& s.subscriber_id == id
    &&& s.topics@ == seq![(id % config.num_topics as int) as u32]
    &&& s.server_addr == config.server_addr
    &&& s.listen_port == FIRST_PORT + id
    &&& s.expected_messages_per_topic == config.messages_per_topic
}

/// The publishers of a benchmark.
pub fn publisher_configs(config: &BenchmarkConfig) -> (made: Result<
    Vec<PublisherConfig>,
    ConfigError,
>)
    ensures
        match made {
            Ok(configs) => {
                &&& config.num_topics > 0 || config.num_publishers == 0
                &&& configs@.len() == config.num_publishers
                &&& forall|i: int|
                    0 <= i < configs@.len() ==> is_publisher(*config, #[trigger] configs@[i], i)
            },
            Err(e) => {
                &&& e == ConfigError::NoTopics
                &&& config.num_topics == 0
                &&& config.num_publishers > 0
            },
        },
{
    if config.num_topics == 0 && config.num_publishers > 0 {
        return Err(ConfigError::NoTopics);
    }
    let mut configs: Vec<PublisherConfig> = Vec::new();
    let mut id: u32 = 0;
    while id < config.num_publishers
        invariant
            config.num_topics > 0 || config.num_publishers == 0,
            id <= config.num_publishers,
            configs@.len() == id,
            forall|i: int|
                0 <= i < configs@.len() ==> is_publisher(*config, #[trigger] configs@[i], i),
        decreases config.num_publishers - id,
    {
        let mut topics: Vec<u32> = Vec::new();
        topics.push(id % config.num_topics);
        assert(topics@ =~= seq![(id as int % config.num_topics as int) as u32]);
        configs.push(
            PublisherConfig {
                publisher_id: id,
                topics,
                server_addr: config.server_addr,
                messages_per_topic: config.messages_per_topic,
            },
        );
        id += 1;
    }
    Ok(configs)
}

/// The subscribers of a benchmark.
pub fn subscriber_configs(config: &BenchmarkConfig) -> (made: Result<
    Vec<SubscriberConfig>,
    ConfigError,
>)
    ensures
        match made {
            Ok(configs) => {
                &&& config.num_topics > 0 || config.num_subscribers == 0
                &&& FIRST_PORT + config.num_subscribers <= u16::MAX
                &&& configs@.len() == config.num_subscribers
                &&& forall|i: int|
                    0 <= i < configs@.len() ==> is_subscriber(*config, #[trigger] configs@[i], i)
            },
            Err(ConfigError::NoTopics) => config.num_topics == 0 && config.num_subscribers > 0,
            Err(ConfigError::TooManySubscribers) => config.num_topics > 0 && FIRST_PORT
                + config.num_subscribers > u16::MAX,
        },
{
    if config.num_topics == 0 && config.num_subscribers > 0 {
        return Err(ConfigError::NoTopics);
    }
    let mut configs: Vec<SubscriberConfig> = Vec::new();
    let mut port: u16 = FIRST_PORT;
    let mut id: u32 = 0;
    while id < config.num_subscribers
        invariant
            config.num_topics > 0 || config.num_subscribers == 0,
            id <= config.num_subscribers,
            configs@.len() == id,
            port == FIRST_PORT + id,
            forall|i: int|
                0 <= i < configs@.len() ==> is_subscriber(*config, #[trigger] configs@[i], i),
        decreases config.num_subscribers - id,
    {
        if port == u16::MAX {
            return Err(ConfigError::TooManySubscribers);
        }
        let mut topics: Vec<u32> = Vec::new();
        topics.push(id % config.num_topics);
        assert(topics@ =~= seq![(id as int % config.num_topics as int) as u32]);
        configs.push(
            SubscriberConfig {
                subscriber_id: id,
                topics,
                server_addr: config.server_addr,
                listen_port: port,
                expected_messages_per_topic: config.messages_per_topic,
            },
        );
        port += 1;
        id += 1;
    }
    Ok(configs)
}

/// The sum of some numbers.
pub open spec fn sum_of(numbers: Seq<u64>) -> int
    decreases numbers.len(),
{
    if numbers.len() == 0 {
        0
    } else {
        sum_of(numbers.drop_last()) + numbers.last()
    }
}

proof fn lemma_sum_grows(numbers: Seq<u64>, k: int)
    requires
        0 <= k <= numbers.len(),
    ensures
        0 <= sum_of(numbers.take(k)) <= sum_of(numbers),
    decreases numbers.len(),
{
    if k == numbers.len() {
        assert(numbers.take(k) =~= numbers);
        if k > 0 {
            lemma_sum_grows(numbers.drop_last(), k - 1);
        }
    } else {
        lemma_sum_grows(numbers.drop_last(), k);
        assert(numbers.drop_last().take(k) =~= numbers.take(k));
    }
}

/// A sum, where there is a number for it.
pub open spec fn total_of(numbers: Seq<u64>) -> Option<u64> {
    if sum_of(numbers) <= u64::MAX {
        Some(sum_of(numbers) as u64)
    } else {
        None
    }
}

/// Adds numbers up. `None` where there is no number for the sum.
fn add_up(numbers: &Vec<u64>) -> (total: Option<u64>)
    ensures
        total == total_of(numbers@),
{
    let mut total: u64 = 0;
    let mut i: usize = 0;
    while i < numbers.len()
        invariant
            i <= numbers@.len(),
            total == sum_of(numbers@.take(i as int)),
        decreases numbers@.len() - i,
    {
        proof {
            assert(numbers@.take(i + 1).drop_last() =~= numbers@.take(i as int));
            lemma_sum_grows(numbers@, i + 1);
        }
        total = match total.checked_add(numbers[i]) {
            Some(sum) => sum,
            None => return None,
        };
        i += 1;
    }
    assert(numbers@.take(i as int) =~= numbers@);
    Some(total)
}

/// What the publishers sent.
pub open spec fn sent_counts(results: Seq<PublisherResult>) -> Seq<u64> {
    results.map_values(|r: PublisherResult| r.total_sent)
}

/// The throughputs of the publishers.
pub open spec fn throughputs(results: Seq<PublisherResult>) -> Seq<u64> {
    results.map_values(|r: PublisherResult| r.throughput)
}

/// What the subscribers received.
pub open spec fn received_counts(results: Seq<SubscriberResult>) -> Seq<u64> {
    results.map_values(|r: SubscriberResult| r.total_received)
}

/// What the subscribers lost.
pub open spec fn lost_counts(results: Seq<SubscriberResult>) -> Seq<u64> {
    results.map_values(|r: SubscriberResult| r.messages_lost)
}

/// How often the subscribers asked for retransmission.
pub open spec fn nack_counts(results: Seq<SubscriberResult>) -> Seq<u64> {
    results.map_values(|r: SubscriberResult| r.total_nacks_sent)
}

/// How many packets sent again reached the subscribers.
pub open spec fn retransmission_counts(results: Seq<SubscriberResult>) -> Seq<u64> {
    results.map_values(|r: SubscriberResult| r.total_retransmissions)
}

/// What the publishers did together.
#[derive(Clone, Copy, Debug, PartialEq, Eq, Structural)]
pub struct PublisherTotals {
    pub sent: u64,
    pub throughput: u64,
}

/// What the subscribers did together.
#[derive(Clone, Copy, Debug, PartialEq, Eq, Structural)]
pub struct SubscriberTotals {
    pub received: u64,
    pub lost: u64,
    pub nacks: u64,
    pub retransmissions: u64,
}

impl SubscriberTotals {
    /// Whether nothing was lost.
    pub fn is_lossless(&self) -> (lossless: bool)
        ensures
            lossless == (self.lost == 0),
    {
        self.lost == 0
    }
}

/// Adds up how many messages the publishers sent. `None` where there is no number for it.
pub fn total_sent(results: &Vec<PublisherResult>) -> (total: Option<u64>)
    ensures
        total == total_of(sent_counts(results@)),
{
    let mut numbers: Vec<u64> = Vec::new();
    let mut i: usize = 0;
    while i < results.len()
        invariant
            i <= results@.len(),
            numbers@ =~= sent_counts(results@).take(i as int),
        decreases results@.len() - i,
    {
        numbers.push(results[i].total_sent);
        i += 1;
    }
    assert(numbers@ =~= sent_counts(results@));
    add_up(&numbers)
}

/// Adds up what the publishers did. `None` where there is no number for a total.
pub fn publisher_totals(results: &Vec<PublisherResult>) -> (totals: Option<PublisherTotals>)
    ensures
        totals == match (total_of(sent_counts(results@)), total_of(throughputs(results@))) {
            (Some(sent), Some(throughput)) => Some(PublisherTotals { sent, throughput }),
            _ => None,
        },
{
    let mut numbers: Vec<u64> = Vec::new();
    let mut i: usize = 0;
    while i < results.len()
        invariant
            i <= results@.len(),
            numbers@ =~= throughputs(results@).take(i as int),
        decreases results@.len() - i,
    {
        numbers.push(results[i].throughput);
        i += 1;
    }
    assert(numbers@ =~= throughputs(results@));
    match (total_sent(results), add_up(&numbers)) {
        (Some(sent), Some(throughput)) => Some(PublisherTotals { sent, throughput }),
        _ => None,
    }
}

/// What the subscribers did together, where there are numbers for it.
pub open spec fn subscriber_sums(results: Seq<SubscriberResult>) -> Option<SubscriberTotals> {
    match (
        total_of(received_counts(results)),
        total_of(lost_counts(results)),
        total_of(nack_counts(results)),
        total_of(retransmission_counts(results)),
    ) {
        (Some(received), Some(lost), Some(nacks), Some(retransmissions)) => Some(
            SubscriberTotals { received, lost, nacks, retransmissions },
        ),
        _ => None,
    }
}

/// Adds up what the subscribers did. `None` where there is no number for a total.
pub fn subscriber_totals(results: &Vec<SubscriberResult>) -> (totals: Option<SubscriberTotals>)
    ensures
        totals == subscriber_sums(results@),
{
    let mut received: Vec<u64> = Vec::new();
    let mut lost: Vec<u64> = Vec::new();
    let mut nacks: Vec<u64> = Vec::new();
    let mut retransmissions: Vec<u64> = Vec::new();
    let mut i: usize = 0;
    while i < results.len()
        invariant
            i <= results@.len(),
            received@ =~= received_counts(results@).take(i as int),
            lost@ =~= lost_counts(results@).take(i as int),
            nacks@ =~= nack_counts(results@).take(i as int),
            retransmissions@ =~= retransmission_counts(results@).take(i as int),
        decreases results@.len() - i,
    {
        received.push(results[i].total_received);
        lost.push(results[i].messages_lost);
        nacks.push(results[i].total_nacks_sent);
        retransmissions.push(results[i].total_retransmissions);
        i += 1;
    }
    assert(received@ =~= received_counts(results@));
    assert(lost@ =~= lost_counts(results@));
    assert(nacks@ =~= nack_counts(results@));
    assert(retransmissions@ =~= retransmission_counts(results@));
    match (add_up(&received), add_up(&lost), add_up(&nacks), add_up(&retransmissions)) {
        (Some(received), Some(lost), Some(nacks), Some(retransmissions)) => Some(
            SubscriberTotals { received, lost, nacks, retransmissions },
        ),
        _ => None,
    }
}

/// Whether a subscriber's latencies can be counted with those of the others: one of them may be too
/// large.
pub open spec fn is_taken(result: SubscriberResult) -> bool {
    histogram::takes_all(MAX_LATENCY_NS, result.latency_histogram)
}

/// All latencies of the first `n` subscribers, but for those of whom they cannot be counted.
pub open spec fn latencies_of(results: Seq<SubscriberResult>, n: nat) -> Multiset<u64>
    decreases n,
{
    if n == 0 {
        Multiset::empty()
    } else if is_taken(results[n - 1]) {
        latencies_of(results, (n - 1) as nat).add(
            histogram::latency_contents(results[n - 1].latency_histogram),
        )
    } else {
        latencies_of(results, (n - 1) as nat)
    }
}

/// Whether a histogram holds the latencies of the first `n` subscribers, with counters that stay full
/// once they are.
pub open spec fn holds_latencies(
    merged: LatencyHistogram,
    results: Seq<SubscriberResult>,
    n: nat,
) -> bool {
    forall|v: u64| #[trigger]
        histogram::latency_contents(merged).count(v) == if latencies_of(results, n).count(v)
            <= u64::MAX {
            latencies_of(results, n).count(v)
        } else {
            u64::MAX as nat
        }
}

/// Puts the latencies of all subscribers into one histogram.
pub fn merge_latencies(results: &Vec<SubscriberResult>) -> (merged: LatencyHistogram)
    ensures
        histogram::latency_high(merged) == MAX_LATENCY_NS,
        holds_latencies(merged, results@, results@.len()),
{
    let mut merged = LatencyHistogram::with_limit(MAX_LATENCY_NS);
    let mut i: usize = 0;
    while i < results.len()
        invariant
            i <= results@.len(),
            histogram::latency_high(merged) == MAX_LATENCY_NS,
            holds_latencies(merged, results@, i as nat),
        decreases results@.len() - i,
    {
        let _ = merged.merge(&results[i].latency_histogram);
        i += 1;
    }
    merged
}

/// Puts the results of all who took part together. `None` where there is no number for a total.
pub fn summarize(
    publisher_results: Vec<PublisherResult>,
    subscriber_results: Vec<SubscriberResult>,
    total_elapsed: std::time::Duration,
) -> (result: Option<BenchmarkResult>)
    ensures
        match result {
            Some(r) => {
                &&& r.publisher_results == publisher_results
                &&& r.subscriber_results == subscriber_results
                &&& r.total_elapsed == total_elapsed
                &&& total_of(sent_counts(publisher_results@)) == Some(r.total_messages_sent)
                &&& subscriber_sums(subscriber_results@) == Some(
                    SubscriberTotals {
                        received: r.total_messages_received,
                        lost: r.total_messages_lost,
                        nacks: r.total_nacks_sent,
                        retransmissions: r.total_retransmissions,
                    },
                )
                &&& histogram::latency_high(r.merged_histogram) == MAX_LATENCY_NS
                &&& holds_latencies(
                    r.merged_histogram,
                    subscriber_results@,
                    subscriber_results@.len(),
                )
            },
            None => total_of(sent_counts(publisher_results@)) is None || subscriber_sums(
                subscriber_results@,
            ) is None,
        },
{
    let merged_histogram = merge_latencies(&subscriber_results);
    match (total_sent(&publisher_results), subscriber_totals(&subscriber_results)) {
        (Some(sent), Some(totals)) => Some(
            BenchmarkResult {
                publisher_results,
                subscriber_results,
                merged_histogram,
                total_messages_sent: sent,
                total_messages_received: totals.received,
                total_messages_lost: totals.lost,
                total_nacks_sent: totals.nacks,
                total_retransmissions: totals.retransmissions,
                total_elapsed,
            },
        ),
        _ => None,
    }
}

/// Every subscriber has a port of its own.
pub proof fn law_ports_differ(
    config: BenchmarkConfig,
    a: SubscriberConfig,
    b: SubscriberConfig,
    i: int,
    j: int,
)
    requires
        is_subscriber(config, a, i),
        is_subscriber(config, b, j),
        i != j,
    ensures
        a.listen_port != b.listen_port,
{
}

/// The subscriber of a number listens to the topic that the publisher of that number serves, and
/// expects as many messages as that publisher sends.
pub proof fn law_subscribers_match_publishers(
    config: BenchmarkConfig,
    p: PublisherConfig,
    s: SubscriberConfig,
    id: int,
)
    requires
        is_publisher(config, p, id),
        is_subscriber(config, s, id),
    ensures
        s.topics@ == p.topics@,
        s.total() == p.total(),
{
}

/// Topics are dealt out round: the first publisher serves the first topic alone, each one after it
/// the next topic, and behind the last topic comes the first. All send to the server, the number of
/// messages that was asked for.
pub proof fn law_publishers_go_round(
    config: BenchmarkConfig,
    p: PublisherConfig,
    next: PublisherConfig,
    id: int,
)
    requires
        config.num_topics > 0,
        0 <= id,
        is_publisher(config, p, id),
        is_publisher(config, next, id + 1),
    ensures
        p.topics@.len() == 1,
        next.topics@.len() == 1,
        p.topics@[0] < config.num_topics,
        id == 0 ==> p.topics@[0] == 0,
        next.topics@[0] == if p.topics@[0] + 1 == config.num_topics {
            0
        } else {
            p.topics@[0] + 1
        },
        p.publisher_id == id,
        p.messages_per_topic == config.messages_per_topic,
        p.server_addr == config.server_addr,
        p.total() == config.messages_per_topic,
{
    crate::bench::lemma_goes_round(id, config.num_topics as int);
    vstd::arithmetic::div_mod::lemma_small_mod(0, config.num_topics as nat);
}

/// The same of the subscribers; their ports follow each other from 6000 on.
pub proof fn law_subscribers_go_round(
    config: BenchmarkConfig,
    s: SubscriberConfig,
    next: SubscriberConfig,
    id: int,
)
    requires
        config.num_topics > 0,
        0 <= id,
        is_subscriber(config, s, id),
        is_subscriber(config, next, id + 1),
    ensures
        s.topics@.len() == 1,
        next.topics@.len() == 1,
        s.topics@[0] < config.num_topics,
        id == 0 ==> s.topics@[0] == 0 && s.listen_port == 6000,
        next.topics@[0] == if s.topics@[0] + 1 == config.num_topics {
            0
        } else {
            s.topics@[0] + 1
        },
        next.listen_port == s.listen_port + 1,
        s.subscriber_id == id,
        s.expected_messages_per_topic == config.messages_per_topic,
        s.server_addr == config.server_addr,
        s.total() == config.messages_per_topic,
{
    crate::bench::lemma_goes_round(id, config.num_topics as int);
    vstd::arithmetic::div_mod::lemma_small_mod(0, config.num_topics as nat);
}

/// One number more adds itself to a sum, and no numbers have the sum zero. A total is the sum as long
/// as 64 bits hold it.
pub proof fn law_sums_grow_by_their_numbers(numbers: Seq<u64>, n: u64)
    ensures
        sum_of(Seq::<u64>::empty()) == 0,
        sum_of(numbers.push(n)) == sum_of(numbers) + n,
        sum_of(numbers) <= 0xffff_ffff_ffff_ffff ==> total_of(numbers) == Some(
            sum_of(numbers) as u64,
        ),
        sum_of(numbers) > 0xffff_ffff_ffff_ffff ==> total_of(numbers) is None,
        sum_of(numbers) >= 0,
{
    assert(numbers.push(n).drop_last() =~= numbers);
    lemma_sum_grows(numbers, 0);
}

/// One publisher more adds what it did to the totals, as long as 64 bits hold them.
pub proof fn law_publishers_add_up(results: Seq<PublisherResult>, r: PublisherResult)
    ensures
        sum_of(sent_counts(results.push(r))) == sum_of(sent_counts(results)) + r.total_sent,
        sum_of(throughputs(results.push(r))) == sum_of(throughputs(results)) + r.throughput,
        sum_of(sent_counts(Seq::<PublisherResult>::empty())) == 0,
        sum_of(throughputs(Seq::<PublisherResult>::empty())) == 0,
{
    assert(sent_counts(results.push(r)) =~= sent_counts(results).push(r.total_sent));
    assert(throughputs(results.push(r)) =~= throughputs(results).push(r.throughput));
    law_sums_grow_by_their_numbers(sent_counts(results), r.total_sent);
    law_sums_grow_by_their_numbers(throughputs(results), r.throughput);
    assert(sent_counts(Seq::<PublisherResult>::empty()) =~= Seq::<u64>::empty());
    assert(throughputs(Seq::<PublisherResult>::empty()) =~= Seq::<u64>::empty());
}

/// One subscriber more adds what it did to the totals, each count to its own, as long as 64 bits hold
/// them.
pub proof fn law_subscribers_add_up(results: Seq<SubscriberResult>, r: SubscriberResult)
    ensures
        subscriber_sums(Seq::<SubscriberResult>::empty()) == Some(
            SubscriberTotals { received: 0, lost: 0, nacks: 0, retransmissions: 0 },
        ),
        match (subscriber_sums(results), subscriber_sums(results.push(r))) {
            (Some(t), Some(u)) => {
                &&& u.received == t.received + r.total_received
                &&& u.lost == t.lost + r.messages_lost
                &&& u.nacks == t.nacks + r.total_nacks_sent
                &&& u.retransmissions == t.retransmissions + r.total_retransmissions
            },
            (Some(t), None) => {
                ||| t.received + r.total_received > 0xffff_ffff_ffff_ffff
                ||| t.lost + r.messages_lost > 0xffff_ffff_ffff_ffff
                ||| t.nacks + r.total_nacks_sent > 0xffff_ffff_ffff_ffff
                ||| t.retransmissions + r.total_retransmissions > 0xffff_ffff_ffff_ffff
            },
            (None, Some(_)) => false,
            (None, None) => true,
        },
{
    let more = results.push(r);
    assert(received_counts(more) =~= received_counts(results).push(r.total_received));
    assert(lost_counts(more) =~= lost_counts(results).push(r.messages_lost));
    assert(nack_counts(more) =~= nack_counts(results).push(r.total_nacks_sent));
    assert(retransmission_counts(more) =~= retransmission_counts(results).push(
        r.total_retransmissions,
    ));
    law_sums_grow_by_their_numbers(received_counts(results), r.total_received);
    law_sums_grow_by_their_numbers(lost_counts(results), r.messages_lost);
    law_sums_grow_by_their_numbers(nack_counts(results), r.total_nacks_sent);
    law_sums_grow_by_their_numbers(retransmission_counts(results), r.total_retransmissions);
    let none = Seq::<SubscriberResult>::empty();
    assert(received_counts(none) =~= Seq::<u64>::empty());
    assert(lost_counts(none) =~= Seq::<u64>::empty());
    assert(nack_counts(none) =~= Seq::<u64>::empty());
    assert(retransmission_counts(none) =~= Seq::<u64>::empty());
}

/// The latencies of one subscriber more come to those of the others, all of them. A subscriber's own
/// histogram, made for up to a minute, is always taken.
pub proof fn law_latencies_come_together(results: Seq<SubscriberResult>, r: SubscriberResult)
    requires
        histogram::latency_high(r.latency_histogram) == 60_000_000_000,
    ensures
        latencies_of(results.push(r), results.len() + 1) == latencies_of(
            results,
            results.len(),
        ).add(histogram::latency_contents(r.latency_histogram)),
        latencies_of(results, 0) == Multiset::<u64>::empty(),
{
    lemma_latencies_of_front(results, r, results.len());
}

proof fn lemma_latencies_of_front(results: Seq<SubscriberResult>, r: SubscriberResult, n: nat)
    requires
        n <= results.len(),
    ensures
        latencies_of(results.push(r), n) == latencies_of(results, n),
    decreases n,
{
    if n > 0 {
        lemma_latencies_of_front(results, r, (n - 1) as nat);
    }
}

/// A histogram that holds the latencies of subscribers has of every value as many as they have
/// together, as far as a counter goes, and no other values.
pub proof fn law_merged_latencies_are_complete(
    merged: LatencyHistogram,
    results: Seq<SubscriberResult>,
    n: nat,
    value: u64,
)
    requires
        holds_latencies(merged, results, n),
    ensures
        latencies_of(results, n).count(value) <= 0xffff_ffff_ffff_ffff
            ==> histogram::latency_contents(merged).count(value) == latencies_of(results, n).count(
            value,
        ),
        latencies_of(results, n).count(value) > 0xffff_ffff_ffff_ffff
            ==> histogram::latency_contents(merged).count(value) == 0xffff_ffff_ffff_ffff,
{
}

} // verus!
