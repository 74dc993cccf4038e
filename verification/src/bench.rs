//! The plan of a load test: who sends to which topic, who listens to which, and how many messages
//! each listener is to receive.
//!
//! Half of the connections (rounded down) are producers, the others consumers. Consumer `c` listens
//! to topic `c % topics`. Producer `p` sends in turn to `topics_per_producer` topics, from topic `p`
//! on, counted round.

use crate::decimal;
use crate::decimal::format_decimal;
use vstd::prelude::*;

verus! {

/// What a load test is asked to do.
#[derive(Clone, Copy, Debug)]
pub struct BenchArgs {
    pub connections: usize,
    pub messages_per_conn: usize,
    pub payload_size: usize,
    pub variable_payload: bool,
    pub topics: usize,
    pub topics_per_producer: usize,
}

/// Why a load test cannot be run.
#[derive(Clone, Copy, Debug, PartialEq, Eq, Structural)]
pub enum ArgsError {
    /// There must be a producer and a consumer.
    TooFewConnections,
    /// There must be a topic.
    NoTopics,
    /// A producer must have a topic, and no topic twice.
    TopicsPerProducer,
}

/// The sum of `f` over the numbers below `n`.
pub open spec fn sum_below(n: nat, f: spec_fn(int) -> int) -> int
    decreases n,
{
    if n == 0 {
        0
    } else {
        sum_below((n - 1) as nat, f) + f(n - 1)
    }
}

/// How many numbers below `n` have a property.
pub open spec fn count_below(n: nat, p: spec_fn(int) -> bool) -> int {
    sum_below(
        n,
        |i: int|
            if p(i) {
                1
            } else {
                0
            },
    )
}

impl BenchArgs {
    /// How many connections produce.
    pub open spec fn producer_count(self) -> nat {
        (self.connections / 2) as nat
    }

    /// How many connections consume.
    pub open spec fn consumer_count(self) -> nat {
        (self.connections - self.connections / 2) as nat
    }

    /// How many messages of a producer each of its topics is to get.
    pub open spec fn share(self) -> int {
        self.messages_per_conn as int / self.topics_per_producer as int
    }

    /// The `i`-th topic of producer `p`.
    pub open spec fn producer_topic(self, p: int, i: int) -> int {
        (p + i) % (self.topics as int)
    }

    /// The topic of consumer `c`.
    pub open spec fn consumer_topic(self, c: int) -> int {
        c % (self.topics as int)
    }

    /// How many consumers listen to a topic.
    pub open spec fn listeners(self, topic: int) -> int {
        count_below(self.consumer_count(), |c: int| self.consumer_topic(c) == topic)
    }

    /// Whether producer `p` sends to a topic.
    pub open spec fn sends_to(self, p: int, topic: int) -> bool {
        exists|i: int|
            0 <= i < self.topics_per_producer && #[trigger] self.producer_topic(p, i) == topic
    }

    /// How many producers send to a topic.
    pub open spec fn senders(self, topic: int) -> int {
        count_below(self.producer_count(), |p: int| self.sends_to(p, topic))
    }

    /// How many messages consumer `c` is to receive.
    pub open spec fn owed_to(self, c: int) -> int {
        self.share() * self.senders(self.consumer_topic(c))
    }

    /// How many times a message of producer `p` is to be delivered over its first `n` topics.
    pub open spec fn owed_by(self, p: int, n: nat) -> int {
        sum_below(n, |i: int| self.share() * self.listeners(self.producer_topic(p, i)))
    }

    /// How many deliveries there are to be.
    pub open spec fn deliveries(self) -> int {
        sum_below(
            self.producer_count(),
            |p: int| self.owed_by(p, self.topics_per_producer as nat),
        )
    }

    /// Why this cannot be run, if it cannot.
    pub open spec fn defect(self) -> Option<ArgsError> {
        if self.connections < 2 {
            Some(ArgsError::TooFewConnections)
        } else if self.topics < 1 {
            Some(ArgsError::NoTopics)
        } else if self.topics_per_producer < 1 || self.topics_per_producer > self.topics {
            Some(ArgsError::TopicsPerProducer)
        } else {
            None
        }
    }

    /// Checks that this can be run.
    pub fn check(&self) -> (checked: Result<(), ArgsError>)
        ensures
            match self.defect() {
                Some(e) => checked == Err::<(), ArgsError>(e),
                None => checked == Ok::<(), ArgsError>(()),
            },
    {
        if self.connections < 2 {
            return Err(ArgsError::TooFewConnections);
        }
        if self.topics < 1 {
            return Err(ArgsError::NoTopics);
        }
        if self.topics_per_producer < 1 || self.topics_per_producer > self.topics {
            return Err(ArgsError::TopicsPerProducer);
        }
        Ok(())
    }

    /// Whether the messages of a producer cannot be shared out evenly among its topics.
    pub fn is_uneven(&self) -> (uneven: bool)
        requires
            self.topics_per_producer > 0,
        ensures
            uneven == (self.messages_per_conn as int % self.topics_per_producer as int != 0),
    {
        self.messages_per_conn % self.topics_per_producer != 0
    }

    /// How many connections produce.
    pub fn num_producers(&self) -> (n: usize)
        ensures
            n == self.producer_count(),
    {
        self.connections / 2
    }

    /// How many connections consume.
    pub fn num_consumers(&self) -> (n: usize)
        ensures
            n == self.consumer_count(),
    {
        self.connections - self.connections / 2
    }

    /// The `i`-th topic of producer `p`.
    fn topic_of_producer(&self, p: usize, i: usize) -> (topic: usize)
        requires
            i < self.topics,
        ensures
            topic == self.producer_topic(p as int, i as int),
            topic < self.topics,
    {
        let first: usize = p % self.topics;
        proof {
            let (a, n) = (p as int % self.topics as int, self.topics as int);
            vstd::arithmetic::div_mod::lemma_add_mod_noop(p as int, i as int, n);
            vstd::arithmetic::div_mod::lemma_small_mod(i as nat, n as nat);
            if a + i < n {
                vstd::arithmetic::div_mod::lemma_small_mod((a + i) as nat, n as nat);
            } else {
                vstd::arithmetic::div_mod::lemma_mod_sub_multiples_vanish(a + i, n);
                vstd::arithmetic::div_mod::lemma_small_mod((a + i - n) as nat, n as nat);
            }
        }
        if i < self.topics - first {
            first + i
        } else {
            i - (self.topics - first)
        }
    }

    /// How many consumers listen to a topic.
    fn count_listeners(&self, topic: usize) -> (n: usize)
        requires
            self.topics > 0,
        ensures
            n == self.listeners(topic as int),
    {
        let consumers: usize = self.num_consumers();
        let mut n: usize = 0;
        let mut c: usize = 0;
        while c < consumers
            invariant
                self.topics > 0,
                c <= consumers,
                n <= c,
                n == count_below(c as nat, |c: int| self.consumer_topic(c) == topic as int),
            decreases consumers - c,
        {
            if c % self.topics == topic {
                n += 1;
            }
            c += 1;
        }
        n
    }

    /// Whether producer `p` sends to a topic.
    fn check_sends_to(&self, p: usize, topic: usize) -> (yes: bool)
        requires
            self.defect() is None,
        ensures
            yes == self.sends_to(p as int, topic as int),
    {
        let mut i: usize = 0;
        while i < self.topics_per_producer
            invariant
                self.defect() is None,
                i <= self.topics_per_producer,
                forall|j: int| 0 <= j < i ==> #[trigger] self.producer_topic(p as int, j) != topic,
            decreases self.topics_per_producer - i,
        {
            if self.topic_of_producer(p, i) == topic {
                return true;
            }
            i += 1;
        }
        false
    }

    /// How many messages consumer `c` is to receive. `None` where there is no number for it.
    pub fn expected_for_consumer(&self, c: usize) -> (expected: Option<u64>)
        requires
            self.defect() is None,
        ensures
            expected == if self.owed_to(c as int) <= u64::MAX {
                Some(self.owed_to(c as int) as u64)
            } else {
                None::<u64>
            },
    {
        let producers: usize = self.num_producers();
        let topic: usize = c % self.topics;
        let mut n: usize = 0;
        let mut p: usize = 0;
        while p < producers
            invariant
                self.defect() is None,
                producers == self.producer_count(),
                p <= producers,
                n <= p,
                n == count_below(p as nat, |p: int| self.sends_to(p, topic as int)),
            decreases producers - p,
        {
            if self.check_sends_to(p, topic) {
                n += 1;
            }
            p += 1;
        }
        let share: u64 = (self.messages_per_conn / self.topics_per_producer) as u64;
        proof {
            assert(self.owed_to(c as int) == share * n);
            assert(share * n >= 0) by (nonlinear_arith);
        }
        share.checked_mul(n as u64)
    }

    /// How many deliveries there are to be. `None` where there is no number for it.
    pub fn total_expected_deliveries(&self) -> (total: Option<u64>)
        requires
            self.defect() is None,
        ensures
            total == if self.deliveries() <= u64::MAX {
                Some(self.deliveries() as u64)
            } else {
                None::<u64>
            },
    {
        let producers: usize = self.num_producers();
        let share: u64 = (self.messages_per_conn / self.topics_per_producer) as u64;
        let ghost of = |p: int| self.owed_by(p, self.topics_per_producer as nat);
        let mut total: u64 = 0;
        let mut p: usize = 0;
        while p < producers
            invariant
                self.defect() is None,
                producers == self.producer_count(),
                share == self.share(),
                of == (|p: int| self.owed_by(p, self.topics_per_producer as nat)),
                p <= producers,
                total == sum_below(p as nat, of),
            decreases producers - p,
        {
            let ghost before = total as int;
            let ghost slot = |i: int| self.share() * self.listeners(
                self.producer_topic(p as int, i),
            );
            let mut i: usize = 0;
            while i < self.topics_per_producer
                invariant
                    self.defect() is None,
                    producers == self.producer_count(),
                    share == self.share(),
                    of == (|p: int| self.owed_by(p, self.topics_per_producer as nat)),
                    slot == (|i: int| self.share() * self.listeners(
                        self.producer_topic(p as int, i),
                    )),
                    p < producers,
                    before == sum_below(p as nat, of),
                    i <= self.topics_per_producer,
                    total == before + sum_below(i as nat, slot),
                decreases self.topics_per_producer - i,
            {
                let topic: usize = self.topic_of_producer(p, i);
                let listeners: usize = self.count_listeners(topic);
                proof {
                    assert(slot(i as int) == share * listeners);
                    self.lemma_owed_is_not_negative();
                    assert(total + share * listeners == before + sum_below((i + 1) as nat, slot));
                    lemma_sum_grows((i + 1) as nat, self.topics_per_producer as nat, slot);
                    lemma_sum_grows((p + 1) as nat, producers as nat, of);
                    assert(of(p as int) == sum_below(self.topics_per_producer as nat, slot));
                    assert(total + share * listeners <= self.deliveries());
                    assert(share * listeners >= 0) by (nonlinear_arith);
                }
                let due: u64 = match share.checked_mul(listeners as u64) {
                    Some(due) => due,
                    None => return None,
                };
                total = match total.checked_add(due) {
                    Some(sum) => sum,
                    None => return None,
                };
                i += 1;
            }
            p += 1;
        }
        Some(total)
    }

    /// No sum of the plan has a negative term.
    proof fn lemma_owed_is_not_negative(self)
        requires
            self.defect() is None,
        ensures
            self.share() >= 0,
            forall|topic: int| #[trigger] self.listeners(topic) >= 0,
            forall|p: int, i: int|
                self.share() * self.listeners(#[trigger] self.producer_topic(p, i)) >= 0,
            forall|p: int, n: nat| #[trigger] self.owed_by(p, n) >= 0,
    {
        assert(self.share() >= 0) by {
            vstd::arithmetic::div_mod::lemma_div_pos_is_pos(
                self.messages_per_conn as int,
                self.topics_per_producer as int,
            );
        }
        assert forall|topic: int| #[trigger] self.listeners(topic) >= 0 by {
            lemma_count_is_not_negative(
                self.consumer_count(),
                |c: int| self.consumer_topic(c) == topic,
            );
        }
        assert forall|p: int, i: int|
            self.share() * self.listeners(#[trigger] self.producer_topic(p, i)) >= 0 by {
            let (a, b) = (self.share(), self.listeners(self.producer_topic(p, i)));
            assert(a * b >= 0) by (nonlinear_arith)
                requires
                    a >= 0,
                    b >= 0,
            ;
        }
        assert forall|p: int, n: nat| #[trigger] self.owed_by(p, n) >= 0 by {
            let slot = |i: int| self.share() * self.listeners(self.producer_topic(p, i));
            assert forall|i: int| 0 <= i < n implies #[trigger] slot(i) >= 0 by {
                assert(self.share() * self.listeners(self.producer_topic(p, i)) >= 0);
            }
            lemma_sum_grows(0, n, slot);
        }
    }
}

proof fn lemma_sum_grows(m: nat, n: nat, f: spec_fn(int) -> int)
    requires
        m <= n,
        forall|i: int| 0 <= i < n ==> #[trigger] f(i) >= 0,
    ensures
        sum_below(m, f) <= sum_below(n, f),
    decreases n,
{
    if m < n {
        lemma_sum_grows(m, (n - 1) as nat, f);
    }
}

proof fn lemma_count_is_not_negative(n: nat, p: spec_fn(int) -> bool)
    ensures
        count_below(n, p) >= 0,
{
    let f = |i: int|
        if p(i) {
            1
        } else {
            0int
        };
    lemma_sum_grows(0, n, f);
}

/// Terms that agree have the same sum.
pub proof fn lemma_sum_same(n: nat, f: spec_fn(int) -> int, g: spec_fn(int) -> int)
    requires
        forall|i: int| 0 <= i < n ==> #[trigger] f(i) == #[trigger] g(i),
    ensures
        sum_below(n, f) == sum_below(n, g),
    decreases n,
{
    if n > 0 {
        lemma_sum_same((n - 1) as nat, f, g);
    }
}

/// A factor of all terms is one of the sum.
pub proof fn lemma_sum_scaled(n: nat, k: int, f: spec_fn(int) -> int)
    ensures
        sum_below(n, |i: int| k * f(i)) == k * sum_below(n, f),
    decreases n,
{
    if n > 0 {
        lemma_sum_scaled((n - 1) as nat, k, f);
        let (a, b) = (sum_below((n - 1) as nat, f), f(n - 1));
        assert(k * (a + b) == k * a + k * b) by (nonlinear_arith);
    } else {
        assert(k * 0 == 0) by (nonlinear_arith);
    }
}

proof fn lemma_sum_of_sums(n: nat, f: spec_fn(int) -> int, g: spec_fn(int) -> int)
    ensures
        sum_below(n, |i: int| f(i) + g(i)) == sum_below(n, f) + sum_below(n, g),
    decreases n,
{
    if n > 0 {
        lemma_sum_of_sums((n - 1) as nat, f, g);
    }
}

/// The order in which a table is summed up does not matter.
proof fn lemma_sums_swap(m: nat, n: nat, f: spec_fn(int, int) -> int)
    ensures
        sum_below(m, |i: int| sum_below(n, |j: int| f(i, j))) == sum_below(
            n,
            |j: int| sum_below(m, |i: int| f(i, j)),
        ),
    decreases m,
{
    let rows = |i: int| sum_below(n, |j: int| f(i, j));
    if m == 0 {
        lemma_sum_scaled(n, 0, |j: int| 0int);
        lemma_sum_same(n, |j: int| 0 * (|j: int| 0int)(j), |j: int| sum_below(m, |i: int| f(i, j)));
        assert(0 * sum_below(n, |j: int| 0int) == 0) by (nonlinear_arith);
    } else {
        let last = (m - 1) as nat;
        lemma_sums_swap(last, n, f);
        let above = |j: int| sum_below(last, |i: int| f(i, j));
        let bottom = |j: int| f(last as int, j);
        lemma_sum_of_sums(n, above, bottom);
        lemma_sum_same(
            n,
            |j: int| above(j) + bottom(j),
            |j: int| sum_below(m, |i: int| f(i, j)),
        );
        assert(rows(last as int) == sum_below(n, |j: int| f(last as int, j)));
        assert(sum_below(m, rows) == sum_below(last, rows) + rows(m - 1));
    }
}

/// A producer's topics are different ones, so it sends to a topic from one place at most.
proof fn lemma_one_place(args: BenchArgs, p: int, topic: int, n: nat)
    requires
        args.defect() is None,
        n <= args.topics_per_producer,
        0 <= p,
    ensures
        count_below(n, |i: int| args.producer_topic(p, i) == topic) == if exists|i: int|
            0 <= i < n && #[trigger] args.producer_topic(p, i) == topic {
            1int
        } else {
            0int
        },
    decreases n,
{
    if n > 0 {
        let last = n - 1;
        lemma_one_place(args, p, topic, last as nat);
        if args.producer_topic(p, last) == topic {
            assert forall|i: int| 0 <= i < last implies #[trigger] args.producer_topic(p, i)
                != topic by {
                crate::arith::lemma_remainders_distinct(p, i, last, args.topics as int);
            }
        } else if exists|i: int| 0 <= i < n && #[trigger] args.producer_topic(p, i) == topic {
            let i = choose|i: int| 0 <= i < n && #[trigger] args.producer_topic(p, i) == topic;
            assert(0 <= i < last && args.producer_topic(p, i) == topic);
        }
    }
}

/// What is asked of the consumers together is what the producers bring about: the messages that the
/// consumers are to receive add up to the expected deliveries.
pub proof fn law_expectations_add_up(args: BenchArgs)
    requires
        args.defect() is None,
    ensures
        sum_below(args.consumer_count(), |c: int| args.owed_to(c)) == args.deliveries(),
{
    let producers = args.producer_count();
    let consumers = args.consumer_count();
    let places = args.topics_per_producer as nat;
    let share = args.share();
    let hit = |p: int, c: int|
        if args.sends_to(p, args.consumer_topic(c)) {
            1int
        } else {
            0int
        };
    // By consumers.
    let by_consumer = |c: int| sum_below(producers, |p: int| hit(p, c));
    assert forall|c: int| #[trigger] by_consumer(c) == args.senders(args.consumer_topic(c)) by {
        lemma_sum_same(
            producers,
            |p: int| hit(p, c),
            |p: int|
                if (|p: int| args.sends_to(p, args.consumer_topic(c)))(p) {
                    1
                } else {
                    0
                },
        );
    }
    lemma_sum_scaled(consumers, share, by_consumer);
    lemma_sum_same(consumers, |c: int| args.owed_to(c), |c: int| share * by_consumer(c));
    // By producers.
    let by_producer = |p: int| sum_below(consumers, |c: int| hit(p, c));
    lemma_sums_swap(producers, consumers, hit);
    assert(sum_below(producers, by_producer) == sum_below(consumers, by_consumer));
    lemma_sum_scaled(producers, share, by_producer);
    assert forall|p: int| 0 <= p < producers implies #[trigger] args.owed_by(p, places) == share
        * by_producer(p) by {
        lemma_owed_by(args, p);
        lemma_sum_same(
            consumers,
            |c: int| hit(p, c),
            |c: int|
                if (|c: int| args.sends_to(p, args.consumer_topic(c)))(c) {
                    1
                } else {
                    0
                },
        );
    }
    lemma_sum_same(
        producers,
        |p: int| args.owed_by(p, places),
        |p: int| share * by_producer(p),
    );
}

/// What a producer brings about: its share for every consumer whose topic it sends to.
proof fn lemma_owed_by(args: BenchArgs, p: int)
    requires
        args.defect() is None,
        0 <= p,
    ensures
        args.owed_by(p, args.topics_per_producer as nat) == args.share() * count_below(
            args.consumer_count(),
            |c: int| args.sends_to(p, args.consumer_topic(c)),
        ),
{
    let consumers = args.consumer_count();
    let places = args.topics_per_producer as nat;
    let meets = |i: int, c: int|
        if args.consumer_topic(c) == args.producer_topic(p, i) {
            1int
        } else {
            0int
        };
    let by_place = |i: int| sum_below(consumers, |c: int| meets(i, c));
    assert forall|i: int| #[trigger] by_place(i) == args.listeners(args.producer_topic(p, i)) by {
        lemma_sum_same(
            consumers,
            |c: int| meets(i, c),
            |c: int|
                if (|c: int| args.consumer_topic(c) == args.producer_topic(p, i))(c) {
                    1
                } else {
                    0
                },
        );
    }
    lemma_sum_scaled(places, args.share(), by_place);
    lemma_sum_same(
        places,
        |i: int| args.share() * args.listeners(args.producer_topic(p, i)),
        |i: int| args.share() * by_place(i),
    );
    lemma_sums_swap(places, consumers, meets);
    let by_consumer = |c: int| sum_below(places, |i: int| meets(i, c));
    let reached = |c: int|
        if args.sends_to(p, args.consumer_topic(c)) {
            1int
        } else {
            0int
        };
    assert forall|c: int| #[trigger] by_consumer(c) == #[trigger] reached(c) by {
        let topic = args.consumer_topic(c);
        lemma_one_place(args, p, topic, places);
        lemma_sum_same(
            places,
            |i: int| meets(i, c),
            |i: int|
                if (|i: int| args.producer_topic(p, i) == topic)(i) {
                    1
                } else {
                    0
                },
        );
    }
    lemma_sum_same(consumers, by_consumer, reached);
    lemma_sum_same(
        consumers,
        reached,
        |c: int|
            if (|c: int| args.sends_to(p, args.consumer_topic(c)))(c) {
                1
            } else {
                0
            },
    );
}

/// How many of its first `n` messages a producer sends to its `i`-th topic: an even share, and one
/// more to each of the first topics where the messages cannot be shared out evenly. So with an even
/// share each topic gets what its consumers wait for.
pub proof fn law_messages_are_shared_out(n: nat, topics: int, i: int)
    requires
        0 <= i < topics,
    ensures
        count_below(n, |k: int| k % topics == i) == n as int / topics + if i < n as int % topics {
            1int
        } else {
            0int
        },
    decreases n,
{
    if n == 0 {
        vstd::arithmetic::div_mod::lemma_small_mod(0, topics as nat);
        vstd::arithmetic::div_mod::lemma_basic_div(0, topics);
    } else {
        let k = n - 1;
        law_messages_are_shared_out(k as nat, topics, i);
        let (q, r) = (k / topics, k % topics);
        vstd::arithmetic::div_mod::lemma_fundamental_div_mod(k, topics);
        vstd::arithmetic::div_mod::lemma_mod_bound(k, topics);
        assert(topics * q == q * topics) by (nonlinear_arith);
        if r + 1 < topics {
            vstd::arithmetic::div_mod::lemma_fundamental_div_mod_converse(n as int, topics, q, r + 1);
        } else {
            assert((q + 1) * topics == q * topics + topics) by (nonlinear_arith);
            vstd::arithmetic::div_mod::lemma_fundamental_div_mod_converse(n as int, topics, q + 1, 0);
        }
    }
}

/// The name of a topic.
pub open spec fn topic_text(topic: nat) -> Seq<char> {
    "benchmark_topic_"@ + decimal::decimal(topic)
}

/// The name of a topic.
pub fn topic_name(topic: usize) -> (name: String)
    ensures
        name@ == topic_text(topic as nat),
{
    "benchmark_topic_".to_owned().concat(format_decimal(topic as u128).as_str())
}

impl BenchArgs {
    /// The name of the topic that consumer `c` listens to.
    pub fn consumer_topic_name(&self, c: usize) -> (name: String)
        requires
            self.topics > 0,
        ensures
            name@ == topic_text(self.consumer_topic(c as int) as nat),
    {
        topic_name(c % self.topics)
    }

    /// The names of the topics that producer `p` sends to, in turn.
    pub fn producer_topic_names(&self, p: usize) -> (names: Vec<String>)
        requires
            self.defect() is None,
        ensures
            names@.len() == self.topics_per_producer,
            forall|i: int|
                0 <= i < names@.len() ==> (#[trigger] names@[i])@ == topic_text(
                    self.producer_topic(p as int, i) as nat,
                ),
    {
        let mut names: Vec<String> = Vec::new();
        while names.len() < self.topics_per_producer
            invariant
                self.defect() is None,
                names@.len() <= self.topics_per_producer,
                forall|i: int|
                    0 <= i < names@.len() ==> (#[trigger] names@[i])@ == topic_text(
                        self.producer_topic(p as int, i) as nat,
                    ),
            decreases self.topics_per_producer - names@.len(),
        {
            names.push(topic_name(self.topic_of_producer(p, names.len())));
        }
        names
    }
}

/// How many expected deliveries did not take place. Negative where there were more than expected.
pub fn messages_lost(expected: u64, received: u64) -> (lost: i128)
    ensures
        lost == expected - received,
{
    expected as i128 - received as i128
}

/// Properties that agree are counted alike.
pub proof fn lemma_count_same(n: nat, p: spec_fn(int) -> bool, q: spec_fn(int) -> bool)
    requires
        forall|i: int| 0 <= i < n ==> #[trigger] p(i) == #[trigger] q(i),
    ensures
        count_below(n, p) == count_below(n, q),
{
    lemma_sum_same(
        n,
        |i: int|
            if p(i) {
                1
            } else {
                0
            },
        |i: int|
            if q(i) {
                1
            } else {
                0
            },
    );
}

/// A property that no number has is counted as nothing.
pub proof fn lemma_count_nothing(n: nat, p: spec_fn(int) -> bool)
    requires
        forall|i: int| 0 <= i < n ==> !#[trigger] p(i),
    ensures
        count_below(n, p) == 0,
    decreases n,
{
    if n > 0 {
        lemma_count_nothing((n - 1) as nat, p);
    }
}

/// Larger terms have a larger sum.
pub proof fn lemma_sum_bounds(n: nat, f: spec_fn(int) -> int, g: spec_fn(int) -> int)
    requires
        forall|i: int| 0 <= i < n ==> #[trigger] f(i) <= #[trigger] g(i),
    ensures
        sum_below(n, f) <= sum_below(n, g),
    decreases n,
{
    if n > 0 {
        lemma_sum_bounds((n - 1) as nat, f, g);
    }
}

/// Connections are halved: every one produces or consumes, and there are as many producers as
/// consumers or one fewer.
pub proof fn law_connections_are_halved(args: BenchArgs)
    ensures
        args.producer_count() + args.consumer_count() == args.connections,
        args.producer_count() <= args.consumer_count() <= args.producer_count() + 1,
{
}

/// A plan can be run just if someone produces and someone consumes, there is a topic, and every
/// producer can have its number of different topics, at least one. Where several of these fail, the
/// first is told.
pub proof fn law_plans_that_can_be_run(args: BenchArgs)
    ensures
        args.defect() is None <==> args.producer_count() > 0 && args.consumer_count() > 0
            && args.topics > 0 && 0 < args.topics_per_producer <= args.topics,
        args.defect() == Some(ArgsError::TooFewConnections) <==> args.producer_count() == 0,
        args.defect() == Some(ArgsError::NoTopics) <==> args.producer_count() > 0 && args.topics
            == 0,
        args.defect() == Some(ArgsError::TopicsPerProducer) <==> args.producer_count() > 0
            && args.topics > 0 && !(0 < args.topics_per_producer <= args.topics),
{
}

/// The share of a topic is the largest number that all topics of a producer can have.
pub proof fn law_share_is_the_largest(args: BenchArgs)
    requires
        args.topics_per_producer > 0,
    ensures
        args.share() >= 0,
        args.share() * args.topics_per_producer <= args.messages_per_conn < (args.share() + 1)
            * args.topics_per_producer,
{
    let (n, t) = (args.messages_per_conn as int, args.topics_per_producer as int);
    vstd::arithmetic::div_mod::lemma_fundamental_div_mod(n, t);
    vstd::arithmetic::div_mod::lemma_mod_bound(n, t);
    vstd::arithmetic::div_mod::lemma_div_pos_is_pos(n, t);
    let q = args.share();
    assert(t * q == q * t) by (nonlinear_arith);
    assert((q + 1) * t == q * t + t) by (nonlinear_arith);
}

/// Remainders go round: the next number has the next remainder, and behind the last comes zero.
pub proof fn lemma_goes_round(x: int, n: int)
    requires
        n > 0,
    ensures
        0 <= x % n < n,
        (x + 1) % n == if x % n + 1 == n {
            0
        } else {
            x % n + 1
        },
{
    let (q, r) = (x / n, x % n);
    vstd::arithmetic::div_mod::lemma_fundamental_div_mod(x, n);
    vstd::arithmetic::div_mod::lemma_mod_bound(x, n);
    assert(n * q == q * n) by (nonlinear_arith);
    if r + 1 == n {
        assert((q + 1) * n == q * n + n) by (nonlinear_arith);
        vstd::arithmetic::div_mod::lemma_fundamental_div_mod_converse(x + 1, n, q + 1, 0);
    } else {
        vstd::arithmetic::div_mod::lemma_fundamental_div_mod_converse(x + 1, n, q, r + 1);
    }
}

/// Topics are dealt out round: the first consumer and the first producer start with the first
/// topic, each one after them with the next topic, and so do the further topics of a producer;
/// behind the last topic comes the first.
pub proof fn law_topics_go_round(args: BenchArgs, p: int, i: int)
    requires
        args.topics > 0,
        0 <= p,
        0 <= i,
    ensures
        args.consumer_topic(0) == 0,
        args.producer_topic(0, 0) == 0,
        0 <= args.consumer_topic(p) < args.topics,
        0 <= args.producer_topic(p, i) < args.topics,
        args.consumer_topic(p + 1) == if args.consumer_topic(p) + 1 == args.topics {
            0
        } else {
            args.consumer_topic(p) + 1
        },
        args.producer_topic(p, i + 1) == if args.producer_topic(p, i) + 1 == args.topics {
            0
        } else {
            args.producer_topic(p, i) + 1
        },
        args.producer_topic(p + 1, i) == args.producer_topic(p, i + 1),
{
    let n = args.topics as int;
    lemma_goes_round(p, n);
    lemma_goes_round(p + i, n);
    vstd::arithmetic::div_mod::lemma_small_mod(0, n as nat);
    assert((p + i) + 1 == p + (i + 1));
}

/// The consumers are spread over the topics as evenly as can be.
pub proof fn law_listeners_are_spread(args: BenchArgs, topic: int)
    requires
        0 <= topic < args.topics,
    ensures
        args.listeners(topic) == args.consumer_count() as int / args.topics as int + if topic
            < args.consumer_count() as int % args.topics as int {
            1int
        } else {
            0int
        },
{
    let n = args.topics as int;
    law_messages_are_shared_out(args.consumer_count(), n, topic);
    lemma_count_same(
        args.consumer_count(),
        |c: int| args.consumer_topic(c) == topic,
        |k: int| k % n == topic,
    );
}

/// Different topics have different names.
pub proof fn law_topic_names_differ(a: nat, b: nat)
    ensures
        topic_text(a) == topic_text(b) <==> a == b,
{
    let prefix = "benchmark_topic_"@;
    decimal::law_decimal_round_trip(a);
    decimal::law_decimal_round_trip(b);
    if topic_text(a) == topic_text(b) {
        assert(topic_text(a).skip(prefix.len() as int) =~= decimal::decimal(a));
        assert(topic_text(b).skip(prefix.len() as int) =~= decimal::decimal(b));
    }
}

} // verus!
