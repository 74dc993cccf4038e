//! Latency histograms, kept by the `hdrhistogram` crate.
//!
//! A histogram tells values apart only to a number of decimal digits. What it holds is described by
//! the recorded values, each lowered to the lowest one that the histogram cannot tell from it.

use hdrhistogram::Histogram;
use vstd::multiset::Multiset;
use vstd::prelude::*;

verus! {

/// Decimal digits to which latencies are told apart.
pub const LATENCY_DIGITS: u8 = 3;

/// `hdrhistogram::CreationError`, opaque.
#[verifier::external_type_specification]
#[verifier::external_body]
pub struct ExCreationError(hdrhistogram::CreationError);

/// `hdrhistogram::RecordError`, opaque.
#[verifier::external_type_specification]
#[verifier::external_body]
pub struct ExRecordError(hdrhistogram::RecordError);

/// `hdrhistogram::AdditionError`, opaque.
#[verifier::external_type_specification]
#[verifier::external_body]
pub struct ExAdditionError(hdrhistogram::AdditionError);

/// An `hdrhistogram::Histogram<u64>` that tells values apart from 1 on, to [`LATENCY_DIGITS`] digits,
/// and does not grow. Its contents are opaque: see [`latency_contents`] and [`latency_high`].
#[verifier::external_body]
pub struct LatencyHistogram {
    inner: Histogram<u64>,
}

/// The recorded values, each lowered to the lowest one that the histogram cannot tell from it.
pub uninterp spec fn latency_contents(h: LatencyHistogram) -> Multiset<u64>;

/// The highest value that the histogram was made for.
pub uninterp spec fn latency_high(h: LatencyHistogram) -> u64;

/// The lowest value that a [`LatencyHistogram`] cannot tell from `value`. Values are told apart below
/// 2048, and two of them share a counter from there on just if their halves do.
pub open spec fn lowest_equivalent(value: u64) -> u64
    decreases value,
{
    if value < 2048 {
        value
    } else {
        (2 * lowest_equivalent(value / 2)) as u64
    }
}

/// The highest value that a [`LatencyHistogram`] cannot tell from `value`.
pub open spec fn highest_equivalent(value: u64) -> nat
    decreases value,
{
    if value < 2048 {
        value as nat
    } else {
        2 * highest_equivalent(value / 2) + 1
    }
}

/// The smallest number above `high` among 2048, its double, the double of that, and so on.
pub open spec fn bucket_end(high: u64) -> nat
    decreases high,
{
    if high < 2048 {
        2048
    } else {
        2 * bucket_end(high / 2)
    }
}

/// The largest value that a [`LatencyHistogram`] made for values up to `high` counts. It may count
/// somewhat more than it was asked for, as it has room for 2048 doubled some number of times.
pub open spec fn largest_counted(high: u64) -> int {
    bucket_end(high) - 1
}

/// `hdrhistogram::Histogram::new_with_bounds` makes an empty histogram. It refuses a highest value
/// below 2.
#[verifier::external_body]
fn new_with_bounds(low: u64, high: u64, digits: u8) -> (made: Result<
    LatencyHistogram,
    hdrhistogram::CreationError,
>)
    requires
        low == 1,
        high <= u64::MAX / 2,
        digits == LATENCY_DIGITS,
    ensures
        made is Ok == (high >= 2),
        made is Ok ==> latency_high(made->Ok_0) == high,
        made is Ok ==> latency_contents(made->Ok_0) == Multiset::<u64>::empty(),
{
    Histogram::new_with_bounds(low, high, digits).map(|inner| LatencyHistogram { inner })
}

/// `hdrhistogram::Histogram::record` counts a value, if it is not too large. A refused value changes
/// nothing, and a full counter stays full.
#[verifier::external_body]
fn record_value(h: &mut LatencyHistogram, value: u64) -> (recorded: Result<
    (),
    hdrhistogram::RecordError,
>)
    ensures
        latency_high(*final(h)) == latency_high(*old(h)),
        recorded is Ok == (value <= largest_counted(latency_high(*old(h)))),
        latency_contents(*final(h)) == if recorded is Ok && latency_contents(*old(h)).count(
            lowest_equivalent(value),
        ) < u64::MAX {
            latency_contents(*old(h)).insert(lowest_equivalent(value))
        } else {
            latency_contents(*old(h))
        },
{
    h.inner.record(value)
}

/// Whether `sum` counts what `a` and `b` count together, with counters that stay full once they are.
pub open spec fn is_sum(sum: Multiset<u64>, a: Multiset<u64>, b: Multiset<u64>) -> bool {
    forall|v: u64| #[trigger]
        sum.count(v) == if a.count(v) + b.count(v) <= u64::MAX {
            a.count(v) + b.count(v)
        } else {
            u64::MAX as nat
        }
}

/// Whether a histogram made for values up to `high` counts all values of `source`. It does where
/// `source` was made for the same.
pub open spec fn takes_all(high: u64, source: LatencyHistogram) -> bool {
    ||| high == latency_high(source)
    ||| forall|v: u64| #[trigger]
        latency_contents(source).count(v) > 0 ==> v <= largest_counted(high)
}

/// `hdrhistogram::Histogram::add` counts the values of another histogram too; full counters stay
/// full. It refuses a histogram with a value that is too large, and then changes nothing.
#[verifier::external_body]
fn add_histogram(h: &mut LatencyHistogram, source: &LatencyHistogram) -> (added: Result<
    (),
    hdrhistogram::AdditionError,
>)
    ensures
        latency_high(*final(h)) == latency_high(*old(h)),
        added is Ok == takes_all(latency_high(*old(h)), *source),
        added is Ok ==> is_sum(
            latency_contents(*final(h)),
            latency_contents(*old(h)),
            latency_contents(*source),
        ),
        added is Err ==> latency_contents(*final(h)) == latency_contents(*old(h)),
{
    h.inner.add(&source.inner)
}

/// What `LatencyHistogram::recorded_values` hands out of a histogram that holds `contents`: in
/// rising order one entry for each value that occurs there, with the number of its occurrences. The
/// entry's value is the highest that cannot be told from it.
pub open spec fn lists_contents(values: Seq<(u64, u64)>, contents: Multiset<u64>) -> bool {
    &&& forall|i: int|
        0 <= i < values.len() ==> (#[trigger] values[i]).1 > 0 && values[i].1 == contents.count(
            lowest_equivalent(values[i].0),
        ) && values[i].0 == highest_equivalent(values[i].0)
    &&& forall|i: int, j: int|
        0 <= i < j < values.len() ==> lowest_equivalent((#[trigger] values[i]).0)
            < lowest_equivalent((#[trigger] values[j]).0)
    &&& forall|v: u64|
        #[trigger] contents.count(v) > 0 ==> exists|i: int|
            0 <= i < values.len() && lowest_equivalent((#[trigger] values[i]).0) == v
}

/// `hdrhistogram::Histogram::iter_recorded` walks over the counters that are not zero, from the
/// lowest values to the highest, and gives of each its highest value and the count.
#[verifier::external_body]
fn iter_recorded(h: &LatencyHistogram) -> (values: Vec<(u64, u64)>)
    ensures
        lists_contents(values@, latency_contents(*h)),
{
    h.inner.iter_recorded().map(|v| (v.value_iterated_to(), v.count_at_value())).collect()
}

/// What a histogram made for values up to `high` that held `before` holds once `value` was offered to
/// it: the value is counted, unless it is too large, or its counter is full.
pub open spec fn counted(before: Multiset<u64>, high: u64, value: u64) -> Multiset<u64> {
    let kept = lowest_equivalent(value);
    if value <= largest_counted(high) && before.count(kept) < u64::MAX {
        before.insert(kept)
    } else {
        before
    }
}

impl LatencyHistogram {
    /// An empty histogram for latencies from 1 to `high` nanoseconds.
    pub fn with_limit(high: u64) -> (h: LatencyHistogram)
        requires
            2 <= high <= u64::MAX / 2,
        ensures
            latency_high(h) == high,
            latency_contents(h) == Multiset::<u64>::empty(),
    {
        new_with_bounds(1, high, LATENCY_DIGITS).unwrap()
    }

    /// Counts a latency. One that is too large is passed over; one up to the limit is not, see
    /// [`law_limit_is_counted`].
    pub fn record(&mut self, value: u64)
        ensures
            latency_high(*final(self)) == latency_high(*old(self)),
            latency_contents(*final(self)) == counted(
                latency_contents(*old(self)),
                latency_high(*old(self)),
                value,
            ),
    {
        let _ = record_value(self, value);
    }

    /// Counts all that `source` counted. Returns whether that was possible; nothing changes where it
    /// was not.
    pub fn merge(&mut self, source: &LatencyHistogram) -> (merged: bool)
        ensures
            latency_high(*final(self)) == latency_high(*old(self)),
            merged == takes_all(latency_high(*old(self)), *source),
            merged ==> is_sum(
                latency_contents(*final(self)),
                latency_contents(*old(self)),
                latency_contents(*source),
            ),
            !merged ==> latency_contents(*final(self)) == latency_contents(*old(self)),
    {
        add_histogram(self, source).is_ok()
    }

    /// The recorded latencies in rising order, each with the number of its occurrences.
    pub fn recorded_values(&self) -> (values: Vec<(u64, u64)>)
        ensures
            lists_contents(values@, latency_contents(*self)),
    {
        iter_recorded(self)
    }
}

/// The lowest value of a counter is twice that of the halves from 2048 on, and not below 2048 itself.
proof fn lemma_lowest(value: u64)
    ensures
        lowest_equivalent(value) <= value,
        value >= 2048 ==> lowest_equivalent(value) == 2 * lowest_equivalent(value / 2),
        value >= 1024 ==> lowest_equivalent(value) >= 1024,
        value >= 2048 ==> lowest_equivalent(value) >= 2048,
    decreases value,
{
    if value >= 2048 {
        lemma_lowest(value / 2);
    }
}

/// A histogram keeps three digits of a latency: the values that it cannot tell from it are spread
/// over no more than a thousandth of it, and below 2048 there are no others.
pub proof fn law_three_digits_are_kept(value: u64)
    ensures
        lowest_equivalent(value) <= value <= highest_equivalent(value),
        (highest_equivalent(value) - lowest_equivalent(value)) * 1000 <= lowest_equivalent(value),
        value < 2048 ==> lowest_equivalent(value) == value == highest_equivalent(value),
{
    lemma_spread(value);
}

proof fn lemma_spread(value: u64)
    ensures
        lowest_equivalent(value) <= value <= highest_equivalent(value),
        value >= 2048 ==> (highest_equivalent(value) - lowest_equivalent(value) + 1) * 1024
            <= lowest_equivalent(value),
    decreases value,
{
    lemma_lowest(value);
    if value >= 2048 {
        lemma_lowest(value / 2);
        lemma_spread(value / 2);
    }
}

/// Latencies are counted together just if one lies between the lowest and the highest value that
/// cannot be told from the other.
pub proof fn law_counters_do_not_overlap(value: u64, other: u64)
    ensures
        lowest_equivalent(other) == lowest_equivalent(value) <==> lowest_equivalent(value) <= other
            <= highest_equivalent(value),
    decreases value,
{
    lemma_lowest(value);
    lemma_lowest(other);
    if value >= 2048 && other >= 2048 {
        law_counters_do_not_overlap(value / 2, other / 2);
    }
}

/// A histogram keeps the order of latencies, as far as it tells them apart.
pub proof fn law_order_is_kept(lower: u64, value: u64)
    requires
        lower <= value,
    ensures
        lowest_equivalent(lower) <= lowest_equivalent(value),
    decreases value,
{
    lemma_lowest(lower);
    lemma_lowest(value);
    if lower >= 2048 {
        law_order_is_kept(lower / 2, value / 2);
    }
}

/// A latency up to the limit that a histogram was made for is counted, and from 2048 on none is that
/// reaches the double of the limit.
pub proof fn law_limit_is_counted(high: u64)
    ensures
        high <= largest_counted(high),
        high < 2048 ==> largest_counted(high) == 2047,
        high >= 2048 ==> largest_counted(high) < 2 * high,
    decreases high,
{
    if high >= 2048 {
        law_limit_is_counted(high / 2);
        assert(high / 2 < 2048 ==> bucket_end(high / 2) == 2048);
    }
}

/// A latency up to the limit is counted, by one, with those that it cannot be told from, and no
/// others are touched; one of more than what the histogram has room for changes nothing, nor does
/// one whose counter is full.
pub proof fn law_latencies_are_counted(before: Multiset<u64>, high: u64, value: u64, other: u64)
    ensures
        ({
            let after = counted(before, high, value);
            let kept = lowest_equivalent(value);
            &&& value <= high && before.count(kept) < u64::MAX ==> after.count(kept) == before.count(
                kept,
            ) + 1 && after.len() == before.len() + 1
            &&& other != kept ==> after.count(other) == before.count(other)
            &&& value > largest_counted(high) || before.count(kept) == u64::MAX ==> after == before
        }),
{
    law_limit_is_counted(high);
}

/// Histograms that were made for the same latencies can always be added up, and so can those whose
/// latencies are all up to the other's limit. The sum has of every value what both have, as far as a
/// counter goes.
pub proof fn law_histograms_add_up(
    high: u64,
    source: LatencyHistogram,
    sum: Multiset<u64>,
    a: Multiset<u64>,
    b: Multiset<u64>,
    value: u64,
)
    ensures
        latency_high(source) == high ==> takes_all(high, source),
        (forall|v: u64| #[trigger] latency_contents(source).count(v) > 0 ==> v <= high) ==> takes_all(
            high,
            source,
        ),
        is_sum(sum, a, b) && a.count(value) + b.count(value) <= u64::MAX ==> sum.count(value)
            == a.count(value) + b.count(value),
{
    law_limit_is_counted(high);
}

} // verus!
