//! Histograms of recorded values, kept by the `hdrhistogram` crate.
//!
//! A histogram does not keep values apart that fall into one bucket, so its contents are the
//! lowest values of the buckets that were hit, once for each hit.

use vstd::prelude::*;
use vstd::multiset::Multiset;
use hdrhistogram::Histogram;
use crate::laws::histograms::the_value_at_a_percentage;
use crate::number::{of_nat, one_unit, zero, Number};

verus! {

/// The smallest value that a histogram holds.
pub const HIST_MIN: u64 = 1;

/// One hour in micro-units, the largest value that a histogram holds.
pub const HIST_MAX: u64 = 3_600_000_000;

/// The number of significant decimal digits that a histogram keeps.
pub const HIST_DIGITS: u8 = 3;

/// The number of values that share a bucket with `v`: one up to 2047, and twice as many each
/// time the value doubles.
pub open spec fn bucket_width(v: nat) -> nat
    decreases v,
{
    if v < 2048 {
        1
    } else {
        2 * bucket_width(v / 2)
    }
}

/// The lowest value in the bucket of `v`.
pub open spec fn bucket_low(v: u64) -> u64 {
    (v as nat - v as nat % bucket_width(v as nat)) as u64
}

/// The highest value in the bucket of `v`.
pub open spec fn bucket_high(v: u64) -> u64 {
    (bucket_low(v) + bucket_width(v as nat) - 1) as u64
}

/// What a histogram holds after one more value.
pub open spec fn hist_with(contents: Multiset<u64>, v: u64) -> Multiset<u64> {
    if contents.len() < u64::MAX {
        contents.insert(bucket_low(v))
    } else {
        contents
    }
}

/// An `hdrhistogram::Histogram<u64>` made with the bounds above.
#[verifier::external_body]
#[derive(Debug)]
pub struct Hist {
    inner: Histogram<u64>,
}

// What a histogram holds: the lowest value of each bucket that was hit, once for each hit.
pub uninterp spec fn hist_contents(h: Hist) -> Multiset<u64>;

impl DeepView for Hist {
    type V = Multiset<u64>;

    open spec fn deep_view(&self) -> Multiset<u64> {
        hist_contents(*self)
    }
}

impl View for Hist {
    type V = Multiset<u64>;

    open spec fn view(&self) -> Multiset<u64> {
        hist_contents(*self)
    }
}

pub open spec fn is_least(v: u64, contents: Multiset<u64>) -> bool {
    contents.contains(v) && forall|x: u64| #[trigger] contents.contains(x) ==> v <= x
}

pub open spec fn is_greatest(v: u64, contents: Multiset<u64>) -> bool {
    contents.contains(v) && forall|x: u64| #[trigger] contents.contains(x) ==> x <= v
}

/// The share of some hits that a percentage asks for, as binary64 numbers give it.
pub open spec fn share_of(hits: nat, percent: u32) -> Number {
    of_nat(percent as nat).over(of_nat(100)).times(of_nat(hits))
}

/// How many hits a percentage asks for: its share of them rounded up, and at least one.
pub open spec fn wanted(hits: nat, percent: u32) -> int {
    let n = (share_of(hits, percent).size() + one_unit() - 1) / one_unit();
    if n < 1 {
        1
    } else {
        n
    }
}

/// As many hits as the percentage asks for are in this bucket and the lower ones.
pub open spec fn reaches(low: u64, contents: Multiset<u64>, percent: u32) -> bool {
    contents.filter(|x: u64| x <= low).len() >= wanted(contents.len(), percent)
}

/// The lowest bucket that was hit and reaches the percentage.
pub open spec fn first_to_reach(low: u64, contents: Multiset<u64>, percent: u32) -> bool {
    &&& contents.contains(low)
    &&& reaches(low, contents, percent)
    &&& forall|x: u64| #[trigger] contents.contains(x) && reaches(x, contents, percent) ==> low <= x
}

/// The value at a percentage: the highest one of the lowest bucket that reaches it, and 0 without a
/// hit.
pub open spec fn percentile_of(contents: Multiset<u64>, percent: u32) -> u64 {
    if contents.len() == 0 {
        0
    } else {
        bucket_high(choose|x: u64| first_to_reach(x, contents, percent))
    }
}

/// The middle of the bucket of `v`, rounded up.
pub open spec fn bucket_middle(v: u64) -> nat {
    (bucket_low(v) + bucket_width(v as nat) / 2) as nat
}

/// What the buckets that begin below `bound` contribute to the mean: for each that was hit, from the
/// lowest on, its middle times its hits, divided by all hits, as binary64 numbers give it.
pub open spec fn mean_below(contents: Multiset<u64>, bound: nat) -> Number
    decreases bound,
{
    if bound == 0 {
        zero(false)
    } else {
        let low = (bound - 1) as u64;
        let rest = mean_below(contents, (bound - 1) as nat);
        if contents.count(low) == 0 {
            rest
        } else {
            rest.plus(of_nat(bucket_middle(low)).times(of_nat(contents.count(low))).over(of_nat(contents.len())))
        }
    }
}

/// The bit pattern of the mean.
pub open spec fn mean_of(contents: Multiset<u64>) -> u64 {
    mean_below(contents, HIST_MAX as nat + 1).bits
}

/// `v` is the highest value of the lowest bucket that reaches the percentage.
pub open spec fn tops_the_first_to_reach(v: u64, contents: Multiset<u64>, percent: u32) -> bool {
    exists|x: u64| #[trigger] first_to_reach(x, contents, percent) && v == bucket_high(x)
}

/// `v` is the highest value of a bucket that was hit.
pub open spec fn tops_a_bucket(v: u64, contents: Multiset<u64>) -> bool {
    exists|x: u64| #[trigger] contents.contains(x) && v == bucket_high(x)
}

/// `v` is the highest value of the highest bucket that was hit.
pub open spec fn tops_the_highest_bucket(v: u64, contents: Multiset<u64>) -> bool {
    exists|x: u64| #[trigger] is_greatest(x, contents) && v == bucket_high(x)
}

pub open spec fn no_smaller_percentile_exceeds(v: u64, contents: Multiset<u64>, percent: u32) -> bool {
    forall|p: u32| 1 <= p <= percent ==> #[trigger] percentile_of(contents, p) <= v
}

/// As many hits as the percentage asks for are at `v` or below, and no more than that are in
/// lower buckets; of histograms with up to 2^40 hits.
pub open spec fn splits(v: u64, contents: Multiset<u64>, percent: u32) -> bool {
    contents.len() <= 0x100_0000_0000 ==> {
        &&& 100 * contents.filter(|x: u64| x <= v).len() >= percent * contents.len()
        &&& 100 * contents.filter(|x: u64| x < bucket_low(v)).len() <= percent * contents.len()
    }
}

/// The lowest bucket that was hit.
pub open spec fn least(contents: Multiset<u64>) -> u64 {
    choose|x: u64| is_least(x, contents)
}

/// The highest bucket that was hit.
pub open spec fn greatest(contents: Multiset<u64>) -> u64 {
    choose|x: u64| is_greatest(x, contents)
}

/// `Histogram::new_with_bounds` accepts these bounds and makes an empty histogram.
#[verifier::external_body]
fn hist_with_bounds(low: u64, high: u64, digits: u8) -> (r: Option<Hist>)
    requires
        low == HIST_MIN,
        high == HIST_MAX,
        digits == HIST_DIGITS,
    ensures
        r is Some,
        hist_contents(r->0) == Multiset::<u64>::empty(),
{
    Histogram::new_with_bounds(low, high, digits).ok().map(|inner| Hist { inner })
}

/// `Histogram::record` adds one hit to the bucket of a value within the bounds.
#[verifier::external_body]
fn hist_record(h: &mut Hist, v: u64) -> (ok: bool)
    requires
        HIST_MIN <= v <= HIST_MAX,
        hist_contents(*old(h)).len() < u64::MAX,
    ensures
        ok,
        hist_contents(*final(h)) == hist_contents(*old(h)).insert(bucket_low(v)),
{
    h.inner.record(v).is_ok()
}

/// `Histogram::reset` forgets every hit.
#[verifier::external_body]
fn hist_reset(h: &mut Hist)
    ensures
        hist_contents(*final(h)) == Multiset::<u64>::empty(),
{
    h.inner.reset()
}

/// `Histogram::len` is the number of hits.
#[verifier::external_body]
fn hist_len(h: &Hist) -> (n: u64)
    ensures
        n == hist_contents(*h).len(),
{
    h.inner.len()
}

/// `Histogram::min` is the lowest value of the lowest bucket that was hit, and 0 without a hit.
#[verifier::external_body]
fn hist_min(h: &Hist) -> (v: u64)
    ensures
        hist_contents(*h).len() == 0 ==> v == 0,
        hist_contents(*h).len() > 0 ==> is_least(v, hist_contents(*h)),
{
    h.inner.min()
}

/// `Histogram::max` is the highest value of the highest bucket that was hit.
#[verifier::external_body]
fn hist_max(h: &Hist) -> (v: u64)
    ensures
        hist_contents(*h).len() > 0 ==> tops_the_highest_bucket(v, hist_contents(*h)),
{
    h.inner.max()
}

/// `Histogram::value_at_percentile` is the highest value of the lowest bucket at which the hits so
/// far are as many as the percentage asks for: it divides the percentage by a hundred, multiplies it
/// with the number of hits, rounds that up, and asks for at least one. It is 0 without a hit.
#[verifier::external_body]
fn hist_percentile(h: &Hist, percent: u32) -> (v: u64)
    requires
        1 <= percent <= 99,
    ensures
        hist_contents(*h).len() == 0 ==> v == 0,
        hist_contents(*h).len() > 0 ==> tops_the_first_to_reach(v, hist_contents(*h), percent),
{
    h.inner.value_at_percentile(percent.into())
}

/// `Histogram::mean`, by its bit pattern: it walks the buckets that were hit from the lowest on, and
/// adds up the middle of each times its hits, divided by all hits.
#[verifier::external_body]
fn hist_mean(h: &Hist) -> (bits: u64)
    ensures
        bits == mean_of(hist_contents(*h)),
{
    h.inner.mean().to_bits()
}

impl Hist {
    /// An empty histogram.
    pub fn new() -> (r: Hist)
        ensures
            r@ == Multiset::<u64>::empty(),
    {
        hist_with_bounds(HIST_MIN, HIST_MAX, HIST_DIGITS).unwrap()
    }

    /// Records a value. A histogram that holds as many hits as it can count stays as it is.
    pub fn record(&mut self, v: u64)
        requires
            HIST_MIN <= v <= HIST_MAX,
        ensures
            final(self)@ == hist_with(old(self)@, v),
    {
        if hist_len(self) < u64::MAX {
            let _recorded = hist_record(self, v);
        }
    }

    pub fn reset(&mut self)
        ensures
            final(self)@ == Multiset::<u64>::empty(),
    {
        hist_reset(self)
    }

    /// The number of recorded values.
    pub fn len(&self) -> (n: u64)
        ensures
            n == self@.len(),
    {
        hist_len(self)
    }

    pub fn is_empty(&self) -> (r: bool)
        ensures
            r == (self@.len() == 0),
    {
        hist_len(self) == 0
    }

    /// The lowest recorded value, to the resolution of the histogram.
    pub fn min(&self) -> (v: u64)
        requires
            self@.len() > 0,
        ensures
            v == least(self@),
            is_least(v, self@),
    {
        let v: u64 = hist_min(self);
        assert(is_least(v, self@));
        v
    }

    /// The highest recorded value, to the resolution of the histogram.
    pub fn max(&self) -> (v: u64)
        requires
            self@.len() > 0,
        ensures
            v == bucket_high(greatest(self@)),
            is_greatest(greatest(self@), self@),
    {
        hist_max(self)
    }

    /// The value that `percent` per cent of the recorded values do not exceed.
    pub fn percentile(&self, percent: u32) -> (v: u64)
        requires
            1 <= percent <= 99,
        ensures
            v == percentile_of(self@, percent),
            self@.len() > 0 ==> tops_a_bucket(v, self@),
            no_smaller_percentile_exceeds(v, self@, percent),
            splits(v, self@, percent),
    {
        let v: u64 = hist_percentile(self, percent);
        proof {
            if self@.len() > 0 {
                let x = choose|x: u64| first_to_reach(x, self@, percent) && v == bucket_high(x);
                the_value_at_a_percentage(self@, percent, x);
            } else {
                assert(self@ =~= Multiset::empty());
                assert(self@.filter(|x: u64| x <= v) =~= Multiset::empty());
                assert(self@.filter(|x: u64| x < bucket_low(v)) =~= Multiset::empty());
            }
        }
        v
    }

    /// The bit pattern of the mean of the recorded values.
    pub fn mean_bits(&self) -> (bits: u64)
        ensures
            bits == mean_of(self@),
    {
        hist_mean(self)
    }
}

} // verus!
