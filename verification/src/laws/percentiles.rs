//! Percentiles: what each of the reported ones says of the values that were recorded.

use vstd::prelude::*;
use vstd::multiset::Multiset;
use crate::hist::{bucket_high, first_to_reach, greatest, is_greatest, is_least, least, reaches, wanted};
use crate::laws::histograms::{
    lemma_below, lemma_fewer, lemma_first_to_reach, lemma_wanted_is_the_share, the_value_at_a_percentage,
};
use crate::metrics::{percentiles_of, unit_value};
use crate::number::{zero, Number};

verus! {

/// The number is the end of a bucket that was hit, so that at least the percentage of all hits are in
/// it or in lower buckets, and at most the percentage in lower ones.
pub open spec fn stands_at(n: Number, c: Multiset<u64>, percent: int) -> bool {
    exists|low: u64|
        {
            &&& #[trigger] c.contains(low)
            &&& n == unit_value(bucket_high(low))
            &&& 100 * c.filter(|x: u64| x <= low).len() >= percent * c.len()
            &&& 100 * c.filter(|x: u64| x < low).len() <= percent * c.len()
        }
}

/// The number is the beginning of the lowest bucket that was hit.
pub open spec fn is_lowest_of(n: Number, c: Multiset<u64>) -> bool {
    exists|low: u64|
        #[trigger] c.contains(low) && n == unit_value(low) && forall|x: u64| #[trigger] c.contains(x) ==> low <= x
}

/// The number is the end of the highest bucket that was hit.
pub open spec fn is_highest_of(n: Number, c: Multiset<u64>) -> bool {
    exists|low: u64|
        #[trigger] c.contains(low) && n == unit_value(bucket_high(low)) && forall|x: u64|
            #[trigger] c.contains(x) ==> x <= low
}

/// Some hit is the lowest, and some hit is the highest.
proof fn lemma_ends(c: Multiset<u64>, x: u64)
    requires
        c.contains(x),
    ensures
        is_least(least(c), c),
        is_greatest(greatest(c), c),
{
    lemma_least(c, x);
    lemma_greatest(c, x);
}

proof fn lemma_least(c: Multiset<u64>, x: u64)
    requires
        c.contains(x),
    ensures
        exists|y: u64| is_least(y, c),
    decreases x,
{
    if !is_least(x, c) {
        let y = choose|y: u64| #[trigger] c.contains(y) && y < x;
        lemma_least(c, y);
    }
}

proof fn lemma_greatest(c: Multiset<u64>, x: u64)
    requires
        c.contains(x),
    ensures
        exists|y: u64| is_greatest(y, c),
    decreases u64::MAX - x,
{
    if !is_greatest(x, c) {
        let y = choose|y: u64| #[trigger] c.contains(y) && y > x;
        lemma_greatest(c, y);
    }
}

proof fn lemma_stands_at(c: Multiset<u64>, percent: u32)
    requires
        0 < c.len() <= 0x100_0000_0000,
        1 <= percent <= 99,
    ensures
        stands_at(unit_value(crate::hist::percentile_of(c, percent)), c, percent as int),
{
    let any = c.choose();
    lemma_ends(c, any);
    let top = greatest(c);
    lemma_wanted_is_the_share(c.len(), percent);
    assert(c.filter(|x: u64| x <= top) =~= c) by {
        assert forall|x: u64| c.filter(|x: u64| x <= top).count(x) == c.count(x) by {
            if c.count(x) > 0 {
                assert(c.contains(x));
            }
        }
    }
    assert(wanted(c.len(), percent) <= c.len()) by (nonlinear_arith)
        requires
            100 * (wanted(c.len(), percent) - 1) <= percent * c.len(),
            percent <= 99,
            c.len() > 0,
    ;
    assert(reaches(top, c, percent));
    lemma_first_to_reach(c, percent, top);
    let low = choose|x: u64| first_to_reach(x, c, percent) && x <= top;
    the_value_at_a_percentage(c, percent, low);
    lemma_below(c, percent, low, low);
    assert(c.contains(low));
}

/// Of up to 2^40 values, each reported percentile stands at its own percentage: at least so many of
/// the values are in its bucket or below, and no more than so many below. The minimum and maximum are
/// the ends of what was recorded, and the count is the number of values.
pub proof fn each_percentile_stands_at_its_percentage(c: Multiset<u64>)
    requires
        0 < c.len() <= 0x100_0000_0000,
    ensures
        percentiles_of(c).count == c.len(),
        is_lowest_of(percentiles_of(c).min, c),
        stands_at(percentiles_of(c).p50, c, 50),
        stands_at(percentiles_of(c).p90, c, 90),
        stands_at(percentiles_of(c).p95, c, 95),
        stands_at(percentiles_of(c).p99, c, 99),
        is_highest_of(percentiles_of(c).max, c),
{
    lemma_ends(c, c.choose());
    lemma_stands_at(c, 50);
    lemma_stands_at(c, 90);
    lemma_stands_at(c, 95);
    lemma_stands_at(c, 99);
    assert(c.contains(least(c)) && c.contains(greatest(c)));
}

/// Nothing recorded is reported as nothing.
pub proof fn nothing_recorded_has_no_percentiles(c: Multiset<u64>)
    requires
        c.len() == 0,
    ensures
        percentiles_of(c).count == 0,
        percentiles_of(c).min == zero(false),
        percentiles_of(c).p50 == zero(false),
        percentiles_of(c).p90 == zero(false),
        percentiles_of(c).p95 == zero(false),
        percentiles_of(c).p99 == zero(false),
        percentiles_of(c).max == zero(false),
        percentiles_of(c).mean == zero(false),
{
}

/// Where more than half of the hits, or more than any other share, are in one bucket, that bucket is
/// the percentile.
pub proof fn a_percentile_skips_no_hits(c: Multiset<u64>, n: Number, percent: int, low: u64)
    requires
        c.contains(low),
        stands_at(n, c, percent),
        100 * c.filter(|x: u64| x < low).len() < percent * c.len(),
        100 * c.filter(|x: u64| x <= low).len() > percent * c.len(),
    ensures
        n == unit_value(bucket_high(low)),
{
    let at = choose|at: u64|
        {
            &&& #[trigger] c.contains(at)
            &&& n == unit_value(bucket_high(at))
            &&& 100 * c.filter(|x: u64| x <= at).len() >= percent * c.len()
            &&& 100 * c.filter(|x: u64| x < at).len() <= percent * c.len()
        };
    if at < low {
        lemma_fewer(c.filter(|x: u64| x <= at), c.filter(|x: u64| x < low));
    }
    if low < at {
        lemma_fewer(c.filter(|x: u64| x <= low), c.filter(|x: u64| x < at));
    }
}

} // verus!
