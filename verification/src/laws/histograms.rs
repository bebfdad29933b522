//! Histograms: how fine their buckets are, and what their percentiles keep.

use vstd::prelude::*;
use vstd::arithmetic::power2::{
    lemma2_to64, lemma2_to64_rest, lemma_pow2_pos, lemma_pow2_strictly_increases, lemma_pow2_unfold, pow2,
};
use vstd::arithmetic::div_mod::{lemma_div_is_ordered, lemma_fundamental_div_mod_converse};
use vstd::multiset::Multiset;
use crate::hist::{
    bucket_high, bucket_low, bucket_width, first_to_reach, greatest, hist_with, least, no_smaller_percentile_exceeds,
    percentile_of, reaches, share_of, splits, tops_a_bucket, wanted, HIST_MAX, HIST_MIN,
};
use crate::laws::numbers::{
    distance, larger_magnitudes_are_larger_values, rounding_depends_on_the_ratio, rounding_error_is_small,
    rounding_keeps_order, whole_numbers_are_exact,
};
use crate::metrics::{hist_units, percentiles_of, unit_value, Percentiles, HIST_SCALE};
use crate::number::{of_nat, one_unit, Number, SIGN};
use crate::rounding::{nearest, stepped, INFINITE, TWO52, TWO53};

verus! {

/// The width of a bucket is at most the thousandth part of the values in it: three significant
/// digits are kept, and values up to 2047 exactly.
pub proof fn buckets_keep_three_digits(v: nat)
    ensures
        bucket_width(v) >= 1,
        v < 2048 ==> bucket_width(v) == 1,
        v >= 2048 ==> 1024 * bucket_width(v) <= v < 2048 * bucket_width(v),
    decreases v,
{
    if v >= 2048 {
        buckets_keep_three_digits(v / 2);
    }
}

proof fn lemma_width_bound(v: nat, k: nat)
    requires
        v < 2048 * pow2(k),
    ensures
        bucket_width(v) <= pow2(k),
    decreases k,
{
    lemma_pow2_pos(k);
    if v >= 2048 {
        if k == 0 {
            lemma2_to64();
        } else {
            lemma_pow2_unfold(k);
            lemma_width_bound(v / 2, (k - 1) as nat);
        }
    }
}

proof fn lemma_widths_double(v: nat, w: nat)
    requires
        v <= w,
    ensures
        bucket_width(v) <= bucket_width(w),
        bucket_width(v) < bucket_width(w) ==> 2 * bucket_width(v) <= bucket_width(w),
    decreases w,
{
    buckets_keep_three_digits(v);
    buckets_keep_three_digits(w);
    if v >= 2048 {
        lemma_widths_double(v / 2, w / 2);
    } else if w >= 2048 {
        buckets_keep_three_digits(w / 2);
    }
}

/// A value lies between the ends of its bucket.
pub proof fn a_value_lies_in_its_bucket(v: u64)
    ensures
        bucket_low(v) <= v <= bucket_high(v),
        bucket_high(v) - bucket_low(v) == bucket_width(v as nat) - 1,
        bucket_high(v) < 2048 * bucket_width(v as nat),
{
    let w = bucket_width(v as nat) as int;
    buckets_keep_three_digits(v as nat);
    let q = v as int / w;
    let r = v as int % w;
    assert(v == q * w + r && 0 <= r < w && q >= 0) by (nonlinear_arith)
        requires
            w > 0,
            v >= 0,
            q == v as int / w,
            r == v as int % w,
    ;
    assert(q + 1 <= 2048) by (nonlinear_arith)
        requires
            q * w <= v,
            v < 2048 * w,
            w > 0,
    ;
    assert(q * w + w <= 2048 * w) by (nonlinear_arith)
        requires
            q + 1 <= 2048,
            w > 0,
    ;
    lemma2_to64();
    lemma_pow2_unfold(64);
    crate::rounding::lemma_two53();
    vstd::arithmetic::power2::lemma_pow2_adds(11, 53);
    assert(pow2(11) == 2048);
    lemma_width_bound(v as nat, 53);
}

/// Larger values lie in buckets that end no earlier.
pub proof fn buckets_keep_order(v: u64, w: u64)
    requires
        v <= w,
    ensures
        bucket_low(v) <= bucket_low(w),
        bucket_high(v) <= bucket_high(w),
{
    a_value_lies_in_its_bucket(v);
    a_value_lies_in_its_bucket(w);
    buckets_keep_three_digits(v as nat);
    buckets_keep_three_digits(w as nat);
    lemma_widths_double(v as nat, w as nat);
    let a = bucket_width(v as nat) as int;
    let b = bucket_width(w as nat) as int;
    if a == b {
        let qv = v as int / a;
        let qw = w as int / a;
        assert(qv <= qw && v == qv * a + v as int % a && w == qw * a + w as int % a) by (nonlinear_arith)
            requires
                v <= w,
                a > 0,
                qv == v as int / a,
                qw == w as int / a,
        ;
        assert(qv * a <= qw * a) by (nonlinear_arith)
            requires
                qv <= qw,
                a > 0,
        ;
    } else {
        assert(bucket_low(w) >= 1024 * b) by {
            // the bucket of w begins at a multiple of b that is not below 1024 of them
            let q = w as int / b;
            let r = w as int % b;
            assert(w == q * b + r && 0 <= r < b) by (nonlinear_arith)
                requires
                    b > 0,
                    w >= 0,
                    q == w as int / b,
                    r == w as int % b,
            ;
            assert(q >= 1024) by (nonlinear_arith)
                requires
                    w >= 1024 * b,
                    w == q * b + r,
                    0 <= r < b,
                    b > 0,
            ;
            assert(q * b >= 1024 * b) by (nonlinear_arith)
                requires
                    q >= 1024,
                    b > 0,
            ;
        }
    }
}

/// One more value raises the number of hits by one, as far as it can be counted.
pub proof fn every_value_is_counted(c: Multiset<u64>, v: u64)
    requires
        c.len() < u64::MAX,
    ensures
        hist_with(c, v).len() == c.len() + 1,
{
}

pub(crate) proof fn lemma_nearest_range(n: int, d: int)
    requires
        n >= 0,
        d > 0,
    ensures
        0 <= nearest(n, d) <= INFINITE,
{
    rounding_keeps_order(0, n, d);
    assert(stepped(0, d) == 0) by {
        assert(0 < d * TWO53) by (nonlinear_arith)
            requires
                d > 0,
        ;
        lemma_fundamental_div_mod_converse(0, d, 0, 0);
    }
}

/// Dividing by a positive number keeps the order of what is divided.
pub proof fn division_keeps_order(a: Number, b: Number, d: Number)
    requires
        a.bits < SIGN,
        b.bits < SIGN,
        a.at_most(b),
        d.bits < SIGN,
        d.finite(),
        d.magnitude() != 0,
    ensures
        a.over(d).at_most(b.over(d)),
        a.over(d).bits < SIGN,
{
    crate::laws::numbers::larger_magnitudes_are_larger_values(0, d.magnitude());
    lemma_size(d);
    lemma_size(a);
    lemma_size(b);
    lemma_pow2_pos(1074);
    let u = one_unit();
    if a.finite() {
        assert(a.size() * u >= 0) by (nonlinear_arith)
            requires
                a.size() >= 0,
                u > 0,
        ;
        lemma_nearest_range(a.size() * u, d.size());
        if b.finite() {
            if a.magnitude() < b.magnitude() {
                larger_magnitudes_are_larger_values(a.magnitude(), b.magnitude());
            }
            assert(a.size() * u <= b.size() * u) by (nonlinear_arith)
                requires
                    a.size() <= b.size(),
                    u > 0,
            ;
            lemma_nearest_range(b.size() * u, d.size());
            rounding_keeps_order(a.size() * u, b.size() * u, d.size());
        }
    }
}

proof fn lemma_size(a: Number)
    requires
        a.bits < SIGN,
    ensures
        a.size() >= 0,
        a.magnitude() > 0 ==> a.size() > 0,
{
    if a.magnitude() > 0 {
        larger_magnitudes_are_larger_values(0, a.magnitude());
    }
    lemma_zero_units();
}

proof fn lemma_zero_units()
    ensures
        crate::rounding::units_of(0) == 0,
{
    lemma2_to64();
    assert(0 * pow2(0) == 0) by (nonlinear_arith);
}

/// More micro-units stand for a number that is no smaller.
pub proof fn units_keep_order(v: u64, w: u64)
    requires
        v <= w,
    ensures
        unit_value(v).at_most(unit_value(w)),
{
    lemma_pow2_pos(1074);
    let u = one_unit();
    assert(0 <= v as nat * u <= w as nat * u) by (nonlinear_arith)
        requires
            v <= w,
            u > 0,
    ;
    rounding_keeps_order(v as nat * u, w as nat * u, 1);
    lemma_nearest_range(v as nat * u, 1);
    lemma_nearest_range(w as nat * u, 1);
    whole_numbers_are_exact(HIST_SCALE as nat);
    assert(HIST_SCALE as nat * u > 0) by (nonlinear_arith)
        requires
            u > 0,
    ;
    lemma_zero_units();
    division_keeps_order(of_nat(v as nat), of_nat(w as nat), of_nat(HIST_SCALE as nat));
}

/// What holds of a histogram's percentiles: they do not fall as the percentage rises, and lie
/// between the lowest and the highest value.
pub open spec fn ranked(c: Multiset<u64>) -> bool {
    least(c) <= percentile_of(c, 50) <= percentile_of(c, 90) <= percentile_of(c, 95) <= percentile_of(c, 99)
        <= bucket_high(greatest(c))
}

/// Each of the reported percentiles has the asked share of the hits at it or below.
pub open spec fn shared_out(c: Multiset<u64>) -> bool {
    splits(percentile_of(c, 50), c, 50) && splits(percentile_of(c, 90), c, 90) && splits(percentile_of(c, 95), c, 95)
        && splits(percentile_of(c, 99), c, 99)
}

/// Percentiles that rise from the minimum to the maximum.
pub open spec fn rising(p: Percentiles) -> bool {
    p.min.at_most(p.p50) && p.p50.at_most(p.p90) && p.p90.at_most(p.p95) && p.p95.at_most(p.p99) && p.p99.at_most(p.max)
}

/// The percentiles that are reported rise as those of the histogram do.
pub proof fn reported_percentiles_rise(c: Multiset<u64>)
    requires
        c.len() == 0 || ranked(c),
    ensures
        rising(percentiles_of(c)),
{
    if c.len() > 0 {
        units_keep_order(least(c), percentile_of(c, 50));
        units_keep_order(percentile_of(c, 50), percentile_of(c, 90));
        units_keep_order(percentile_of(c, 90), percentile_of(c, 95));
        units_keep_order(percentile_of(c, 95), percentile_of(c, 99));
        units_keep_order(percentile_of(c, 99), bucket_high(greatest(c)));
    }
}

/// A whole number within the range of a histogram is taken in and given back unchanged.
pub proof fn whole_values_keep_their_value(k: u64)
    requires
        1 <= k <= 3_600_000,
    ensures
        hist_units(of_nat(k as nat)) == k * HIST_SCALE,
        unit_value((k * HIST_SCALE) as u64) == of_nat(k as nat),
{
    lemma_pow2_pos(1074);
    let u = one_unit();
    let n = k as nat;
    let units: nat = (k * HIST_SCALE) as nat;
    whole_numbers_are_exact(n);
    whole_numbers_are_exact(HIST_SCALE as nat);
    whole_numbers_are_exact(units);
    lemma_zero_units();
    // the product
    assert((n * u) * (1000 * u) == (units * u) * u) by (nonlinear_arith)
        requires
            units == n * 1000,
    ;
    assert(units * u >= 0) by (nonlinear_arith)
        requires
            units >= 0,
            u > 0,
    ;
    rounding_depends_on_the_ratio(units * u, 1, u);
    assert(1 * u == u);
    assert(of_nat(n).times(of_nat(HIST_SCALE as nat)) == of_nat(units));
    assert((2 * (units * u) + u) / (2 * u) == units) by {
        assert(2 * (units * u) + u == units * (2 * u) + u) by (nonlinear_arith);
        lemma_fundamental_div_mod_converse(2 * (units * u) + u, 2 * u, units as int, u);
    }
    // the quotient
    assert((units * u) * u == (n * u) * (1000 * u)) by (nonlinear_arith)
        requires
            units == n * 1000,
    ;
    assert(1000 * u > 0);
    assert(n * u >= 0) by (nonlinear_arith)
        requires
            n >= 0,
            u > 0,
    ;
    assert(n * u > 0) by (nonlinear_arith)
        requires
            n >= 1,
            u > 0,
    ;
    rounding_depends_on_the_ratio(n * u, 1, 1000 * u);
    assert(1 * (1000 * u) == 1000 * u);
}

/// The thousandfold of a number, rounded, as a magnitude.
spec fn thousandfold(v: Number) -> int {
    nearest(1000 * v.size(), 1)
}

proof fn lemma_thousandfold(v: Number)
    requires
        v.finite(),
        v.bits < SIGN,
    ensures
        v.times(of_nat(HIST_SCALE as nat)) == (Number { bits: thousandfold(v) as u64 }),
        0 <= thousandfold(v) <= INFINITE,
        v.size() >= 0,
{
    lemma_pow2_pos(1074);
    lemma_size(v);
    let u = one_unit();
    let x = v.size();
    whole_numbers_are_exact(HIST_SCALE as nat);
    assert(x * (1000 * u) == (1000 * x) * u) by (nonlinear_arith);
    assert(1 * u == u);
    rounding_depends_on_the_ratio(1000 * x, 1, u);
    lemma_nearest_range(1000 * x, 1);
}

/// A number of units, counted in whole ones, is at most half a one off.
proof fn lemma_whole_ones(p: int, u: int)
    requires
        p >= 0,
        u > 0,
    ensures
        ({
            let r = (2 * p + u) / (2 * u);
            0 <= r && 2 * (r * u) - u <= 2 * p < 2 * (r * u) + u
        }),
{
    let r = (2 * p + u) / (2 * u);
    assert(r * (2 * u) <= 2 * p + u < (r + 1) * (2 * u) && r >= 0) by (nonlinear_arith)
        requires
            r == (2 * p + u) / (2 * u),
            u > 0,
            p >= 0,
    ;
    assert(r * (2 * u) == 2 * (r * u)) by (nonlinear_arith);
    assert((r + 1) * (2 * u) == 2 * (r * u) + 2 * u) by (nonlinear_arith);
}

proof fn lemma_units_monotone(a: int, b: int)
    requires
        0 <= a <= b,
    ensures
        crate::rounding::units_of(a) <= crate::rounding::units_of(b),
        crate::rounding::units_of(a) >= 0,
{
    lemma_zero_units();
    if a > 0 {
        larger_magnitudes_are_larger_values(0, a);
    }
    if a < b {
        larger_magnitudes_are_larger_values(a, b);
    }
}

/// What is not a number, and what is below a thousandth, is taken in as the smallest value that a
/// histogram holds.
pub proof fn tiny_values_are_taken_in_as_the_smallest(v: Number)
    requires
        v.nan() || v.bits >= SIGN || (v.finite() && 1000 * v.size() < one_unit()),
    ensures
        hist_units(v) == HIST_MIN,
{
    lemma_pow2_pos(1074);
    let u = one_unit();
    whole_numbers_are_exact(HIST_SCALE as nat);
    assert(1000 * u > 0);
    lemma_zero_units();
    if v.nan() {
    } else if v.bits >= SIGN {
        if v.finite() {
            lemma_units_monotone(0, v.magnitude());
            let n = v.size() * (1000 * u);
            assert(n >= 0) by (nonlinear_arith)
                requires
                    n == v.size() * (1000 * u),
                    v.size() >= 0,
                    u > 0,
            ;
            lemma_nearest_range(n, u);
        }
    } else {
        lemma_thousandfold(v);
        whole_numbers_are_exact(1);
        assert(1 * u == u);
        rounding_keeps_order(1000 * v.size(), u, 1);
        lemma_units_monotone(thousandfold(v), nearest(u, 1));
        let p = crate::rounding::units_of(thousandfold(v));
        assert(p <= u);
        lemma_whole_ones(p, u);
        let r = (2 * p + u) / (2 * u);
        assert(r <= 1) by (nonlinear_arith)
            requires
                2 * (r * u) - u <= 2 * p,
                p <= u,
                u > 0,
        ;
    }
}

/// A value from a thousandth to the largest that a histogram holds is taken in and given back to
/// within 0.00051.
pub proof fn values_keep_three_decimals(v: Number)
    requires
        v.finite(),
        v.bits < SIGN,
        one_unit() <= 1000 * v.size(),
        v.size() <= 3_600_000 * one_unit(),
    ensures
        unit_value(hist_units(v)).finite(),
        unit_value(hist_units(v)).bits < SIGN,
        100_000 * distance(unit_value(hist_units(v)).units(), v.units()) < 51 * one_unit(),
{
    lemma_pow2_pos(1074);
    lemma_pow2_strictly_increases(64, 1074);
    lemma2_to64_rest();
    let u = one_unit();
    let x = v.size();
    assert(u > 0x1_0000_0000_0000_0000);
    // the product
    lemma_thousandfold(v);
    whole_numbers_are_exact(1);
    whole_numbers_are_exact(HIST_MAX as nat);
    assert(1 * u == u);
    let m = thousandfold(v);
    rounding_keeps_order(u, 1000 * x, 1);
    rounding_keeps_order(1000 * x, 3_600_000_000 * u, 1);
    lemma_units_monotone(nearest(u, 1), m);
    lemma_units_monotone(m, nearest(3_600_000_000 * u, 1));
    let p = crate::rounding::units_of(m);
    assert(u <= p <= 3_600_000_000 * u);
    rounding_error_is_small(1000 * x, 1);
    assert(p * 1 == p);
    let off_product = distance(p, 1000 * x);
    assert(off_product * TWO53 <= 1000 * x + TWO52);
    // the whole number
    lemma_whole_ones(p, u);
    let r = (2 * p + u) / (2 * u);
    let q = r * u;
    assert(1 <= r <= 3_600_000_000) by (nonlinear_arith)
        requires
            2 * (r * u) - u <= 2 * p,
            2 * p < 2 * (r * u) + u,
            u <= p,
            p <= 3_600_000_000 * u,
            u > 0,
    ;
    assert(hist_units(v) == r);
    // the quotient
    whole_numbers_are_exact(r as nat);
    whole_numbers_are_exact(HIST_SCALE as nat);
    assert(0 < q <= 3_600_000_000 * u) by (nonlinear_arith)
        requires
            q == r * u,
            1 <= r <= 3_600_000_000,
            u > 0,
    ;
    rounding_depends_on_the_ratio(q, 1000, u);
    let back = nearest(q, 1000);
    rounding_keeps_order(q, q * 1000, 1000);
    rounding_depends_on_the_ratio(q, 1, 1000);
    lemma_nearest_range(q, 1000);
    assert(back <= nearest(q, 1));
    assert(unit_value(r as u64) == (Number { bits: back as u64 })) by {
        assert(1000 * u == 1000 * u);
        lemma_zero_units();
        assert(of_nat(HIST_SCALE as nat).magnitude() != 0);
        assert(of_nat(r as nat).magnitude() != 0);
    }
    rounding_error_is_small(q, 1000);
    let w = crate::rounding::units_of(back);
    let off_quotient = distance(w * 1000, q);
    assert(off_quotient * TWO53 <= q + 1000 * TWO52);
    assert(1000 * distance(w, x) <= off_quotient + distance(q, p) + off_product);
    assert(2 * distance(q, p) <= u);
}

/// More is taken in as no less.
pub proof fn taking_in_keeps_order(v: Number, w: Number)
    requires
        v.at_most(w),
    ensures
        hist_units(v) <= hist_units(w),
{
    lemma_pow2_pos(1074);
    let u = one_unit();
    lemma_zero_units();
    whole_numbers_are_exact(HIST_SCALE as nat);
    if v.bits >= SIGN {
        tiny_values_are_taken_in_as_the_smallest(v);
    } else if v.magnitude() == 0 {
        assert(1000 * v.size() < u);
        tiny_values_are_taken_in_as_the_smallest(v);
    } else if w.finite() {
        lemma_thousandfold(v);
        lemma_thousandfold(w);
        lemma_units_monotone(v.magnitude(), w.magnitude());
        rounding_keeps_order(1000 * v.size(), 1000 * w.size(), 1);
        let a = thousandfold(v);
        let b = thousandfold(w);
        if b < INFINITE {
            lemma_units_monotone(a, b);
            let p = crate::rounding::units_of(a);
            let q = crate::rounding::units_of(b);
            lemma_units_monotone(a, a);
            lemma_div_is_ordered(2 * p + u, 2 * q + u, 2 * u);
        }
    }
}

/// The hundredth parts of a percentage, rounded, as a magnitude.
spec fn hundredths(percent: u32) -> int {
    nearest(percent as nat * one_unit(), 100)
}

proof fn lemma_hundredths(percent: u32)
    requires
        1 <= percent <= 99,
    ensures
        of_nat(percent as nat).over(of_nat(100)) == (Number { bits: hundredths(percent) as u64 }),
        0 < hundredths(percent) < INFINITE,
        distance(100 * crate::rounding::units_of(hundredths(percent)), percent as nat * one_unit()) * TWO53
            <= percent as nat * one_unit() + 100 * TWO52,
        0 < crate::rounding::units_of(hundredths(percent)) <= one_unit(),
{
    lemma_pow2_pos(1074);
    lemma_pow2_strictly_increases(64, 1074);
    lemma2_to64_rest();
    lemma_zero_units();
    let u = one_unit();
    let n = percent as nat * u;
    assert(u <= n <= 99 * u) by (nonlinear_arith)
        requires
            n == percent as nat * u,
            1 <= percent <= 99,
            u > 0,
    ;
    whole_numbers_are_exact(percent as nat);
    whole_numbers_are_exact(100);
    whole_numbers_are_exact(1);
    rounding_depends_on_the_ratio(n, 100, u);
    rounding_depends_on_the_ratio(u, 1, 100);
    rounding_depends_on_the_ratio(1, 1, 100);
    assert(1 * u == u);
    rounding_keeps_order(n, u * 100, 100);
    rounding_keeps_order(100, n, 100);
    lemma_nearest_range(n, 100);
    assert(nearest(1, 1) == 1) by {
        lemma_fundamental_div_mod_converse(1, 1, 1, 0);
    }
    let h = hundredths(percent);
    assert(h <= nearest(u, 1));
    lemma_units_monotone(h, nearest(u, 1));
    larger_magnitudes_are_larger_values(0, h);
    rounding_error_is_small(n, 100);
}

/// What a percentage asks for does not fall as the percentage rises.
proof fn lemma_wanted_rises(hits: nat, p: u32, q: u32)
    requires
        1 <= p <= q <= 99,
    ensures
        wanted(hits, p) <= wanted(hits, q),
{
    lemma_pow2_pos(1074);
    let u = one_unit();
    lemma_hundredths(p);
    lemma_hundredths(q);
    assert(0 <= p as nat * u <= q as nat * u) by (nonlinear_arith)
        requires
            p <= q,
            u > 0,
    ;
    rounding_keeps_order(p as nat * u, q as nat * u, 100);
    lemma_units_monotone(hundredths(p), hundredths(q));
    let n = of_nat(hits);
    assert(hits * u >= 0) by (nonlinear_arith)
        requires
            hits >= 0,
            u > 0,
    ;
    lemma_nearest_range(hits * u, 1);
    lemma_size(n);
    let a = crate::rounding::units_of(hundredths(p));
    let b = crate::rounding::units_of(hundredths(q));
    assert(0 <= a * n.size() <= b * n.size()) by (nonlinear_arith)
        requires
            0 <= a <= b,
            n.size() >= 0,
    ;
    rounding_keeps_order(a * n.size(), b * n.size(), u);
    lemma_nearest_range(a * n.size(), u);
    lemma_nearest_range(b * n.size(), u);
    let x = share_of(hits, p);
    let y = share_of(hits, q);
    assert(0 <= x.magnitude() <= y.magnitude());
    lemma_units_monotone(x.magnitude(), y.magnitude());
    lemma_div_is_ordered(x.size() + u - 1, y.size() + u - 1, u);
}

/// What a percentage asks for is its share, and a hit more at most, of up to 2^40 hits.
pub(crate) proof fn lemma_wanted_is_the_share(hits: nat, percent: u32)
    requires
        1 <= percent <= 99,
        0 < hits <= 0x100_0000_0000,
    ensures
        100 * wanted(hits, percent) >= percent * hits,
        100 * (wanted(hits, percent) - 1) <= percent * hits,
{
    lemma_pow2_pos(1074);
    lemma_pow2_strictly_increases(64, 1074);
    lemma2_to64_rest();
    let u = one_unit();
    lemma_hundredths(percent);
    whole_numbers_are_exact(hits);
    let a = crate::rounding::units_of(hundredths(percent));
    let n = a * hits;
    assert(a * (hits * u) == n * u) by (nonlinear_arith)
        requires
            n == a * hits,
    ;
    assert(0 < n <= 0x100_0000_0000 * u) by (nonlinear_arith)
        requires
            n == a * hits,
            0 < a <= u,
            0 < hits <= 0x100_0000_0000,
    ;
    assert(1 * u == u);
    rounding_depends_on_the_ratio(n, 1, u);
    whole_numbers_are_exact(0x100_0000_0000);
    rounding_keeps_order(n, 0x100_0000_0000 * u, 1);
    lemma_nearest_range(n, 1);
    rounding_error_is_small(n, 1);
    let m = nearest(n, 1);
    let b = crate::rounding::units_of(m);
    assert(b * 1 == b);
    lemma_units_monotone(0, m);
    assert(hits * u > 0) by (nonlinear_arith)
        requires
            hits > 0,
            u > 0,
    ;
    lemma_zero_units();
    assert(share_of(hits, percent) == (Number { bits: m as u64 }));
    // how far the product is from the share
    let whole = percent * hits;
    let exact = percent as nat * u;
    let off = distance(100 * a, exact);
    assert(distance(100 * n, whole * u) == off * hits) by (nonlinear_arith)
        requires
            n == a * hits,
            whole == percent * hits,
            exact == percent as nat * u,
            off == distance(100 * a, exact),
            hits > 0,
    ;
    assert(exact <= 99 * u) by (nonlinear_arith)
        requires
            exact == percent as nat * u,
            percent <= 99,
            u > 0,
    ;
    let spread = off * hits;
    assert(spread * TWO53 <= (99 * u + 100 * TWO52) * 0x100_0000_0000) by (nonlinear_arith)
        requires
            spread == off * hits,
            off * TWO53 <= 99 * u + 100 * TWO52,
            0 < hits <= 0x100_0000_0000,
            off >= 0,
            u > 0,
    ;
    assert(distance(b, n) * TWO53 <= n + TWO52);
    assert(distance(100 * b, whole * u) < u) by {
        assert(distance(100 * b, whole * u) <= 100 * distance(b, n) + spread);
    }
    let w = (b + u - 1) / u;
    assert(b <= w * u <= b + u - 1) by (nonlinear_arith)
        requires
            w == (b + u - 1) / u,
            b >= 0,
            u > 0,
    ;
    assert(100 * w >= whole) by (nonlinear_arith)
        requires
            b <= w * u,
            100 * b > whole * u - u,
            u > 0,
    ;
    assert(100 * (w - 1) <= whole) by (nonlinear_arith)
        requires
            w * u <= b + u - 1,
            100 * b < whole * u + u,
            u > 0,
    ;
    assert(whole >= 1) by (nonlinear_arith)
        requires
            whole == percent * hits,
            percent >= 1,
            hits >= 1,
    ;
    assert(w >= 1);
}

/// Where some bucket reaches a percentage, a lowest one does.
pub(crate) proof fn lemma_first_to_reach(c: Multiset<u64>, percent: u32, low: u64)
    requires
        c.contains(low),
        reaches(low, c, percent),
    ensures
        exists|x: u64| first_to_reach(x, c, percent) && x <= low,
    decreases low,
{
    if !first_to_reach(low, c, percent) {
        let x = choose|x: u64| #[trigger] c.contains(x) && reaches(x, c, percent) && x < low;
        lemma_first_to_reach(c, percent, x);
        let y = choose|y: u64| first_to_reach(y, c, percent) && y <= x;
        assert(first_to_reach(y, c, percent) && y <= low);
    }
}

/// Buckets below the lowest one that reaches a percentage do not reach it together.
pub(crate) proof fn lemma_below(c: Multiset<u64>, percent: u32, low: u64, k: u64)
    requires
        first_to_reach(low, c, percent),
        k <= low,
    ensures
        c.filter(|x: u64| x < k).len() < wanted(c.len(), percent),
    decreases k,
{
    let under = c.filter(|x: u64| x < k);
    if k == 0 {
        assert(under =~= Multiset::empty());
    } else {
        let j = (k - 1) as u64;
        if c.contains(j) {
            assert(!reaches(j, c, percent));
            assert(under =~= c.filter(|x: u64| x <= j));
        } else {
            lemma_below(c, percent, low, j);
            assert(c.count(j) == 0);
            assert(under =~= c.filter(|x: u64| x < j));
        }
    }
}

/// What is among some hits is no more than they are.
pub(crate) proof fn lemma_fewer(a: Multiset<u64>, b: Multiset<u64>)
    requires
        a.subset_of(b),
    ensures
        a.len() <= b.len(),
{
    assert(b.sub(a).len() == b.len() - a.len());
}

/// The ends of a bucket are in it.
proof fn lemma_same_bucket(v: u64)
    ensures
        bucket_low(bucket_high(v)) == bucket_low(v),
{
    a_value_lies_in_its_bucket(v);
    let h = bucket_high(v);
    buckets_keep_three_digits(v as nat);
    buckets_keep_three_digits(h as nat);
    lemma_widths_double(v as nat, h as nat);
    let w = bucket_width(v as nat) as int;
    assert(bucket_width(h as nat) == w);
    let q = v as int / w;
    assert(v == q * w + v as int % w) by (nonlinear_arith)
        requires
            w > 0,
            q == v as int / w,
    ;
    lemma_fundamental_div_mod_converse(h as int, w, q, w - 1);
}

/// The value at a percentage is that of the lowest bucket that reaches it; no lower percentage has
/// a higher one; and it has the asked share of the hits at it or below, and no more than that in
/// lower buckets.
pub proof fn the_value_at_a_percentage(c: Multiset<u64>, percent: u32, low: u64)
    requires
        1 <= percent <= 99,
        first_to_reach(low, c, percent),
    ensures
        percentile_of(c, percent) == bucket_high(low),
        tops_a_bucket(bucket_high(low), c),
        no_smaller_percentile_exceeds(bucket_high(low), c, percent),
        splits(bucket_high(low), c, percent),
{
    assert(c.count(low) > 0);
    assert(c.len() > 0) by {
        if c.len() == 0 {
            assert(c =~= Multiset::empty());
        }
    }
    let v = bucket_high(low);
    let chosen = choose|x: u64| first_to_reach(x, c, percent);
    assert(first_to_reach(chosen, c, percent));
    assert(chosen == low);
    assert forall|p: u32| 1 <= p <= percent implies #[trigger] percentile_of(c, p) <= v by {
        lemma_wanted_rises(c.len(), p, percent);
        assert(reaches(low, c, p));
        lemma_first_to_reach(c, p, low);
        let x = choose|x: u64| first_to_reach(x, c, p) && x <= low;
        let y = choose|x: u64| first_to_reach(x, c, p);
        assert(x == y);
        buckets_keep_order(x, low);
    }
    if c.len() <= 0x100_0000_0000 {
        lemma_wanted_is_the_share(c.len(), percent);
        a_value_lies_in_its_bucket(low);
        let at = c.filter(|x: u64| x <= low);
        let upto = c.filter(|x: u64| x <= v);
        let under = c.filter(|x: u64| x < bucket_low(v));
        lemma_fewer(at, upto);
        lemma_same_bucket(low);
        lemma_fewer(under, c.filter(|x: u64| x < low));
        lemma_below(c, percent, low, low);
    }
}

} // verus!
