//! Means: the mean that a histogram reports is that of what was recorded.

use vstd::prelude::*;
use vstd::arithmetic::power2::{lemma_pow2_adds, lemma_pow2_pos, pow2};
use vstd::multiset::Multiset;
use crate::hist::{bucket_low, bucket_middle, mean_below, mean_of, HIST_MAX};
use crate::laws::arithmetic::{a_quotient_is_nearly_exact, a_sum_is_nearly_exact, lemma_size};
use crate::laws::histograms::{lemma_fewer, lemma_nearest_range};
use crate::laws::numbers::{distance, rounding_depends_on_the_ratio, whole_numbers_are_exact};
use crate::metrics::percentiles_of;
use crate::number::{of_nat, one_unit, zero, Number, SIGN};
use crate::rounding::{TWO52, TWO53};

verus! {

/// The values recorded below a bound added up, each taken as the middle of its bucket.
pub open spec fn added_below(c: Multiset<u64>, bound: nat) -> nat
    decreases bound,
{
    if bound == 0 {
        0
    } else {
        added_below(c, (bound - 1) as nat) + bucket_middle((bound - 1) as u64) * c.count((bound - 1) as u64)
    }
}

/// How many buckets below a bound were hit.
spec fn hit_below(c: Multiset<u64>, bound: nat) -> nat
    decreases bound,
{
    if bound == 0 {
        0
    } else if c.count((bound - 1) as u64) == 0 {
        hit_below(c, (bound - 1) as nat)
    } else {
        hit_below(c, (bound - 1) as nat) + 1
    }
}

/// The hits below a bound, bucket by bucket.
spec fn counted_below(c: Multiset<u64>, bound: nat) -> nat
    decreases bound,
{
    if bound == 0 {
        0
    } else {
        counted_below(c, (bound - 1) as nat) + c.count((bound - 1) as u64)
    }
}

proof fn lemma_counted(c: Multiset<u64>, bound: nat)
    requires
        bound <= HIST_MAX + 1,
    ensures
        counted_below(c, bound) <= c.len(),
        hit_below(c, bound) <= counted_below(c, bound),
    decreases bound,
{
    lemma_counted_filter(c, bound);
    let kept = c.filter(|x: u64| x < bound);
    assert(kept.subset_of(c)) by {
        broadcast use vstd::multiset::group_multiset_axioms;

    }
    lemma_fewer(kept, c);
    lemma_hits(c, bound);
}

proof fn lemma_hits(c: Multiset<u64>, bound: nat)
    ensures
        hit_below(c, bound) <= counted_below(c, bound),
    decreases bound,
{
    if bound > 0 {
        lemma_hits(c, (bound - 1) as nat);
    }
}

proof fn lemma_counted_filter(c: Multiset<u64>, bound: nat)
    requires
        bound <= HIST_MAX + 1,
    ensures
        c.filter(|x: u64| x < bound).len() == counted_below(c, bound),
    decreases bound,
{
    broadcast use vstd::multiset::group_multiset_axioms;

    let kept = c.filter(|x: u64| x < bound);
    if bound == 0 {
        assert(kept =~= Multiset::empty());
    } else {
        let v = (bound - 1) as u64;
        let less = (bound - 1) as nat;
        lemma_counted_filter(c, less);
        let rest = c.filter(|x: u64| x < less);
        assert(kept =~= rest.add(c.filter(|x: u64| x == v)));
        lemma_same(c, v);
    }
}

/// As many of a value as it is counted.
proof fn lemma_same(c: Multiset<u64>, v: u64)
    ensures
        c.filter(|x: u64| x == v).len() == c.count(v),
    decreases c.count(v),
{
    broadcast use vstd::multiset::group_multiset_axioms;

    let all = c.filter(|x: u64| x == v);
    if c.count(v) == 0 {
        assert(all =~= Multiset::empty());
    } else {
        let rest = c.remove(v);
        lemma_same(rest, v);
        assert(all =~= rest.filter(|x: u64| x == v).insert(v));
    }
}

proof fn lemma_unit()
    ensures
        one_unit() >= 0x1000_0000_0000 * (TWO52 * TWO53),
{
    crate::rounding::lemma_two53();
    vstd::arithmetic::power2::lemma2_to64();
    lemma_pow2_adds(52, 53);
    lemma_pow2_adds(105, 44);
    lemma_pow2_adds(149, 925);
    lemma_pow2_pos(925);
    let p = pow2(149) as int;
    let rest = pow2(925) as int;
    let u = one_unit();
    assert(pow2(44) == 0x1000_0000_0000) by {
        lemma_pow2_adds(32, 12);
    }
    assert(p == (TWO52 * TWO53) * 0x1000_0000_0000);
    assert(u >= p) by (nonlinear_arith)
        requires
            u == p * rest,
            p > 0,
            rest > 0,
    ;
}

/// Whole numbers are multiplied exactly.
proof fn lemma_product(a: nat, b: nat)
    requires
        a <= TWO53,
        b <= TWO53,
        a * b <= TWO53,
    ensures
        of_nat(a).times(of_nat(b)) == of_nat(a * b),
{
    lemma_pow2_pos(1074);
    let u = one_unit();
    whole_numbers_are_exact(a);
    whole_numbers_are_exact(b);
    let n = (a * b) as int;
    assert((a * u) * (b * u) == (n * u) * u) by (nonlinear_arith)
        requires
            n == a * b,
    ;
    assert(n * u >= 0) by (nonlinear_arith)
        requires
            n >= 0,
            u > 0,
    ;
    rounding_depends_on_the_ratio(n * u, 1, u);
    assert(1 * u == u);
}

/// A quotient of whole numbers is not negative.
proof fn lemma_positive_quotient(a: Number, b: Number)
    requires
        a.finite(),
        b.finite(),
        a.units() >= 0,
        b.units() > 0,
        a.bits < SIGN,
    ensures
        a.over(b).units() >= 0,
{
    lemma_pow2_pos(1074);
    lemma_size(a);
    lemma_size(b);
    lemma_size(a.over(b));
    let n = a.size() * one_unit();
    assert(n >= 0) by (nonlinear_arith)
        requires
            n == a.size() * one_unit(),
            a.size() >= 0,
            one_unit() > 0,
    ;
    lemma_nearest_range(n, b.size());
}

/// A sum of numbers that are not negative is not negative.
proof fn lemma_sum_of_positives(a: Number, b: Number)
    requires
        a.finite(),
        b.finite(),
        a.units() >= 0,
        b.units() >= 0,
    ensures
        a.plus(b).units() >= 0,
{
    let total = a.units() + b.units();
    lemma_size(a.plus(b));
    if total > 0 {
        lemma_nearest_range(total, 1);
    }
}

/// One more bucket in the mean: how far off it can be.
proof fn lemma_step(m: Number, n: nat, w: nat, h: nat, x: nat)
    requires
        m.finite(),
        m.units() >= 0,
        1 <= n <= 0x100_0000_0000,
        h < n,
        x >= 1,
        w + x <= TWO52,
        distance(n * m.units(), w * one_unit()) * TWO53 <= 8 * h * w * one_unit(),
    ensures
        m.plus(of_nat(x).over(of_nat(n))).finite(),
        m.plus(of_nat(x).over(of_nat(n))).units() >= 0,
        distance(n * m.plus(of_nat(x).over(of_nat(n))).units(), (w + x) * one_unit()) * TWO53 <= 8 * (h + 1) * (w + x)
            * one_unit(),
{
    lemma_unit();
    let u = one_unit();
    let nn = n as int;
    whole_numbers_are_exact(x);
    whole_numbers_are_exact(n);
    assert(x * u <= (nn * u) * TWO53 && x * u >= 0 && nn * u > 0) by (nonlinear_arith)
        requires
            1 <= x <= TWO52,
            nn >= 1,
            u > 0,
            TWO52 <= TWO53,
    ;
    let q = of_nat(x).over(of_nat(n));
    a_quotient_is_nearly_exact(of_nat(x), of_nat(n));
    lemma_size(q);
    lemma_positive_quotient(of_nat(x), of_nat(n));
    let qq = q.units();
    let dq = distance(nn * qq, x * u);
    let eq = distance(qq * (nn * u), (x * u) * u);
    assert(eq == dq * u) by {
        let b = nn * qq - x * u;
        assert(qq * (nn * u) - (x * u) * u == b * u) by (nonlinear_arith)
            requires
                b == nn * qq - x * u,
        ;
        assert((-b) * u == -(b * u)) by (nonlinear_arith);
        assert(b >= 0 <==> b * u >= 0) by (nonlinear_arith)
            requires
                u > 0,
        ;
    }
    let small = nn * TWO52;
    assert(small <= u) by (nonlinear_arith)
        requires
            small == nn * TWO52,
            nn <= 0x100_0000_0000,
            u >= 0x1000_0000_0000 * (TWO52 * TWO53),
            TWO53 >= 1,
            TWO52 >= 1,
    ;
    assert(dq * TWO53 <= x * u + small) by (nonlinear_arith)
        requires
            (dq * u) * TWO53 <= (x * u) * u + (nn * u) * TWO52,
            small == nn * TWO52,
            u > 0,
    ;
    let xu = x * u;
    let wu = w * u;
    assert(xu >= u) by (nonlinear_arith)
        requires
            xu == x * u,
            x >= 1,
            u > 0,
    ;
    assert(wu >= 0) by (nonlinear_arith)
        requires
            wu == w * u,
            w >= 0,
            u > 0,
    ;
    let mm = m.units();
    let dm = distance(nn * mm, wu);
    assert(8 * h * w * u == 8 * (h * wu)) by (nonlinear_arith)
        requires
            wu == w * u,
    ;
    assert(dm <= wu) by (nonlinear_arith)
        requires
            dm * TWO53 <= 8 * (h * wu),
            h <= 0x100_0000_0000,
            wu >= 0,
            TWO53 == 0x20_0000_0000_0000,
    ;
    let total = mm + qq;
    let nt = nn * total;
    assert(nt == nn * mm + nn * qq) by (nonlinear_arith)
        requires
            nt == nn * total,
            total == mm + qq,
    ;
    assert(nt <= 2 * (wu + xu));
    let sum = wu + xu;
    assert(sum == (w + x) * u) by (nonlinear_arith)
        requires
            sum == wu + xu,
            wu == w * u,
            xu == x * u,
    ;
    assert(sum <= TWO52 * u) by (nonlinear_arith)
        requires
            sum == (w + x) * u,
            w + x <= TWO52,
            u > 0,
    ;
    assert(total <= nt) by (nonlinear_arith)
        requires
            nt == nn * total,
            nn >= 1,
            total >= 0,
    ;
    assert(2 * (TWO52 * u) == TWO53 * u) by (nonlinear_arith)
        requires
            TWO53 == 2 * TWO52,
    ;
    a_sum_is_nearly_exact(m, q);
    lemma_sum_of_positives(m, q);
    let r = m.plus(q).units();
    let dr = distance(r, total);
    assert(dr * TWO53 <= total + TWO52);
    let far = distance(nn * r, sum);
    assert(distance(nn * r, nt) == nn * dr) by {
        let b = r - total;
        assert(nn * r - nt == nn * b) by (nonlinear_arith)
            requires
                b == r - total,
                nt == nn * total,
        ;
        assert(nn * (-b) == -(nn * b)) by (nonlinear_arith);
        assert(b >= 0 <==> nn * b >= 0) by (nonlinear_arith)
            requires
                nn >= 1,
        ;
    }
    assert(far <= nn * dr + dm + dq);
    assert((nn * dr) * TWO53 <= nt + small) by (nonlinear_arith)
        requires
            dr * TWO53 <= total + TWO52,
            nt == nn * total,
            small == nn * TWO52,
            nn >= 1,
    ;
    let hw = h * wu;
    let hs = h * sum;
    assert(hw <= hs) by (nonlinear_arith)
        requires
            hw == h * wu,
            hs == h * sum,
            sum >= wu,
            h >= 0,
    ;
    assert(far * TWO53 <= 8 * hs + 8 * sum);
    assert(8 * (h + 1) * (w + x) * u == 8 * hs + 8 * sum) by (nonlinear_arith)
        requires
            hs == h * sum,
            sum == (w + x) * u,
    ;
}

/// The contents are lowest values of buckets, and none of them is zero.
pub open spec fn are_buckets(c: Multiset<u64>) -> bool {
    forall|x: u64| #[trigger] c.contains(x) ==> x >= 1 && bucket_low(x) == x
}

proof fn lemma_mean_below(c: Multiset<u64>, bound: nat)
    requires
        bound <= HIST_MAX + 1,
        1 <= c.len() <= 0x100_0000_0000,
        are_buckets(c),
        added_below(c, bound) <= TWO52,
    ensures
        mean_below(c, bound).finite(),
        mean_below(c, bound).units() >= 0,
        distance(c.len() * mean_below(c, bound).units(), added_below(c, bound) * one_unit()) * TWO53 <= 8 * hit_below(
            c,
            bound,
        ) * added_below(c, bound) * one_unit(),
    decreases bound,
{
    let n = c.len();
    if bound == 0 {
        let m = zero(false);
        lemma_size(m);
        assert(n * m.units() == 0) by (nonlinear_arith)
            requires
                m.units() == 0,
        ;
        assert(0 * one_unit() == 0) by (nonlinear_arith);
        assert(8 * 0 * 0 * one_unit() == 0) by (nonlinear_arith);
    } else {
        let low = (bound - 1) as u64;
        let less = (bound - 1) as nat;
        let x = bucket_middle(low) * c.count(low);
        assert(x >= 0) by (nonlinear_arith)
            requires
                x == bucket_middle(low) * c.count(low),
                bucket_middle(low) >= 0,
                c.count(low) >= 0,
        ;
        lemma_mean_below(c, less);
        if c.count(low) == 0 {
            assert(x == 0) by (nonlinear_arith)
                requires
                    x == bucket_middle(low) * c.count(low),
                    c.count(low) == 0,
            ;
        } else {
            assert(c.contains(low));
            lemma_counted(c, bound);
            let a = bucket_middle(low);
            let b = c.count(low);
            assert(x >= 1 && a <= x && b <= x) by (nonlinear_arith)
                requires
                    x == a * b,
                    a >= 1,
                    b >= 1,
            ;
            lemma_product(a, b);
            lemma_step(mean_below(c, less), n, added_below(c, less), hit_below(c, less), x);
        }
    }
}

/// The mean that a histogram reports is that of what was recorded, each value taken as the middle of
/// its bucket: as often as there are values, and a thousand times for the scale, it is their sum, up to
/// what the roundings of the additions come to.
pub proof fn the_mean_of_a_histogram_is_that_of_its_values(c: Multiset<u64>)
    requires
        1 <= c.len() <= 0x100_0000_0000,
        are_buckets(c),
        added_below(c, HIST_MAX as nat + 1) <= TWO52,
    ensures
        ({
            let n = c.len();
            let total = added_below(c, HIST_MAX as nat + 1);
            let mean = percentiles_of(c).mean;
            &&& mean.finite()
            &&& distance(1000 * n * mean.units(), total * one_unit()) * TWO53 <= 8 * (n + 1) * (total + 1) * one_unit()
        }),
{
    let bound = HIST_MAX as nat + 1;
    let n = c.len() as int;
    let w = added_below(c, bound) as int;
    let h = hit_below(c, bound) as int;
    let u = one_unit();
    lemma_unit();
    lemma_counted(c, bound);
    lemma_mean_below(c, bound);
    let m = mean_below(c, bound);
    assert(m == Number { bits: mean_of(c) });
    let mm = m.units();
    let wu = w * u;
    let hw = h * wu;
    assert(8 * h * w * u == 8 * hw) by (nonlinear_arith)
        requires
            hw == h * wu,
            wu == w * u,
    ;
    let dm = distance(n * mm, wu);
    assert(dm * TWO53 <= 8 * hw);
    assert(0 <= wu <= TWO52 * u) by (nonlinear_arith)
        requires
            wu == w * u,
            0 <= w <= TWO52,
            u > 0,
    ;
    assert(dm <= wu) by (nonlinear_arith)
        requires
            dm * TWO53 <= 8 * hw,
            hw == h * wu,
            0 <= h <= 0x100_0000_0000,
            wu >= 0,
            TWO53 == 0x20_0000_0000_0000,
    ;
    assert(mm <= n * mm) by (nonlinear_arith)
        requires
            n >= 1,
            mm >= 0,
    ;
    whole_numbers_are_exact(1000);
    let scale = of_nat(1000);
    assert(2 * (TWO52 * u) == TWO53 * u) by (nonlinear_arith)
        requires
            TWO53 == 2 * TWO52,
    ;
    assert(mm <= (1000 * u) * TWO53) by (nonlinear_arith)
        requires
            mm <= TWO53 * u,
            u > 0,
    ;
    a_quotient_is_nearly_exact(m, scale);
    let r = m.over(scale).units();
    assert(percentiles_of(c).mean == m.over(scale));
    let d = distance(1000 * r, mm);
    assert(distance(r * (1000 * u), mm * u) == d * u) by {
        let b = 1000 * r - mm;
        assert(r * (1000 * u) - mm * u == b * u) by (nonlinear_arith)
            requires
                b == 1000 * r - mm,
        ;
        assert((-b) * u == -(b * u)) by (nonlinear_arith);
        assert(b >= 0 <==> b * u >= 0) by (nonlinear_arith)
            requires
                u > 0,
        ;
    }
    assert(d * TWO53 <= mm + 1000 * TWO52) by (nonlinear_arith)
        requires
            (d * u) * TWO53 <= mm * u + (1000 * u) * TWO52,
            u > 0,
    ;
    let nm = n * mm;
    let nd = n * d;
    let small = n * (1000 * TWO52);
    assert(small <= u) by (nonlinear_arith)
        requires
            small == n * (1000 * TWO52),
            n <= 0x100_0000_0000,
            u >= 0x1000_0000_0000 * (TWO52 * TWO53),
            TWO53 == 0x20_0000_0000_0000,
            TWO52 >= 1,
    ;
    assert(nd * TWO53 <= nm + small) by (nonlinear_arith)
        requires
            nd == n * d,
            nm == n * mm,
            small == n * (1000 * TWO52),
            d * TWO53 <= mm + 1000 * TWO52,
            n >= 1,
    ;
    let scaled = 1000 * n * r;
    assert(distance(scaled, nm) == nd) by {
        let b = 1000 * r - mm;
        assert(scaled - nm == n * b) by (nonlinear_arith)
            requires
                b == 1000 * r - mm,
                scaled == 1000 * n * r,
                nm == n * mm,
        ;
        assert(n * (-b) == -(n * b)) by (nonlinear_arith);
        assert(b >= 0 <==> n * b >= 0) by (nonlinear_arith)
            requires
                n >= 1,
        ;
    }
    let far = distance(scaled, wu);
    assert(far <= nd + dm);
    assert(far * TWO53 <= 2 * wu + u + 8 * hw);
    let nw = n * wu;
    let nu = n * u;
    assert(hw <= nw) by (nonlinear_arith)
        requires
            hw == h * wu,
            nw == n * wu,
            h <= n,
            wu >= 0,
    ;
    assert(nu >= 0) by (nonlinear_arith)
        requires
            nu == n * u,
            n >= 1,
            u > 0,
    ;
    assert(8 * (n + 1) * (w + 1) * u == 8 * (nw + nu + wu + u)) by (nonlinear_arith)
        requires
            nw == n * wu,
            wu == w * u,
            nu == n * u,
    ;
}

} // verus!
