//! Gauges: the shape of a gauge is that of its samples, and its slope the least-squares one.

use vstd::prelude::*;
use vstd::arithmetic::power2::{lemma2_to64_rest, lemma_pow2_adds, lemma_pow2_pos, lemma_pow2_strictly_increases};
use crate::laws::arithmetic::{
    a_difference_is_nearly_exact, a_product_is_nearly_exact, a_quotient_is_nearly_exact, a_sum_is_nearly_exact, abs,
    lemma_size, whole_numbers_add_up,
};
use crate::laws::numbers::{distance, order_is_that_of_the_values, rounding_depends_on_the_ratio, whole_numbers_are_exact};
use crate::metrics::{
    gauge_stats, greatest_of, mean_number, products, spreads, total_of, xs_of, ys_of,
};
use crate::number::{of_nat, one_unit, zero, Number};
use crate::rounding::{TWO52, TWO53};

verus! {

/// The sum of some integers.
pub open spec fn sum(s: Seq<int>) -> int
    decreases s.len(),
{
    if s.len() == 0 {
        0
    } else {
        sum(s.drop_last()) + s.last()
    }
}

/// The products of two rows of integers.
pub open spec fn paired(a: Seq<int>, b: Seq<int>) -> Seq<int> {
    Seq::new(a.len(), |i: int| a[i] * b[i])
}

/// The number of samples times the sum of the products, less the product of the sums.
pub open spec fn covariation(a: Seq<int>, b: Seq<int>) -> int {
    a.len() * sum(paired(a, b)) - sum(a) * sum(b)
}

/// The seconds of some samples.
pub open spec fn seconds(points: Seq<(u64, Number)>) -> Seq<int> {
    Seq::new(points.len(), |i: int| points[i].0 as int)
}

/// The samples have these whole values.
pub open spec fn has_values(points: Seq<(u64, Number)>, values: Seq<int>) -> bool {
    &&& values.len() == points.len()
    &&& forall|i: int|
        0 <= i < points.len() ==> (#[trigger] points[i]).1.finite() && points[i].1.units() == values[i] * one_unit()
}

/// How much is allowed for rounding: one part in 2^50.
pub open spec fn grain() -> int {
    0x4_0000_0000_0000
}

proof fn lemma_scale()
    ensures
        one_unit() > 0x1_0000_0000_0000_0000,
        one_unit() > 4 * grain() * grain(),
        TWO53 == 8 * grain(),
        TWO52 == 4 * grain(),
{
    lemma_pow2_pos(1074);
    lemma_pow2_strictly_increases(64, 1074);
    lemma_pow2_strictly_increases(128, 1074);
    lemma_pow2_adds(64, 64);
    lemma2_to64_rest();
}

proof fn lemma_products(a: int, b: int, c: int, d: int)
    requires
        0 <= a <= c,
        0 <= b <= d,
    ensures
        0 <= a * b <= c * d,
        abs(a * b) == a * b,
{
    assert(0 <= a * b <= c * d) by (nonlinear_arith)
        requires
            0 <= a <= c,
            0 <= b <= d,
    ;
}

proof fn lemma_abs_product(a: int, b: int)
    ensures
        abs(a * b) == abs(a) * abs(b),
{
    assert(abs(a * b) == abs(a) * abs(b)) by (nonlinear_arith);
}

/// Numbers that are whole add up to the sum of the integers.
proof fn lemma_total_whole(s: Seq<Number>, k: Seq<int>, bound: int)
    requires
        s.len() == k.len(),
        forall|i: int| 0 <= i < s.len() ==> (#[trigger] s[i]).finite() && s[i].units() == k[i] * one_unit(),
        forall|i: int| 0 <= i < k.len() ==> abs(#[trigger] k[i]) <= bound,
        bound >= 0,
        s.len() * bound <= TWO53,
    ensures
        total_of(s).finite(),
        total_of(s).units() == sum(k) * one_unit(),
        abs(sum(k)) <= s.len() * bound,
    decreases s.len(),
{
    lemma_scale();
    if s.len() == 0 {
        assert(0 * one_unit() == 0) by (nonlinear_arith);
        lemma_zero();
        assert(s.len() * bound == 0) by (nonlinear_arith)
            requires
                s.len() == 0,
        ;
    } else {
        let n = s.len() as int;
        let s1 = s.drop_last();
        let k1 = k.drop_last();
        assert((n - 1) * bound <= n * bound) by (nonlinear_arith)
            requires
                bound >= 0,
        ;
        assert((n - 1) * bound + bound == n * bound) by (nonlinear_arith);
        assert forall|i: int| 0 <= i < s1.len() implies (#[trigger] s1[i]).finite() && s1[i].units() == k1[i]
            * one_unit() by {
            assert(s1[i] == s[i]);
        }
        assert forall|i: int| 0 <= i < k1.len() implies abs(#[trigger] k1[i]) <= bound by {
            assert(k1[i] == k[i]);
        }
        lemma_total_whole(s1, k1, bound);
        let x = s[n - 1];
        assert(x.finite() && x.units() == k[n - 1] * one_unit());
        assert(abs(k[n - 1]) <= bound);
        whole_numbers_add_up(total_of(s1), x, sum(k1), k[n - 1]);
    }
}

proof fn lemma_zero()
    ensures
        zero(true).finite(),
        zero(true).units() == 0,
        zero(false).finite(),
        zero(false).units() == 0,
{
    crate::laws::numbers::whole_sums_are_exact(0, 0);
    whole_numbers_are_exact(0);
    assert(0 * one_unit() == 0) by (nonlinear_arith);
    assert(zero(true).magnitude() == 0 && zero(false).magnitude() == 0);
}

/// The mean of whole numbers is off by at most one part in 2^52 of their bound.
pub(crate) proof fn lemma_mean(s: Seq<Number>, k: Seq<int>, bound: int)
    requires
        s.len() > 0,
        s.len() == k.len(),
        forall|i: int| 0 <= i < s.len() ==> (#[trigger] s[i]).finite() && s[i].units() == k[i] * one_unit(),
        forall|i: int| 0 <= i < k.len() ==> abs(#[trigger] k[i]) <= bound,
        bound >= 1,
        s.len() * bound <= TWO53,
    ensures
        mean_number(s).finite(),
        distance(s.len() * mean_number(s).units(), sum(k) * one_unit()) * TWO52 <= s.len() * bound * one_unit(),
        abs(sum(k)) <= s.len() * bound,
{
    lemma_scale();
    let u = one_unit();
    let n = s.len() as int;
    lemma_total_whole(s, k, bound);
    assert(n <= n * bound) by (nonlinear_arith)
        requires
            n > 0,
            bound >= 1,
    ;
    whole_numbers_are_exact(s.len());
    let total = total_of(s);
    let count = of_nat(s.len());
    let d = n * u;
    assert(d > 0) by (nonlinear_arith)
        requires
            d == n * u,
            n > 0,
            u > 0,
    ;
    let t = sum(k);
    assert(abs(t * u) == abs(t) * u) by (nonlinear_arith)
        requires
            u > 0,
    ;
    assert(abs(t) * u <= d * TWO53) by (nonlinear_arith)
        requires
            abs(t) <= n * bound,
            n * bound <= TWO53,
            d == n * u,
            n >= 1,
            u > 0,
    ;
    a_quotient_is_nearly_exact(total, count);
    let m = mean_number(s).units();
    let off = distance(n * m, t * u);
    assert(distance(m * d, (t * u) * u) == off * u) by (nonlinear_arith)
        requires
            d == n * u,
            off == distance(n * m, t * u),
            u > 0,
    ;
    assert(off * TWO53 <= abs(t) * u + n * TWO52) by (nonlinear_arith)
        requires
            (off * u) * TWO53 <= (abs(t) * u) * u + d * TWO52,
            d == n * u,
            u > 0,
    ;
    let b = n * bound;
    assert(abs(t) * u <= b * u && n * TWO52 <= b * u) by (nonlinear_arith)
        requires
            abs(t) <= b,
            n <= b,
            n > 0,
            u > TWO52,
    ;
}

/// How far a value is from the mean, rounded: `n` times it is `n` times the value less the sum.
proof fn lemma_deviation(x: Number, mean: Number, k: int, total: int, n: int, reach: int)
    requires
        x.finite(),
        mean.finite(),
        x.units() == k * one_unit(),
        n >= 1,
        reach >= 1,
        n * reach <= TWO52,
        abs(n * k - total) <= n * reach,
        distance(n * mean.units(), total * one_unit()) * TWO52 <= n * reach * one_unit(),
    ensures
        x.minus(mean).finite(),
        distance(n * x.minus(mean).units(), (n * k - total) * one_unit()) * grain() <= n * reach * one_unit(),
{
    lemma_scale();
    let u = one_unit();
    let m = mean.units();
    let a = n * k - total;
    let e = n * m - total * u;
    let b = n * reach;
    let r = b * u;
    let gap = k * u - m;
    assert(n * gap == a * u - e) by (nonlinear_arith)
        requires
            gap == k * u - m,
            a == n * k - total,
            e == n * m - total * u,
    ;
    assert(abs(a * u) <= r) by (nonlinear_arith)
        requires
            abs(a) <= b,
            r == b * u,
            u > 0,
    ;
    assert(abs(e) <= r);
    let w = 2 * (reach * u);
    assert(abs(gap) <= w) by (nonlinear_arith)
        requires
            abs(n * gap) <= 2 * r,
            r == (n * reach) * u,
            w == 2 * (reach * u),
            n >= 1,
    ;
    assert(reach <= TWO52) by (nonlinear_arith)
        requires
            n * reach <= TWO52,
            n >= 1,
            reach >= 1,
    ;
    assert(w <= TWO53 * u) by (nonlinear_arith)
        requires
            w == 2 * (reach * u),
            reach <= TWO52,
            TWO53 == 2 * TWO52,
            u > 0,
    ;
    a_difference_is_nearly_exact(x, mean);
    let p = x.minus(mean).units();
    let off = distance(p, gap);
    assert(off * TWO53 <= abs(gap) + TWO52);
    assert(off * TWO53 <= 3 * (reach * u)) by {
        assert(TWO52 <= reach * u) by (nonlinear_arith)
            requires
                reach >= 1,
                u > TWO52,
        ;
    }
    let q = distance(n * p, a * u);
    assert(distance(n * p, n * gap) == n * off) by (nonlinear_arith)
        requires
            off == distance(p, gap),
            n >= 1,
    ;
    assert((n * off) * TWO53 <= 3 * r) by (nonlinear_arith)
        requires
            off * TWO53 <= 3 * (reach * u),
            r == (n * reach) * u,
            n >= 1,
    ;
    assert(q <= n * off + abs(e));
}

/// A product of two deviations, rounded: `n` squared times it is the product of the exact ones.
proof fn lemma_term(p: Number, q: Number, a: int, b: int, n: int, x: int, y: int)
    requires
        p.finite(),
        q.finite(),
        n >= 1,
        x >= 1,
        y >= 1,
        n * x <= TWO52,
        n * y <= TWO52,
        x * y <= grain(),
        abs(a) <= n * x,
        abs(b) <= n * y,
        distance(n * p.units(), a * one_unit()) * grain() <= n * x * one_unit(),
        distance(n * q.units(), b * one_unit()) * grain() <= n * y * one_unit(),
    ensures
        p.times(q).finite(),
        distance((n * n) * p.times(q).units(), (a * b) * one_unit()) * grain() <= 4 * ((n * n) * (x * y) * one_unit()),
        abs(p.times(q).units()) <= 2 * ((x * y) * one_unit()),
{
    lemma_scale();
    let u = one_unit();
    let k = grain();
    let pu = p.units();
    let qu = q.units();
    let np = n * pu;
    let nq = n * qu;
    let nx = n * x;
    let ny = n * y;
    let d = np - a * u;
    let e = nq - b * u;
    // the deviations are at most twice their bounds
    assert(abs(a * u) <= nx * u && abs(b * u) <= ny * u) by (nonlinear_arith)
        requires
            abs(a) <= nx,
            abs(b) <= ny,
            u > 0,
    ;
    assert(abs(d) <= nx * u && abs(e) <= ny * u);
    assert(abs(pu) <= 2 * (x * u)) by (nonlinear_arith)
        requires
            abs(n * pu) <= 2 * ((n * x) * u),
            n >= 1,
    ;
    assert(abs(qu) <= 2 * (y * u)) by (nonlinear_arith)
        requires
            abs(n * qu) <= 2 * ((n * y) * u),
            n >= 1,
    ;
    let xy = x * y;
    let uu = u * u;
    assert(xy >= 1) by (nonlinear_arith)
        requires
            xy == x * y,
            x >= 1,
            y >= 1,
    ;
    assert(abs(pu) * abs(qu) <= 4 * (xy * uu)) by (nonlinear_arith)
        requires
            abs(pu) <= 2 * (x * u),
            abs(qu) <= 2 * (y * u),
            xy == x * y,
            uu == u * u,
            x >= 1,
            y >= 1,
            u > 0,
    ;
    assert(4 * (xy * uu) <= u * (TWO53 * u)) by (nonlinear_arith)
        requires
            1 <= xy <= k,
            TWO53 == 8 * k,
            uu == u * u,
            u > 0,
    ;
    a_product_is_nearly_exact(p, q);
    let t = p.times(q).units();
    let off = distance(t * u, pu * qu);
    assert(u * TWO52 <= xy * uu) by (nonlinear_arith)
        requires
            xy >= 1,
            uu == u * u,
            u > TWO52,
    ;
    assert(off * TWO53 <= 5 * (xy * uu));
    // the exact product
    let nn = n * n;
    let au = a * u;
    let bu = b * u;
    assert(np * nq == nn * (pu * qu)) by (nonlinear_arith)
        requires
            nn == n * n,
            np == n * pu,
            nq == n * qu,
    ;
    assert(au * bu == (a * b) * uu) by (nonlinear_arith)
        requires
            au == a * u,
            bu == b * u,
            uu == u * u,
    ;
    assert(np * nq == d * nq + au * nq) by (nonlinear_arith)
        requires
            np == d + au,
    ;
    assert(au * nq == au * e + au * bu) by (nonlinear_arith)
        requires
            nq == e + bu,
    ;
    let z = nn * xy * uu;
    let rx = nx * u;
    let ry = ny * u;
    assert(rx * ry == z) by (nonlinear_arith)
        requires
            rx == (n * x) * u,
            ry == (n * y) * u,
            z == (n * n) * (x * y) * (u * u),
    ;
    lemma_abs_product(d, nq);
    lemma_abs_product(au, e);
    lemma_products(abs(d) * k, abs(nq), rx, 2 * ry);
    lemma_products(abs(au), abs(e) * k, rx, ry);
    assert(abs(d * nq) * k <= 2 * z) by (nonlinear_arith)
        requires
            abs(d * nq) == abs(d) * abs(nq),
            (abs(d) * k) * abs(nq) <= rx * (2 * ry),
            rx * ry == z,
    ;
    assert(abs(au * e) * k <= z) by (nonlinear_arith)
        requires
            abs(au * e) == abs(au) * abs(e),
            abs(au) * (abs(e) * k) <= z,
    ;
    assert(distance(nn * (t * u), nn * (pu * qu)) == nn * off) by (nonlinear_arith)
        requires
            off == distance(t * u, pu * qu),
            nn == n * n,
            n >= 1,
    ;
    assert((nn * off) * k <= z) by (nonlinear_arith)
        requires
            off * TWO53 <= 5 * (xy * uu),
            TWO53 == 8 * k,
            z == nn * xy * uu,
            nn == n * n,
            n >= 1,
            off >= 0,
            k > 0,
    ;
    let far = distance(nn * (t * u), (a * b) * uu);
    assert(far <= nn * off + abs(d * nq) + abs(au * e));
    assert(far * k <= 4 * z) by (nonlinear_arith)
        requires
            far <= nn * off + abs(d * nq) + abs(au * e),
            (nn * off) * k <= z,
            abs(d * nq) * k <= 2 * z,
            abs(au * e) * k <= z,
            k > 0,
    ;
    let near = distance(nn * t, (a * b) * u);
    assert(far == near * u) by (nonlinear_arith)
        requires
            far == distance(nn * (t * u), (a * b) * uu),
            near == distance(nn * t, (a * b) * u),
            uu == u * u,
            u > 0,
    ;
    assert(near * k <= 4 * (nn * xy * u)) by (nonlinear_arith)
        requires
            (near * u) * k <= 4 * (nn * xy * uu),
            uu == u * u,
            u > 0,
    ;
    assert(abs((a * b) * u) <= nn * xy * u) by (nonlinear_arith)
        requires
            abs(a) <= n * x,
            abs(b) <= n * y,
            nn == n * n,
            xy == x * y,
            n >= 1,
            x >= 1,
            y >= 1,
            u > 0,
    ;
    assert(near <= nn * xy * u) by (nonlinear_arith)
        requires
            near * k <= 4 * (nn * xy * u),
            k >= 4,
            near >= 0,
    ;
    assert(nn >= 1) by (nonlinear_arith)
        requires
            nn == n * n,
            n >= 1,
    ;
    assert(abs(t) <= 2 * (xy * u)) by (nonlinear_arith)
        requires
            abs(nn * t) <= 2 * (nn * xy * u),
            nn >= 1,
    ;
}

/// The deviations of some values from their mean, exactly and rounded.
spec fn deviates(ps: Seq<Number>, a: Seq<int>, n: int, x: int) -> bool {
    &&& ps.len() == a.len()
    &&& forall|i: int|
        0 <= i < ps.len() ==> (#[trigger] ps[i]).finite() && abs(a[i]) <= n * x && distance(
            n * ps[i].units(),
            a[i] * one_unit(),
        ) * grain() <= n * x * one_unit()
}

spec fn terms(ps: Seq<Number>, qs: Seq<Number>) -> Seq<Number> {
    Seq::new(ps.len(), |i: int| ps[i].times(qs[i]))
}

/// One more step of a sum.
proof fn lemma_step(s: int, t: int, r: int, c: int, ab: int, j: int, n: int, xy: int, u: int)
    requires
        0 <= j < n,
        xy >= 1,
        u > 0x1_0000_0000_0000_0000,
        distance((n * n) * s, c * u) * grain() <= 5 * j * ((n * n * n) * xy * u),
        distance((n * n) * t, ab * u) * grain() <= 4 * ((n * n) * xy * u),
        abs(s) <= 2 * j * (xy * u),
        abs(t) <= 2 * (xy * u),
        distance(r, s + t) * (8 * grain()) <= abs(s + t) + 4 * grain(),
    ensures
        distance((n * n) * r, (c + ab) * u) * grain() <= 5 * (j + 1) * ((n * n * n) * xy * u),
{
    let k = grain();
    let nn = n * n;
    let w = xy * u;
    assert(w >= u) by (nonlinear_arith)
        requires
            w == xy * u,
            xy >= 1,
            u > 0,
    ;
    let off = distance(r, s + t);
    assert(abs(s + t) <= 2 * (j + 1) * w) by (nonlinear_arith)
        requires
            abs(s) <= 2 * j * w,
            abs(t) <= 2 * w,
    ;
    assert(off * (8 * k) <= (2 * j + 3) * w) by (nonlinear_arith)
        requires
            off * (8 * k) <= 2 * (j + 1) * w + w,
    ;
    assert(off * k <= n * w) by (nonlinear_arith)
        requires
            off * (8 * k) <= (2 * j + 3) * w,
            0 <= j < n,
            w > 0,
    ;
    let nw = n * w;
    let big = (n * n * n) * xy * u;
    assert(nn * nw == big) by (nonlinear_arith)
        requires
            nn == n * n,
            nw == n * w,
            w == xy * u,
            big == (n * n * n) * xy * u,
    ;
    assert(nn >= 1 && nn * xy * u <= big) by (nonlinear_arith)
        requires
            nn == n * n,
            n >= 1,
            big == (n * n * n) * xy * u,
            xy >= 1,
            u > 0,
    ;
    assert((nn * off) * k <= big) by (nonlinear_arith)
        requires
            off * k <= nw,
            nn * nw == big,
            nn >= 1,
    ;
    let x1 = distance(nn * s, c * u);
    let x2 = distance(nn * t, ab * u);
    assert(nn * (s + t) == nn * s + nn * t) by (nonlinear_arith);
    assert((c + ab) * u == c * u + ab * u) by (nonlinear_arith);
    assert(distance(nn * r, nn * (s + t)) == nn * off) by (nonlinear_arith)
        requires
            off == distance(r, s + t),
            nn >= 1,
    ;
    let y = distance(nn * r, (c + ab) * u);
    assert(y <= nn * off + x1 + x2);
    assert(y * k <= big + 5 * j * big + 4 * big) by (nonlinear_arith)
        requires
            y <= nn * off + x1 + x2,
            (nn * off) * k <= big,
            x1 * k <= 5 * j * big,
            x2 * k <= 4 * big,
            k > 0,
    ;
    assert(big + 5 * j * big + 4 * big == 5 * (j + 1) * big) by (nonlinear_arith);
}

/// A sum that is that near is not large.
proof fn lemma_bounded(s: int, c: int, j: int, n: int, xy: int, u: int)
    requires
        0 <= j <= n,
        1 <= n,
        5 * n <= grain(),
        xy >= 1,
        u > 0,
        abs(c) <= j * ((n * n) * xy),
        distance((n * n) * s, c * u) * grain() <= 5 * j * ((n * n * n) * xy * u),
    ensures
        abs(s) <= 2 * j * (xy * u),
{
    let k = grain();
    let nn = n * n;
    let z = nn * xy * u;
    assert(abs(c * u) <= j * z) by (nonlinear_arith)
        requires
            abs(c) <= j * (nn * xy),
            z == nn * xy * u,
            u > 0,
    ;
    let off = distance(nn * s, c * u);
    assert(5 * j * ((n * n * n) * xy * u) == (5 * n) * (j * z)) by (nonlinear_arith)
        requires
            z == nn * xy * u,
            nn == n * n,
    ;
    let jz = j * z;
    assert(jz >= 0) by (nonlinear_arith)
        requires
            jz == j * z,
            z == nn * xy * u,
            nn == n * n,
            j >= 0,
            xy >= 1,
            u > 0,
    ;
    assert(off <= jz) by (nonlinear_arith)
        requires
            off * k <= (5 * n) * jz,
            5 * n <= k,
            jz >= 0,
            k > 0,
    ;
    assert(abs(nn * s) <= 2 * jz);
    assert(2 * jz == nn * (2 * j * (xy * u))) by (nonlinear_arith)
        requires
            jz == j * z,
            z == nn * xy * u,
    ;
    assert(abs(s) <= 2 * j * (xy * u)) by (nonlinear_arith)
        requires
            abs(nn * s) <= nn * (2 * j * (xy * u)),
            nn == n * n,
            n >= 1,
    ;
}

/// The sum of the products of deviations, rounded at each step.
proof fn lemma_total(
    ps: Seq<Number>,
    qs: Seq<Number>,
    a: Seq<int>,
    b: Seq<int>,
    n: int,
    x: int,
    y: int,
)
    requires
        deviates(ps, a, n, x),
        deviates(qs, b, n, y),
        ps.len() == qs.len(),
        ps.len() <= n,
        n >= 1,
        x >= 1,
        y >= 1,
        5 * n <= grain(),
        n * x <= TWO52,
        n * y <= TWO52,
        n * (x * y) <= grain(),
    ensures
        total_of(terms(ps, qs)).finite(),
        distance((n * n) * total_of(terms(ps, qs)).units(), sum(paired(a, b)) * one_unit()) * grain() <= 5 * ps.len()
            * ((n * n * n) * (x * y) * one_unit()),
        abs(total_of(terms(ps, qs)).units()) <= 2 * ps.len() * ((x * y) * one_unit()),
        abs(sum(paired(a, b))) <= ps.len() * ((n * n) * (x * y)),
    decreases ps.len(),
{
    lemma_scale();
    lemma_zero();
    let u = one_unit();
    let xy = x * y;
    assert(1 <= xy <= n * xy) by (nonlinear_arith)
        requires
            xy == x * y,
            x >= 1,
            y >= 1,
            n >= 1,
    ;
    let all = terms(ps, qs);
    if ps.len() == 0 {
        assert(all.len() == 0 && paired(a, b).len() == 0);
        assert((n * n) * 0 == 0 && 0 * u == 0) by (nonlinear_arith);
        assert(5 * 0int * ((n * n * n) * xy * u) == 0 && 2 * 0int * (xy * u) == 0 && 0int * ((n * n) * xy) == 0)
            by (nonlinear_arith);
    } else {
        let j = ps.len() - 1;
        let ps1 = ps.drop_last();
        let qs1 = qs.drop_last();
        let a1 = a.drop_last();
        let b1 = b.drop_last();
        assert(deviates(ps1, a1, n, x)) by {
            assert forall|i: int| 0 <= i < ps1.len() implies (#[trigger] ps1[i]).finite() && abs(a1[i]) <= n * x
                && distance(n * ps1[i].units(), a1[i] * u) * grain() <= n * x * u by {
                assert(ps1[i] == ps[i] && a1[i] == a[i]);
            }
        }
        assert(deviates(qs1, b1, n, y)) by {
            assert forall|i: int| 0 <= i < qs1.len() implies (#[trigger] qs1[i]).finite() && abs(b1[i]) <= n * y
                && distance(n * qs1[i].units(), b1[i] * u) * grain() <= n * y * u by {
                assert(qs1[i] == qs[i] && b1[i] == b[i]);
            }
        }
        lemma_total(ps1, qs1, a1, b1, n, x, y);
        assert(all.drop_last() =~= terms(ps1, qs1));
        assert(paired(a, b).drop_last() =~= paired(a1, b1));
        let p = ps[j];
        let q = qs[j];
        assert(p.finite() && q.finite());
        lemma_term(p, q, a[j], b[j], n, x, y);
        let t = p.times(q);
        assert(all.last() == t);
        let s = total_of(terms(ps1, qs1));
        let c = sum(paired(a1, b1));
        let ab = a[j] * b[j];
        let w = xy * u;
        assert(abs(s.units() + t.units()) <= TWO53 * u) by {
            assert(2 * j * w + 2 * w <= 8 * grain() * u) by (nonlinear_arith)
                requires
                    w == xy * u,
                    n * xy <= grain(),
                    j < n,
                    j >= 0,
                    xy >= 1,
                    u > 0,
            ;
        }
        a_sum_is_nearly_exact(s, t);
        let r = s.plus(t);
        lemma_step(s.units(), t.units(), r.units(), c, ab, j, n, xy, u);
        assert(abs(ab) <= (n * n) * xy) by (nonlinear_arith)
            requires
                ab == a[j] * b[j],
                abs(a[j]) <= n * x,
                abs(b[j]) <= n * y,
                xy == x * y,
                n >= 1,
                x >= 1,
                y >= 1,
        ;
        assert(abs(c + ab) <= (j + 1) * ((n * n) * xy)) by (nonlinear_arith)
            requires
                abs(c) <= j * ((n * n) * xy),
                abs(ab) <= (n * n) * xy,
        ;
        lemma_bounded(r.units(), c + ab, j + 1, n, xy, u);
    }
}

/// The exact deviations: `n` times each value, less the sum.
spec fn exact(k: Seq<int>, n: int, total: int) -> Seq<int> {
    Seq::new(k.len(), |i: int| n * k[i] - total)
}

/// The products of the exact deviations add up to `n` times the covariation.
proof fn lemma_identity(k: Seq<int>, l: Seq<int>, n: int, a: int, b: int)
    requires
        k.len() == l.len(),
    ensures
        sum(paired(exact(k, n, a), exact(l, n, b))) == (n * n) * sum(paired(k, l)) - (n * b) * sum(k) - (n * a) * sum(
            l,
        ) + k.len() * (a * b),
    decreases k.len(),
{
    let e = paired(exact(k, n, a), exact(l, n, b));
    if k.len() == 0 {
        assert(e.len() == 0 && paired(k, l).len() == 0);
        assert((n * n) * 0 - (n * b) * 0 - (n * a) * 0 + 0int * (a * b) == 0) by (nonlinear_arith);
    } else {
        let j = k.len() - 1;
        let k1 = k.drop_last();
        let l1 = l.drop_last();
        lemma_identity(k1, l1, n, a, b);
        assert(e.drop_last() =~= paired(exact(k1, n, a), exact(l1, n, b)));
        assert(paired(k, l).drop_last() =~= paired(k1, l1));
        let x = k[j];
        let y = l[j];
        let s = sum(paired(k1, l1));
        let t = sum(k1);
        let v = sum(l1);
        assert(e.last() == (n * x - a) * (n * y - b));
        let nx = n * x;
        let ny = n * y;
        assert((nx - a) * (ny - b) == nx * ny - nx * b - a * ny + a * b) by (nonlinear_arith);
        assert(nx * ny == (n * n) * (x * y)) by (nonlinear_arith)
            requires
                nx == n * x,
                ny == n * y,
        ;
        assert(nx * b == (n * b) * x && a * ny == (n * a) * y) by (nonlinear_arith)
            requires
                nx == n * x,
                ny == n * y,
        ;
        assert((n * n) * (s + x * y) == (n * n) * s + (n * n) * (x * y)) by (nonlinear_arith);
        assert((n * b) * (t + x) == (n * b) * t + (n * b) * x) by (nonlinear_arith);
        assert((n * a) * (v + y) == (n * a) * v + (n * a) * y) by (nonlinear_arith);
        assert((j + 1) * (a * b) == j * (a * b) + a * b) by (nonlinear_arith);
    }
}

/// The deviations of whole values from their rounded mean.
proof fn lemma_deviations(s: Seq<Number>, k: Seq<int>, bound: int, reach: int, ps: Seq<Number>)
    requires
        s.len() > 0,
        s.len() == k.len(),
        ps.len() == s.len(),
        forall|i: int| 0 <= i < s.len() ==> (#[trigger] s[i]).finite() && s[i].units() == k[i] * one_unit(),
        forall|i: int| 0 <= i < k.len() ==> abs(#[trigger] k[i]) <= bound,
        forall|i: int| 0 <= i < s.len() ==> #[trigger] ps[i] == s[i].minus(mean_number(s)),
        1 <= bound <= reach,
        forall|i: int| 0 <= i < k.len() ==> abs(s.len() * (#[trigger] k[i]) - sum(k)) <= s.len() * reach,
        s.len() * reach <= TWO52,
    ensures
        mean_number(s).finite(),
        deviates(ps, exact(k, s.len() as int, sum(k)), s.len() as int, reach),
{
    lemma_scale();
    let n = s.len() as int;
    let u = one_unit();
    assert(n * bound <= n * reach) by (nonlinear_arith)
        requires
            bound <= reach,
            n >= 0,
    ;
    lemma_mean(s, k, bound);
    assert(n * bound * u <= n * reach * u) by (nonlinear_arith)
        requires
            n * bound <= n * reach,
            u > 0,
    ;
    let e = exact(k, n, sum(k));
    assert forall|i: int| 0 <= i < ps.len() implies (#[trigger] ps[i]).finite() && abs(e[i]) <= n * reach && distance(
        n * ps[i].units(),
        e[i] * u,
    ) * grain() <= n * reach * u by {
        assert(s[i].finite());
        assert(abs(n * k[i] - sum(k)) <= n * reach);
        lemma_deviation(s[i], mean_number(s), k[i], sum(k), n, reach);
    }
}

/// Sums of values between bounds lie between the sums of the bounds.
proof fn lemma_sum_between(k: Seq<int>, low: int, high: int)
    requires
        forall|i: int| 0 <= i < k.len() ==> low <= #[trigger] k[i] <= high,
    ensures
        k.len() * low <= sum(k) <= k.len() * high,
    decreases k.len(),
{
    if k.len() > 0 {
        let k1 = k.drop_last();
        assert forall|i: int| 0 <= i < k1.len() implies low <= #[trigger] k1[i] <= high by {
            assert(k1[i] == k[i]);
        }
        lemma_sum_between(k1, low, high);
        assert(low <= k[k.len() - 1] <= high);
        assert(k.len() * low == k1.len() * low + low) by (nonlinear_arith)
            requires
                k.len() == k1.len() + 1,
        ;
        assert(k.len() * high == k1.len() * high + high) by (nonlinear_arith)
            requires
                k.len() == k1.len() + 1,
        ;
    } else {
        assert(0 * low == 0 && 0 * high == 0) by (nonlinear_arith);
    }
}

proof fn lemma_reach(k: Seq<int>, low: int, high: int, i: int)
    requires
        forall|i: int| 0 <= i < k.len() ==> low <= #[trigger] k[i] <= high,
        0 <= i < k.len(),
    ensures
        abs(k.len() * k[i] - sum(k)) <= k.len() * (high - low),
{
    lemma_sum_between(k, low, high);
    let n = k.len() as int;
    let x = k[i];
    assert(low <= x <= high);
    assert(n * low <= n * x <= n * high) by (nonlinear_arith)
        requires
            low <= x <= high,
            n >= 0,
    ;
    assert(n * (high - low) == n * high - n * low) by (nonlinear_arith);
}

/// From the sums to the quotient.
proof fn lemma_quotient(s: int, var: int, cov: int, d: int, e: int, n: int, x: int, y: int, u: int)
    requires
        n >= 1,
        x >= 1,
        y >= 1,
        u > 4 * grain() * grain(),
        x <= 4 * grain(),
        var > 0,
        distance(n * var, d * u) * grain() <= 5 * ((n * n * n) * (x * x) * u),
        distance(n * cov, e * u) * grain() <= 5 * ((n * n * n) * (x * y) * u),
        var <= 2 * n * ((x * x) * u),
        abs(cov) <= 2 * n * ((x * y) * u),
        distance(s * var, cov * u) * (8 * grain()) <= abs(cov) * u + var * (4 * grain()),
    ensures
        distance(s * d, e * u) * grain() <= 7 * ((n * n * n) * (x * (x * abs(s) + y * u))),
{
    let k = grain();
    let nnn = n * n * n;
    let xx = x * x;
    let xy = x * y;
    let uu = u * u;
    let v = n * var - d * u;
    let c = n * cov - e * u;
    let o = s * var - cov * u;
    assert(n * o == n * (s * var) - n * (cov * u)) by (nonlinear_arith)
        requires
            o == s * var - cov * u,
    ;
    assert(c * u == (n * cov) * u - e * uu) by (nonlinear_arith)
        requires
            c == n * cov - e * u,
            uu == u * u,
    ;
    assert(s * v == s * (n * var) - (s * d) * u) by (nonlinear_arith)
        requires
            v == n * var - d * u,
    ;
    assert(n * (s * var) == s * (n * var) && n * (cov * u) == (n * cov) * u) by (nonlinear_arith);
    let g = nnn * xy * uu;
    let h = nnn * xx * u;
    assert(abs(s * v) * k <= 5 * (abs(s) * h)) by (nonlinear_arith)
        requires
            abs(v) * k <= 5 * h,
            k > 0,
    ;
    assert(abs(c * u) * k <= 5 * g) by (nonlinear_arith)
        requires
            abs(c) * k <= 5 * (nnn * xy * u),
            g == nnn * xy * uu,
            uu == u * u,
            u > 0,
            k > 0,
    ;
    assert(1 <= n * n <= nnn) by (nonlinear_arith)
        requires
            nnn == n * n * n,
            n >= 1,
    ;
    assert(xy >= 1) by (nonlinear_arith)
        requires
            xy == x * y,
            x >= 1,
            y >= 1,
    ;
    assert(abs(cov) * u <= 2 * n * (xy * uu)) by (nonlinear_arith)
        requires
            abs(cov) <= 2 * n * (xy * u),
            uu == u * u,
            u > 0,
    ;
    assert(xx * k <= xy * u) by (nonlinear_arith)
        requires
            xx == x * x,
            xy == x * y,
            1 <= x <= 4 * k,
            y >= 1,
            4 * k * k <= u,
    ;
    assert(var * (4 * k) <= 8 * n * (xy * uu)) by (nonlinear_arith)
        requires
            var <= 2 * n * (xx * u),
            xx * k <= xy * u,
            uu == u * u,
            n >= 1,
            u > 0,
            k > 0,
    ;
    let m = n * (xy * uu);
    assert(2 * n * (xy * uu) == 2 * m && 8 * n * (xy * uu) == 8 * m) by (nonlinear_arith)
        requires
            m == n * (xy * uu),
    ;
    assert(abs(o) * (8 * k) <= 10 * m);
    assert((n * abs(o)) * (8 * k) <= 10 * ((n * n) * (xy * uu))) by (nonlinear_arith)
        requires
            abs(o) * (8 * k) <= 10 * m,
            m == n * (xy * uu),
            n >= 1,
    ;
    assert((n * n) * (xy * uu) <= g) by (nonlinear_arith)
        requires
            n * n <= nnn,
            g == nnn * xy * uu,
            xy >= 1,
            uu == u * u,
            u > 0,
    ;
    assert(abs(n * o) == n * abs(o)) by (nonlinear_arith)
        requires
            n >= 1,
    ;
    assert((n * abs(o)) * k <= 2 * g);
    let far = distance((s * d) * u, e * uu);
    assert(far <= n * abs(o) + abs(c * u) + abs(s * v));
    assert(far * k <= 2 * g + 5 * g + 5 * (abs(s) * h)) by (nonlinear_arith)
        requires
            far <= n * abs(o) + abs(c * u) + abs(s * v),
            (n * abs(o)) * k <= 2 * g,
            abs(c * u) * k <= 5 * g,
            abs(s * v) * k <= 5 * (abs(s) * h),
            k > 0,
    ;
    let near = distance(s * d, e * u);
    assert(far == near * u) by (nonlinear_arith)
        requires
            far == distance((s * d) * u, e * uu),
            near == distance(s * d, e * u),
            uu == u * u,
            u > 0,
    ;
    let f = nnn * (x * (x * abs(s) + y * u));
    let t = abs(s);
    assert(x * (x * t + y * u) == xx * t + xy * u) by (nonlinear_arith)
        requires
            xx == x * x,
            xy == x * y,
    ;
    assert(f == nnn * (xx * t) + nnn * (xy * u)) by (nonlinear_arith)
        requires
            f == nnn * (xx * t + xy * u),
    ;
    assert((nnn * (xx * t)) * u == t * h) by (nonlinear_arith)
        requires
            h == nnn * xx * u,
    ;
    assert((nnn * (xy * u)) * u == g) by (nonlinear_arith)
        requires
            g == nnn * xy * uu,
            uu == u * u,
    ;
    assert(f * u == (nnn * (xx * t)) * u + (nnn * (xy * u)) * u) by (nonlinear_arith)
        requires
            f == nnn * (xx * t) + nnn * (xy * u),
    ;
    assert(abs(s) * h >= 0) by (nonlinear_arith)
        requires
            h == nnn * xx * u,
            nnn >= 1,
            xx == x * x,
            u > 0,
    ;
    assert(near * k <= 7 * f) by (nonlinear_arith)
        requires
            (near * u) * k <= 7 * (f * u),
            u > 0,
    ;
}

/// The slope of a gauge is the least-squares one. With `n` samples of whole values, it times `n` times
/// the sum of the squared seconds, less the square of their sum, is `n` times the sum of the products
/// of seconds and values, less the product of the sums, up to rounding: the difference is at most
/// seven parts in 2^50 of what the bounds of seconds and values allow.
pub proof fn the_slope_is_the_least_squares_one(points: Seq<(u64, Number)>, values: Seq<int>, x: int, w: int)
    requires
        has_values(points, values),
        points.len() > 0,
        x >= 1,
        w >= 1,
        forall|i: int| 0 <= i < points.len() ==> (#[trigger] points[i]).0 < x,
        forall|i: int| 0 <= i < values.len() ==> abs(#[trigger] values[i]) <= w,
        ({
            let n = points.len() as int;
            let d = covariation(seconds(points), seconds(points));
            let y = 2 * w;
            &&& 5 * n <= grain()
            &&& n * x <= TWO52
            &&& n * y <= TWO52
            &&& n * (x * x) <= grain()
            &&& n * (x * y) <= grain()
            &&& 10 * ((n * n * n) * (x * x)) <= grain() * d
            &&& (n * n) * (x * y) <= grain() * d
        }),
    ensures
        ({
            let n = points.len() as int;
            let s = gauge_stats(points).slope;
            let d = covariation(seconds(points), seconds(points));
            let e = covariation(seconds(points), values);
            let y = 2 * w;
            &&& s.finite()
            &&& distance(s.units() * d, e * one_unit()) * grain() <= 7 * ((n * n * n) * (x * (x * abs(s.units()) + y
                * one_unit())))
        }),
{
    lemma_scale();
    lemma_zero();
    let u = one_unit();
    let n = points.len() as int;
    let y = 2 * w;
    let ks = seconds(points);
    let xs = xs_of(points);
    let ys = ys_of(points);
    let mx = mean_number(xs);
    let my = mean_number(ys);
    assert forall|i: int| 0 <= i < xs.len() implies (#[trigger] xs[i]).finite() && xs[i].units() == ks[i] * u by {
        assert(points[i].0 < x);
        assert(x <= n * x) by (nonlinear_arith)
            requires
                x >= 1,
                n >= 1,
        ;
        whole_numbers_are_exact(points[i].0 as nat);
    }
    assert forall|i: int| 0 <= i < ys.len() implies (#[trigger] ys[i]).finite() && ys[i].units() == values[i] * u by {
        assert(points[i].1.finite());
    }
    assert forall|i: int| 0 <= i < ks.len() implies 0 <= #[trigger] ks[i] <= x by {
        assert(points[i].0 < x);
    }
    assert forall|i: int| 0 <= i < values.len() implies -w <= #[trigger] values[i] <= w by {
        assert(abs(values[i]) <= w);
    }
    assert forall|i: int| 0 <= i < ks.len() implies abs(n * (#[trigger] ks[i]) - sum(ks)) <= n * x by {
        lemma_reach(ks, 0, x, i);
    }
    assert forall|i: int| 0 <= i < values.len() implies abs(n * (#[trigger] values[i]) - sum(values)) <= n * y by {
        lemma_reach(values, -w, w, i);
    }
    let ps = Seq::new(points.len(), |i: int| xs[i].minus(mx));
    let qs = Seq::new(points.len(), |i: int| ys[i].minus(my));
    lemma_deviations(xs, ks, x, x, ps);
    lemma_deviations(ys, values, w, y, qs);
    let a = exact(ks, n, sum(ks));
    let b = exact(values, n, sum(values));
    lemma_total(ps, ps, a, a, n, x, x);
    lemma_total(ps, qs, a, b, n, x, y);
    assert(spreads(points, mx) =~= terms(ps, ps));
    assert(products(points, mx, my) =~= terms(ps, qs));
    let var = total_of(spreads(points, mx));
    let cov = total_of(products(points, mx, my));
    let d = covariation(ks, ks);
    let e = covariation(ks, values);
    lemma_identity(ks, ks, n, sum(ks), sum(ks));
    lemma_identity(ks, values, n, sum(ks), sum(values));
    lemma_fold(ks, ks, n);
    lemma_fold(ks, values, n);
    assert((n * n * n) * (x * x) * u == (n * n * n) * ((x * x) * u)) by (nonlinear_arith);
    assert((n * n * n) * (x * y) * u == (n * n * n) * ((x * y) * u)) by (nonlinear_arith);
    lemma_divided(var.units(), d, n, (x * x) * u);
    lemma_divided(cov.units(), e, n, (x * y) * u);
    lemma_positive(var.units(), d, n, x, y, u);
    order_is_that_of_the_values(zero(false), var);
    lemma_small(cov.units(), var.units(), d, n, x, y, u);
    a_quotient_is_nearly_exact(cov, var);
    assert(x <= TWO52) by (nonlinear_arith)
        requires
            n * x <= TWO52,
            n >= 1,
            x >= 1,
    ;
    lemma_quotient(cov.over(var).units(), var.units(), cov.units(), d, e, n, x, y, u);
}

/// The identity, with `n` taken out.
proof fn lemma_fold(k: Seq<int>, l: Seq<int>, n: int)
    requires
        n == k.len(),
        k.len() == l.len(),
        sum(paired(exact(k, n, sum(k)), exact(l, n, sum(l)))) == (n * n) * sum(paired(k, l)) - (n * sum(l)) * sum(k)
            - (n * sum(k)) * sum(l) + k.len() * (sum(k) * sum(l)),
    ensures
        sum(paired(exact(k, n, sum(k)), exact(l, n, sum(l)))) == n * covariation(k, l),
{
    let a = sum(k);
    let b = sum(l);
    let p = sum(paired(k, l));
    assert((n * n) * p - (n * b) * a - (n * a) * b + n * (a * b) == n * (n * p - a * b)) by (nonlinear_arith);
}

/// A nearness of sums, with `n` taken out.
proof fn lemma_divided(s: int, d: int, n: int, w: int)
    requires
        n >= 1,
        distance((n * n) * s, (n * d) * one_unit()) * grain() <= 5 * n * ((n * n * n) * w),
    ensures
        distance(n * s, d * one_unit()) * grain() <= 5 * ((n * n * n) * w),
{
    let u = one_unit();
    let k = grain();
    let q = distance(n * s, d * u);
    assert(distance((n * n) * s, (n * d) * u) == n * q) by (nonlinear_arith)
        requires
            q == distance(n * s, d * u),
            n >= 1,
    ;
    let z = (n * n * n) * w;
    assert(q * k <= 5 * z) by (nonlinear_arith)
        requires
            (n * q) * k <= 5 * n * z,
            n >= 1,
    ;
}

/// The rounded spread is not much below the exact one.
proof fn lemma_positive(var: int, d: int, n: int, x: int, y: int, u: int)
    requires
        n >= 1,
        x >= 1,
        y >= 1,
        u > 0,
        distance(n * var, d * u) * grain() <= 5 * ((n * n * n) * ((x * x) * u)),
        10 * ((n * n * n) * (x * x)) <= grain() * d,
    ensures
        var > 0,
        2 * (n * var) >= d * u,
        d > 0,
{
    let k = grain();
    let z = (n * n * n) * (x * x);
    assert(z >= 1) by (nonlinear_arith)
        requires
            z == (n * n * n) * (x * x),
            n >= 1,
            x >= 1,
    ;
    assert(d > 0) by (nonlinear_arith)
        requires
            10 * z <= k * d,
            z >= 1,
            k > 0,
    ;
    assert((n * n * n) * ((x * x) * u) == z * u) by (nonlinear_arith)
        requires
            z == (n * n * n) * (x * x),
    ;
    let off = distance(n * var, d * u);
    assert(2 * off <= d * u) by (nonlinear_arith)
        requires
            off * k <= 5 * (z * u),
            10 * z <= k * d,
            k > 0,
            u > 0,
    ;
    assert(d * u > 0) by (nonlinear_arith)
        requires
            d > 0,
            u > 0,
    ;
    assert(n * var > 0);
    assert(var > 0) by (nonlinear_arith)
        requires
            n * var > 0,
            n >= 1,
    ;
}

/// The quotient is within range.
proof fn lemma_small(cov: int, var: int, d: int, n: int, x: int, y: int, u: int)
    requires
        n >= 1,
        var > 0,
        u > 0,
        abs(cov) <= 2 * n * ((x * y) * u),
        2 * (n * var) >= d * u,
        (n * n) * (x * y) <= grain() * d,
    ensures
        abs(cov) <= var * TWO53,
{
    lemma_scale();
    let k = grain();
    let z = (n * n) * (x * y);
    assert(n * abs(cov) <= 2 * (z * u)) by (nonlinear_arith)
        requires
            abs(cov) <= 2 * n * ((x * y) * u),
            z == (n * n) * (x * y),
            n >= 1,
    ;
    assert(z * u <= k * (d * u)) by (nonlinear_arith)
        requires
            z <= k * d,
            u > 0,
    ;
    assert(n * abs(cov) <= n * (var * (4 * k))) by (nonlinear_arith)
        requires
            n * abs(cov) <= 2 * (z * u),
            z * u <= k * (d * u),
            d * u <= 2 * (n * var),
            k > 0,
    ;
    assert(abs(cov) <= var * (4 * k)) by (nonlinear_arith)
        requires
            n * abs(cov) <= n * (var * (4 * k)),
            n >= 1,
    ;
}

/// Samples that all lie in one second have no slope.
pub proof fn samples_of_one_second_have_no_slope(points: Seq<(u64, Number)>, second: u64)
    requires
        forall|i: int| 0 <= i < points.len() ==> (#[trigger] points[i]).0 == second,
        points.len() * second <= TWO53,
        points.len() <= TWO53,
    ensures
        gauge_stats(points).slope == zero(false),
{
    lemma_scale();
    lemma_zero();
    if points.len() > 0 {
        let u = one_unit();
        let n = points.len() as int;
        let k = second as int;
        let xs = xs_of(points);
        let ks = seconds(points);
        assert(k <= TWO53) by (nonlinear_arith)
            requires
                n * k <= TWO53,
                n >= 1,
                k >= 0,
        ;
        whole_numbers_are_exact(second as nat);
        assert forall|i: int| 0 <= i < xs.len() implies (#[trigger] xs[i]).finite() && xs[i].units() == ks[i] * u by {
            assert(points[i].0 == second);
        }
        assert forall|i: int| 0 <= i < ks.len() implies k <= #[trigger] ks[i] <= k && abs(ks[i]) <= k by {
            assert(points[i].0 == second);
        }
        lemma_total_whole(xs, ks, k);
        lemma_sum_between(ks, k, k);
        whole_numbers_are_exact(points.len());
        let mean = mean_number(xs);
        let total = total_of(xs);
        let count = of_nat(points.len());
        lemma_size(total);
        lemma_size(count);
        assert(sum(ks) == n * k);
        assert(n * u > 0) by (nonlinear_arith)
            requires
                n >= 1,
                u > 0,
        ;
        assert(total.units() >= 0) by (nonlinear_arith)
            requires
                total.units() == (n * k) * u,
                n >= 1,
                k >= 0,
                u > 0,
        ;
        assert(((n * k) * u) * u == (k * u) * (n * u)) by (nonlinear_arith);
        assert(k * u >= 0) by (nonlinear_arith)
            requires
                k >= 0,
                u > 0,
        ;
        rounding_depends_on_the_ratio(k * u, 1, n * u);
        assert(1 * (n * u) == n * u);
        assert(mean.magnitude() == of_nat(second as nat).magnitude()) by {
            assert(total.size() * u == (k * u) * (n * u));
        }
        assert(mean.finite());
        assert(abs(mean.units()) == k * u) by {
            lemma_size(mean);
            assert(mean.size() == of_nat(second as nat).size());
        }
        if total.units() == 0 {
            assert(k == 0) by (nonlinear_arith)
                requires
                    (n * k) * u == 0,
                    n >= 1,
                    k >= 0,
                    u > 0,
            ;
        }
        assert((n * k) * u <= (n * u) * TWO53) by (nonlinear_arith)
            requires
                k <= TWO53,
                n >= 1,
                u > 0,
        ;
        lemma_mean_sign(total, count, k);
        lemma_flat(points, second, mean, spreads(points, mean));
    }
}

/// The quotient of a sum that is not negative has no value below zero.
proof fn lemma_mean_sign(total: Number, count: Number, k: int)
    requires
        total.finite(),
        count.finite(),
        count.units() > 0,
        total.units() >= 0,
        total.over(count).finite(),
        abs(total.over(count).units()) == k * one_unit(),
        total.units() == 0 ==> k == 0,
        total.units() <= count.units() * TWO53,
    ensures
        total.over(count).units() == k * one_unit(),
{
    lemma_scale();
    lemma_size(total);
    lemma_size(count);
    if total.units() > 0 {
        a_quotient_is_nearly_exact(total, count);
        let r = total.over(count).units();
        let a = total.units() * one_unit();
        let d = count.units();
        assert(a > 0) by (nonlinear_arith)
            requires
                a == total.units() * one_unit(),
                total.units() > 0,
                one_unit() > 0,
        ;
        if r < 0 {
            assert(r * d <= -d) by (nonlinear_arith)
                requires
                    r <= -1,
                    d > 0,
            ;
        }
        assert(k * one_unit() >= 0) by {
            lemma_size(total.over(count));
        }
    } else {
        assert(0 * one_unit() == 0) by (nonlinear_arith);
    }
}

/// Deviations of nothing come to nothing.
proof fn lemma_flat(points: Seq<(u64, Number)>, second: u64, mean: Number, terms: Seq<Number>)
    requires
        forall|i: int| 0 <= i < points.len() ==> (#[trigger] points[i]).0 == second,
        second <= TWO53,
        mean.finite(),
        mean.units() == second * one_unit(),
        terms == spreads(points, mean),
    ensures
        !zero(false).below(total_of(terms)),
        total_of(terms).finite(),
        total_of(terms).units() == 0,
    decreases points.len(),
{
    lemma_scale();
    lemma_zero();
    if points.len() > 0 {
        let n = points.len() - 1;
        let rest = points.drop_last();
        assert forall|i: int| 0 <= i < rest.len() implies (#[trigger] rest[i]).0 == second by {
            assert(rest[i] == points[i]);
        }
        lemma_flat(rest, second, mean, spreads(rest, mean));
        assert(terms.drop_last() =~= spreads(rest, mean));
        assert(points[n].0 == second);
        whole_numbers_are_exact(second as nat);
        let x = of_nat(second as nat);
        a_difference_is_nearly_exact(x, mean);
        let dx = x.minus(mean);
        assert(dx.units() == 0);
        assert(abs(dx.units()) * abs(dx.units()) == 0) by (nonlinear_arith)
            requires
                dx.units() == 0,
        ;
        assert(one_unit() * (TWO53 * one_unit()) >= 0) by (nonlinear_arith)
            requires
                one_unit() > 0,
        ;
        a_product_is_nearly_exact(dx, dx);
        let t = dx.times(dx);
        assert(terms.last() == t);
        a_sum_is_nearly_exact(total_of(terms.drop_last()), t);
    }
    order_is_that_of_the_values(zero(false), total_of(terms));
}

/// The mean of a gauge is that of its samples: with `n` samples of whole values up to `w`, `n` times the
/// mean is their sum, up to one part in 2^52 of what the bound allows.
pub proof fn the_mean_of_a_gauge_is_that_of_its_samples(points: Seq<(u64, Number)>, values: Seq<int>, w: int)
    requires
        has_values(points, values),
        points.len() > 0,
        w >= 1,
        forall|i: int| 0 <= i < values.len() ==> abs(#[trigger] values[i]) <= w,
        points.len() * w <= TWO53,
    ensures
        gauge_stats(points).mean.finite(),
        distance(points.len() * gauge_stats(points).mean.units(), sum(values) * one_unit()) * TWO52 <= points.len() * w
            * one_unit(),
{
    let ys = ys_of(points);
    assert forall|i: int| 0 <= i < ys.len() implies (#[trigger] ys[i]).finite() && ys[i].units() == values[i]
        * one_unit() by {
        assert(points[i].1.finite());
    }
    lemma_mean(ys, values, w);
}

/// The lowest finite number.
pub open spec fn lowest() -> Number {
    Number { bits: 0xffef_ffff_ffff_ffff }
}

/// The greatest of some numbers.
pub(crate) proof fn lemma_greatest(s: Seq<Number>)
    ensures
        !greatest_of(s).nan(),
        lowest().at_most(greatest_of(s)),
        forall|i: int| 0 <= i < s.len() && !(#[trigger] s[i]).nan() ==> s[i].at_most(greatest_of(s)),
        greatest_of(s) == lowest() || s.contains(greatest_of(s)),
    decreases s.len(),
{
    if s.len() > 0 {
        let rest = s.drop_last();
        lemma_greatest(rest);
        let g = greatest_of(rest);
        assert forall|i: int| 0 <= i < s.len() && !(#[trigger] s[i]).nan() implies s[i].at_most(greatest_of(s)) by {
            if i < rest.len() {
                assert(rest[i] == s[i]);
                assert(rest[i].at_most(g));
            }
        }
        if greatest_of(s) == g {
            if rest.contains(g) {
                let i = choose|i: int| 0 <= i < rest.len() && rest[i] == g;
                assert(s[i] == g);
            }
        } else {
            assert(s[s.len() - 1] == greatest_of(s));
        }
    }
}

/// A gauge reports how many samples it has, the last of them, and the greatest: a sample that no other
/// one exceeds. (Samples that are not numbers do not count for the greatest, and of samples that are
/// all minus infinity the lowest finite number is.)
pub proof fn a_gauge_reports_its_last_and_its_greatest_sample(points: Seq<(u64, Number)>)
    requires
        0 < points.len() <= u64::MAX,
    ensures
        gauge_stats(points).samples == points.len(),
        gauge_stats(points).last == points[points.len() - 1].1,
        !gauge_stats(points).max.nan(),
        forall|i: int|
            0 <= i < points.len() && !(#[trigger] points[i]).1.nan() ==> points[i].1.at_most(gauge_stats(points).max),
        (exists|i: int| 0 <= i < points.len() && (#[trigger] points[i]).1 == gauge_stats(points).max) || (forall|i: int|
            0 <= i < points.len() && !(#[trigger] points[i]).1.nan() ==> points[i].1.at_most(lowest())),
{
    let ys = ys_of(points);
    let g = greatest_of(ys);
    lemma_greatest(ys);
    assert forall|i: int| 0 <= i < points.len() && !(#[trigger] points[i]).1.nan() implies points[i].1.at_most(g) by {
        assert(ys[i] == points[i].1);
    }
    if ys.contains(g) {
        let i = choose|i: int| 0 <= i < ys.len() && ys[i] == g;
        assert(points[i].1 == g);
    }
}

/// A gauge without samples reports nothing.
pub proof fn a_gauge_without_samples_reports_nothing(points: Seq<(u64, Number)>)
    requires
        points.len() == 0,
    ensures
        gauge_stats(points).samples == 0,
        gauge_stats(points).last == zero(false),
        gauge_stats(points).max == zero(false),
        gauge_stats(points).mean == zero(false),
        gauge_stats(points).slope == zero(false),
{
}

} // verus!
