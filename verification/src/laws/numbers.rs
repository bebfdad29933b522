//! Numbers: rounding is to the nearest, order is that of the values, and whole numbers are exact
//! as far as a binary64 number can be.

use vstd::prelude::*;
use vstd::arithmetic::power2::{lemma2_to64, lemma_pow2_adds, lemma_pow2_pos, lemma_pow2_unfold, pow2};
use vstd::arithmetic::div_mod::lemma_fundamental_div_mod_converse;
use crate::number::{of_nat, one_unit, zero, Number, SIGN};
use crate::rounding::{
    exponent, half_even, lemma_half_even_scales, lemma_stepped_at, lemma_two53, nearest, significand, stepped, units_of,
    INFINITE, TWO52, TWO53,
};

verus! {

pub open spec fn distance(a: int, b: int) -> int {
    if a < b {
        b - a
    } else {
        a - b
    }
}

proof fn lemma_half_even_bounds(n: int, d: int)
    requires
        n >= 0,
        d > 0,
    ensures
        2 * distance(half_even(n, d) * d, n) <= d,
        n / d <= half_even(n, d) <= n / d + 1,
        0 <= n / d,
        (n / d) * d <= n < (n / d + 1) * d,
{
    let q = n / d;
    let r = n % d;
    assert(n == q * d + r && 0 <= r < d && q >= 0) by (nonlinear_arith)
        requires
            n >= 0,
            d > 0,
            q == n / d,
            r == n % d,
    ;
    assert((q + 1) * d == q * d + d) by (nonlinear_arith);
}

/// No multiple of `d` is closer to `n` than the one it rounds to.
proof fn lemma_half_even_closest(n: int, d: int, k: int)
    requires
        n >= 0,
        d > 0,
    ensures
        distance(half_even(n, d) * d, n) <= distance(k * d, n),
{
    lemma_half_even_bounds(n, d);
    let q = n / d;
    assert((q + 1) * d == q * d + d) by (nonlinear_arith);
    if k <= q {
        assert(k * d <= q * d) by (nonlinear_arith)
            requires
                k <= q,
                d > 0,
        ;
    } else {
        assert(k * d >= (q + 1) * d) by (nonlinear_arith)
            requires
                k >= q + 1,
                d > 0,
        ;
    }
}

proof fn lemma_half_even_monotone(n: int, m: int, d: int)
    requires
        0 <= n <= m,
        d > 0,
    ensures
        half_even(n, d) <= half_even(m, d),
{
    lemma_half_even_bounds(n, d);
    lemma_half_even_bounds(m, d);
    let a = n / d;
    let b = m / d;
    assert(a <= b) by (nonlinear_arith)
        requires
            a * d <= n,
            n <= m,
            m < (b + 1) * d,
            d > 0,
    ;
    if a == b {
        assert(n % d <= m % d) by (nonlinear_arith)
            requires
                n / d == m / d,
                n <= m,
                d > 0,
                0 <= n,
        ;
    }
}

proof fn lemma_half_even_exact(k: int, d: int)
    requires
        k >= 0,
        d > 0,
    ensures
        half_even(k * d, d) == k,
{
    assert(k * d >= 0) by (nonlinear_arith)
        requires
            k >= 0,
            d > 0,
    ;
    lemma_fundamental_div_mod_converse(k * d, d, k, 0);
}

proof fn lemma_stepped_large(n: int, d: int)
    requires
        d > 0,
        n >= d * TWO52,
    ensures
        stepped(n, d) >= TWO52,
    decreases
            if n < d * TWO53 {
                0
            } else {
                n - d * TWO53 + 1
            },
{
    if n < d * TWO53 {
        assert(n >= 0) by (nonlinear_arith)
            requires
                n >= d * TWO52,
                d > 0,
        ;
        lemma_half_even_bounds(n, d);
        let q = n / d;
        assert(q >= TWO52) by (nonlinear_arith)
            requires
                n < (q + 1) * d,
                n >= d * TWO52,
                d > 0,
        ;
    } else {
        lemma_stepped_large(n, 2 * d);
    }
}

/// Rounding keeps the order of what is rounded.
pub proof fn rounding_keeps_order(n: int, m: int, d: int)
    requires
        0 <= n <= m,
        d > 0,
    ensures
        stepped(n, d) <= stepped(m, d),
        nearest(n, d) <= nearest(m, d),
    decreases
            if n < d * TWO53 {
                0
            } else {
                n - d * TWO53 + 1
            },
{
    if m < d * TWO53 {
        lemma_half_even_monotone(n, m, d);
    } else if n < d * TWO53 {
        lemma_half_even_bounds(n, d);
        let q = n / d;
        assert(q < TWO53) by (nonlinear_arith)
            requires
                q * d <= n,
                n < d * TWO53,
                d > 0,
        ;
        assert(m >= (2 * d) * TWO52) by (nonlinear_arith)
            requires
                m >= d * TWO53,
                TWO53 == 2 * TWO52,
        ;
        lemma_stepped_large(m, 2 * d);
    } else {
        rounding_keeps_order(n, m, 2 * d);
    }
}

/// The exponent to which a ratio rounds.
proof fn lemma_exponent(n: int, d: int) -> (e: nat)
    requires
        n >= 0,
        d > 0,
    ensures
        n < d * pow2(53 + e),
        e > 0 ==> n >= d * pow2((52 + e) as nat),
    decreases
            if n < d * TWO53 {
                0
            } else {
                n - d * TWO53 + 1
            },
{
    lemma_two53();
    if n < d * TWO53 {
        0
    } else {
        let f = lemma_exponent(n, 2 * d);
        let e = f + 1;
        lemma_pow2_unfold(53 + e);
        lemma_pow2_unfold((52 + e) as nat);
        assert(n < d * pow2(53 + e)) by (nonlinear_arith)
            requires
                n < (2 * d) * pow2(53 + f),
                pow2(53 + e) == 2 * pow2(53 + f),
        ;
        if f > 0 {
            assert(n >= d * pow2((52 + e) as nat)) by (nonlinear_arith)
                requires
                    n >= (2 * d) * pow2((52 + f) as nat),
                    pow2((52 + e) as nat) == 2 * pow2((52 + f) as nat),
            ;
        }
        e
    }
}

/// The value of a magnitude that is put together from an exponent and a significand.
proof fn lemma_units_at(e: nat, h: int)
    requires
        0 <= h <= TWO53,
        e > 0 ==> h >= TWO52,
    ensures
        units_of(e * TWO52 + h) == h * pow2(e),
{
    let t = TWO52 as int;
    let m = e * TWO52 + h;
    lemma2_to64();
    if h < t {
        assert(m == h);
    } else if h < TWO53 {
        assert(m == (e + 1) * t + (h - t)) by (nonlinear_arith)
            requires
                m == e * t + h,
        ;
        lemma_fundamental_div_mod_converse(m, t, (e + 1) as int, h - t);
        assert(m >= t) by (nonlinear_arith)
            requires
                m == (e + 1) * t + (h - t),
                h >= t,
                t > 0,
        ;
    } else {
        assert(m == (e + 2) * t + 0) by (nonlinear_arith)
            requires
                m == e * t + h,
                h == 2 * t,
        ;
        lemma_fundamental_div_mod_converse(m, t, (e + 2) as int, 0);
        assert(m >= t) by (nonlinear_arith)
            requires
                m == (e + 2) * t + 0,
                t > 0,
        ;
        lemma_pow2_unfold(e + 1);
        assert(t * pow2(e + 1) == h * pow2(e)) by (nonlinear_arith)
            requires
                pow2(e + 1) == 2 * pow2(e),
                h == 2 * t,
        ;
    }
}

/// A magnitude is put together from its exponent and its significand.
proof fn lemma_parts(m: int)
    requires
        m >= 0,
    ensures
        exponent(m) >= 0,
        m == exponent(m) * TWO52 + significand(m),
        0 <= significand(m) < TWO53,
        exponent(m) > 0 ==> significand(m) >= TWO52,
{
    let t = TWO52 as int;
    if m >= t {
        assert(m == (m / t) * t + m % t && 0 <= m % t < t && m / t >= 1) by (nonlinear_arith)
            requires
                m >= t,
                t > 0,
        ;
        assert((m / t) * t == (m / t - 1) * t + t) by (nonlinear_arith);
    }
}

proof fn lemma_units_zero()
    ensures
        units_of(0) == 0,
{
    lemma_units_at(0, 0);
    assert(0 * pow2(0) == 0) by (nonlinear_arith);
    assert(0 * TWO52 + 0 == 0);
}

/// What a magnitude stands for rounds to that magnitude.
pub proof fn rounding_a_value_gives_it_back(m: int, d: int)
    requires
        0 <= m < INFINITE,
        d > 0,
    ensures
        nearest(units_of(m) * d, d) == m,
{
    lemma_parts(m);
    let e = exponent(m) as nat;
    let s = significand(m);
    let n = units_of(m) * d;
    lemma_two53();
    lemma_pow2_pos(e);
    lemma_pow2_adds(53, e);
    lemma_pow2_adds(52, e);
    let p = pow2(e) as int;
    assert(n == s * (d * p)) by (nonlinear_arith)
        requires
            n == (s * p) * d,
    ;
    assert(0 <= n < d * (TWO53 * p)) by (nonlinear_arith)
        requires
            n == s * (d * p),
            0 <= s < TWO53,
            d > 0,
            p > 0,
    ;
    if e > 0 {
        assert(n >= d * (TWO52 * p)) by (nonlinear_arith)
            requires
                n == s * (d * p),
                s >= TWO52,
                d > 0,
                p > 0,
        ;
    }
    lemma_stepped_at(n, d, e);
    assert(d * p > 0) by (nonlinear_arith)
        requires
            d > 0,
            p > 0,
    ;
    lemma_half_even_exact(s, d * p);
}

/// Larger magnitudes stand for larger values.
pub proof fn larger_magnitudes_are_larger_values(a: int, b: int)
    requires
        0 <= a < b,
    ensures
        units_of(a) < units_of(b),
{
    lemma_parts(a);
    lemma_parts(b);
    lemma_two53();
    let ea = exponent(a) as nat;
    let eb = exponent(b) as nat;
    let sa = significand(a);
    let sb = significand(b);
    lemma_pow2_pos(ea);
    lemma_pow2_pos(eb);
    if ea == eb {
        assert(sa * pow2(ea) < sb * pow2(ea)) by (nonlinear_arith)
            requires
                sa < sb,
                pow2(ea) > 0,
        ;
    } else {
        assert(ea < eb) by (nonlinear_arith)
            requires
                a == ea * TWO52 + sa,
                b == eb * TWO52 + sb,
                a < b,
                0 <= sa,
                ea != eb,
                sb < 2 * TWO52,
                ea > 0 ==> sa >= TWO52,
                eb > 0 ==> sb >= TWO52,
        ;
        let gap = (eb - ea - 1) as nat;
        lemma_pow2_adds(ea + 1, gap);
        lemma_pow2_unfold(ea + 1);
        lemma_pow2_pos(gap);
        let p = pow2(ea) as int;
        let g = pow2(gap) as int;
        assert(pow2(eb) == 2 * p * g);
        assert(sa * p < sb * (2 * p * g)) by (nonlinear_arith)
            requires
                0 <= sa < 2 * TWO52,
                sb >= TWO52,
                p > 0,
                g >= 1,
        ;
    }
}

/// The magnitude nearest to a ratio is nearest: no finite magnitude stands for a closer value.
pub proof fn rounding_is_to_the_nearest(n: int, d: int, other: int)
    requires
        n >= 0,
        d > 0,
        nearest(n, d) < INFINITE,
        0 <= other < INFINITE,
    ensures
        distance(units_of(nearest(n, d)) * d, n) <= distance(units_of(other) * d, n),
{
    let e = lemma_exponent(n, d);
    lemma_stepped_at(n, d, e);
    lemma_pow2_pos(e);
    lemma_two53();
    lemma_pow2_adds(53, e);
    lemma_pow2_adds(52, e);
    let p = pow2(e) as int;
    let w = d * p;
    assert(w > 0) by (nonlinear_arith)
        requires
            w == d * p,
            d > 0,
            p > 0,
    ;
    let h = half_even(n, w);
    lemma_half_even_bounds(n, w);
    let q = n / w;
    assert(q < TWO53) by (nonlinear_arith)
        requires
            q * w <= n,
            n < d * (TWO53 * p),
            w == d * p,
            w > 0,
    ;
    if e > 0 {
        assert(q >= TWO52) by (nonlinear_arith)
            requires
                n < (q + 1) * w,
                n >= d * (TWO52 * p),
                w == d * p,
                w > 0,
        ;
    }
    lemma_units_at(e, h);
    assert((h * p) * d == h * w) by (nonlinear_arith)
        requires
            w == d * p,
    ;
    lemma_parts(other);
    let f = exponent(other) as nat;
    let s = significand(other);
    if f >= e {
        lemma_pow2_adds(e, (f - e) as nat);
        let g = pow2((f - e) as nat) as int;
        let k = s * g;
        assert((s * (p * g)) * d == k * w) by (nonlinear_arith)
            requires
                k == s * g,
                w == d * p,
        ;
        lemma_half_even_closest(n, w, k);
    } else {
        // the other one is below 2^52 steps, and the ratio is not
        let gap = (e - f - 1) as nat;
        lemma_pow2_adds(f + 1, gap);
        lemma_pow2_unfold(f + 1);
        lemma_pow2_pos(gap);
        lemma_pow2_pos(f);
        let pf = pow2(f) as int;
        let g = pow2(gap) as int;
        assert(p == 2 * pf * g);
        assert(s * pf <= TWO52 * p) by (nonlinear_arith)
            requires
                0 <= s < 2 * TWO52,
                p == 2 * pf * g,
                pf > 0,
                g >= 1,
        ;
        assert((s * pf) * d <= TWO52 * w) by (nonlinear_arith)
            requires
                s * pf <= TWO52 * p,
                w == d * p,
                d > 0,
        ;
        assert(TWO52 * w <= n) by (nonlinear_arith)
            requires
                n >= d * (TWO52 * p),
                w == d * p,
        ;
        lemma_half_even_closest(n, w, TWO52 as int);
    }
}

/// Rounding is off by at most one part in 2^53, or by half a unit.
pub proof fn rounding_error_is_small(n: int, d: int)
    requires
        n >= 0,
        d > 0,
        nearest(n, d) < INFINITE,
    ensures
        distance(units_of(nearest(n, d)) * d, n) * TWO53 <= n + d * TWO52,
{
    let e = lemma_exponent(n, d);
    lemma_stepped_at(n, d, e);
    lemma_pow2_pos(e);
    lemma_two53();
    lemma_pow2_adds(53, e);
    lemma_pow2_adds(52, e);
    let p = pow2(e) as int;
    let w = d * p;
    assert(w > 0) by (nonlinear_arith)
        requires
            w == d * p,
            d > 0,
            p > 0,
    ;
    let h = half_even(n, w);
    lemma_half_even_bounds(n, w);
    let q = n / w;
    assert(q < TWO53) by (nonlinear_arith)
        requires
            q * w <= n,
            n < d * (TWO53 * p),
            w == d * p,
            w > 0,
    ;
    if e > 0 {
        assert(q >= TWO52) by (nonlinear_arith)
            requires
                n < (q + 1) * w,
                n >= d * (TWO52 * p),
                w == d * p,
                w > 0,
        ;
    }
    lemma_units_at(e, h);
    assert((h * p) * d == h * w) by (nonlinear_arith)
        requires
            w == d * p,
    ;
    let off = distance(h * w, n);
    if e > 0 {
        assert(d * (TWO52 * p) == w * TWO52) by (nonlinear_arith)
            requires
                w == d * p,
        ;
    } else {
        lemma2_to64();
        assert(w == d) by (nonlinear_arith)
            requires
                w == d * p,
                p == 1,
        ;
    }
}

/// The order of finite numbers is that of their values.
pub proof fn order_is_that_of_the_values(a: Number, b: Number)
    requires
        a.finite(),
        b.finite(),
    ensures
        a.at_most(b) <==> a.units() <= b.units(),
        a.below(b) <==> a.units() < b.units(),
{
    let x = a.magnitude();
    let y = b.magnitude();
    lemma_parts(x);
    lemma_parts(y);
    lemma_units_zero();
    if x > 0 {
        larger_magnitudes_are_larger_values(0, x);
    }
    if y > 0 {
        larger_magnitudes_are_larger_values(0, y);
    }
    if x < y {
        larger_magnitudes_are_larger_values(x, y);
    } else if y < x {
        larger_magnitudes_are_larger_values(y, x);
    }
}

/// Addition does not depend on the order of what is added.
pub proof fn addition_commutes(a: Number, b: Number)
    ensures
        a.plus(b) == b.plus(a),
{
}

/// Multiplication does not depend on the order of what is multiplied.
pub proof fn multiplication_commutes(a: Number, b: Number)
    ensures
        a.times(b) == b.times(a),
{
    assert(a.size() * b.size() == b.size() * a.size()) by (nonlinear_arith);
}

/// Adding zero to a finite number other than zero gives that number.
pub proof fn adding_zero_changes_nothing(a: Number, negative: bool)
    requires
        a.finite(),
        a.magnitude() != 0,
    ensures
        a.plus(zero(negative)) == a,
{
    let m = a.magnitude();
    lemma_units_zero();
    larger_magnitudes_are_larger_values(0, m);
    rounding_a_value_gives_it_back(m, 1);
    assert(units_of(m) * 1 == units_of(m));
}

/// The place of the highest bit of a number below 2^53.
proof fn lemma_highest_bit(n: nat, top: nat) -> (l: nat)
    requires
        0 < n < pow2(top + 1),
    ensures
        l <= top,
        pow2(l) <= n < pow2(l + 1),
    decreases top,
{
    if n >= pow2(top) {
        top
    } else if top == 0 {
        lemma2_to64();
        0
    } else {
        lemma_highest_bit(n, (top - 1) as nat)
    }
}

/// A whole number up to 2^53 is held exactly.
pub proof fn whole_numbers_are_exact(n: nat)
    requires
        n <= TWO53,
    ensures
        of_nat(n).finite(),
        of_nat(n).bits < SIGN,
        of_nat(n).units() == n * one_unit(),
        of_nat(n).size() == n * one_unit(),
        of_nat(n).magnitude() == nearest(n * one_unit(), 1),
{
    lemma_two53();
    lemma2_to64();
    let total = n * one_unit();
    if n == 0 {
        lemma_units_zero();
        assert(0 * one_unit() == 0) by (nonlinear_arith);
        rounding_a_value_gives_it_back(0, 1);
    } else {
        lemma_pow2_unfold(54);
        let l = lemma_highest_bit(n, 53);
        let e: nat = 1022 + l;
        lemma_pow2_adds(l, 1074);
        lemma_pow2_adds(l + 1, 1074);
        lemma_pow2_pos(1074);
        let u = pow2(1074) as int;
        assert(pow2(l) * u <= n * u < pow2(l + 1) * u) by (nonlinear_arith)
            requires
                pow2(l) <= n < pow2(l + 1),
                u > 0,
        ;
        assert(52 + e == l + 1074);
        assert(53 + e == l + 1 + 1074);
        lemma_stepped_at(total, 1, e);
        // one step is 2^e units, so the number is a whole number of steps
        lemma_pow2_pos(e);
        let p = pow2(e) as int;
        let h: int = if l <= 52 {
            (n * pow2((52 - l) as nat)) as int
        } else {
            TWO52 as int
        };
        if l <= 52 {
            lemma_pow2_adds((52 - l) as nat, e);
            lemma_pow2_adds(l, (52 - l) as nat);
            lemma_pow2_pos((52 - l) as nat);
            lemma_pow2_adds(l + 1, (52 - l) as nat);
            let g = pow2((52 - l) as nat) as int;
            assert(total == h * p) by (nonlinear_arith)
                requires
                    total == n * u,
                    u == g * p,
                    h == n * g,
            ;
            assert(pow2(l) * g <= h < pow2(l + 1) * g) by (nonlinear_arith)
                requires
                    h == n * g,
                    pow2(l) <= n < pow2(l + 1),
                    g > 0,
            ;
            assert(TWO52 <= h < TWO53);
        } else {
            assert(n == TWO53);
            lemma_pow2_adds(1, 1074);
            lemma_pow2_unfold(1075);
            assert(total == h * p) by (nonlinear_arith)
                requires
                    total == n * u,
                    p == 2 * u,
                    n == 2 * h,
            ;
        }
        lemma_half_even_exact(h, p);
        lemma_units_at(e, h);
        let m = e * TWO52 + h;
        assert(stepped(total, 1) == m);
        assert(m < INFINITE) by (nonlinear_arith)
            requires
                m == e * TWO52 + h,
                e <= 1075,
                h < TWO53,
        ;
        assert(m >= 0) by (nonlinear_arith)
            requires
                m == e * TWO52 + h,
                h >= 0,
        ;
    }
}

/// Counting by ones is exact up to 2^53.
pub proof fn counting_is_exact(n: nat)
    requires
        n < TWO53,
    ensures
        of_nat(n).plus(of_nat(1)) == of_nat(n + 1),
{
    whole_numbers_are_exact(n);
    whole_numbers_are_exact(1);
    lemma_pow2_pos(1074);
    assert(n * one_unit() + 1 * one_unit() == (n + 1) * one_unit()) by (nonlinear_arith);
    assert((n + 1) * one_unit() > 0) by (nonlinear_arith)
        requires
            one_unit() > 0,
            n >= 0,
    ;
}

/// Whole numbers are added exactly, as long as their sum is at most 2^53.
pub proof fn whole_sums_are_exact(a: nat, b: nat)
    requires
        a + b <= TWO53,
    ensures
        of_nat(a).plus(of_nat(b)) == of_nat(a + b),
        of_nat(0) == zero(false),
{
    whole_numbers_are_exact(a);
    whole_numbers_are_exact(b);
    whole_numbers_are_exact(0);
    lemma_pow2_pos(1074);
    lemma_units_zero();
    assert(a * one_unit() + b * one_unit() == (a + b) * one_unit()) by (nonlinear_arith);
    assert(0 * one_unit() == 0) by (nonlinear_arith);
    rounding_a_value_gives_it_back(0, 1);
    if a + b > 0 {
        assert((a + b) * one_unit() > 0) by (nonlinear_arith)
            requires
                one_unit() > 0,
                a + b > 0,
        ;
    }
}

/// Scaling both sides of a ratio leaves its rounding unchanged.
pub proof fn rounding_depends_on_the_ratio(n: int, d: int, c: int)
    requires
        n >= 0,
        d > 0,
        c > 0,
    ensures
        stepped(n * c, d * c) == stepped(n, d),
        nearest(n * c, d * c) == nearest(n, d),
    decreases
            if n < d * TWO53 {
                0
            } else {
                n - d * TWO53 + 1
            },
{
    assert(d * c > 0) by (nonlinear_arith)
        requires
            d > 0,
            c > 0,
    ;
    assert(n * c < (d * c) * TWO53 <==> n < d * TWO53) by (nonlinear_arith)
        requires
            c > 0,
    ;
    if n < d * TWO53 {
        lemma_half_even_scales(n, d, c);
    } else {
        rounding_depends_on_the_ratio(n, 2 * d, c);
        assert((2 * d) * c == 2 * (d * c)) by (nonlinear_arith);
    }
}

} // verus!
