//! Arithmetic: how far the result of one operation can be from the exact one.

use vstd::prelude::*;
use vstd::arithmetic::power2::lemma_pow2_pos;
use crate::laws::numbers::{
    distance, larger_magnitudes_are_larger_values, rounding_depends_on_the_ratio, rounding_error_is_small,
    rounding_keeps_order, whole_numbers_are_exact,
};
use crate::number::{closest, of_nat, one_unit, Number};
use crate::rounding::{nearest, units_of, INFINITE, TWO52, TWO53};

verus! {

pub open spec fn abs(a: int) -> int {
    if a < 0 {
        -a
    } else {
        a
    }
}

proof fn lemma_units_zero()
    ensures
        units_of(0) == 0,
{
    whole_numbers_are_exact(0);
    assert(0 * one_unit() == 0) by (nonlinear_arith);
    crate::laws::numbers::whole_sums_are_exact(0, 0);
}

proof fn lemma_units_nonneg(m: int)
    requires
        m >= 0,
    ensures
        units_of(m) >= 0,
        m > 0 ==> units_of(m) > 0,
{
    lemma_units_zero();
    if m > 0 {
        larger_magnitudes_are_larger_values(0, m);
    }
}

pub(crate) proof fn lemma_size(a: Number)
    ensures
        a.size() >= 0,
        a.size() == abs(a.units()),
        a.magnitude() == 0 <==> a.size() == 0,
{
    lemma_units_nonneg(a.magnitude());
    lemma_units_zero();
}

/// A ratio of at most 2^53 rounds to a finite magnitude, which is not far off.
proof fn lemma_ratio(n: int, d: int)
    requires
        n >= 0,
        d > 0,
        n <= d * (TWO53 * one_unit()),
    ensures
        0 <= nearest(n, d) < INFINITE,
        distance(units_of(nearest(n, d)) * d, n) * TWO53 <= n + d * TWO52,
        n == 0 ==> nearest(n, d) == 0,
{
    lemma_pow2_pos(1074);
    let top = TWO53 * one_unit();
    assert(top > 0);
    whole_numbers_are_exact(TWO53 as nat);
    whole_numbers_are_exact(0);
    rounding_depends_on_the_ratio(top, 1, d);
    assert(1 * d == d);
    assert(top * d == d * top) by (nonlinear_arith);
    rounding_keeps_order(n, top * d, d);
    rounding_depends_on_the_ratio(0, 1, d);
    assert(0 * d == 0);
    assert(0 * one_unit() == 0) by (nonlinear_arith);
    rounding_keeps_order(0, n, d);
    crate::laws::numbers::whole_sums_are_exact(0, 0);
    assert(nearest(0, 1) == of_nat(0).magnitude());
    rounding_error_is_small(n, d);
}

/// The value of a rounded ratio with a sign.
proof fn lemma_closest(negative: bool, n: int, d: int)
    requires
        n >= 0,
        d > 0,
        n <= d * (TWO53 * one_unit()),
    ensures
        closest(negative, n, d).finite(),
        distance(
            closest(negative, n, d).units() * d,
            if negative {
                -n
            } else {
                n
            },
        ) * TWO53 <= n + d * TWO52,
        n == 0 ==> closest(negative, n, d).units() == 0,
{
    lemma_ratio(n, d);
    lemma_units_zero();
    let c = closest(negative, n, d);
    let m = nearest(n, d);
    assert(c.magnitude() == m);
    let s = units_of(m);
    if negative {
        assert((-s) * d == -(s * d)) by (nonlinear_arith);
    }
}

/// A sum is off by at most one part in 2^53.
pub proof fn a_sum_is_nearly_exact(a: Number, b: Number)
    requires
        a.finite(),
        b.finite(),
        abs(a.units() + b.units()) <= TWO53 * one_unit(),
    ensures
        a.plus(b).finite(),
        distance(a.plus(b).units(), a.units() + b.units()) * TWO53 <= abs(a.units() + b.units()) + TWO52,
        a.units() + b.units() == 0 ==> a.plus(b).units() == 0,
{
    lemma_units_zero();
    let total = a.units() + b.units();
    if total != 0 {
        lemma_closest(total < 0, abs(total), 1);
        let r = a.plus(b).units();
        assert(r * 1 == r);
    }
}

/// A difference is off by at most one part in 2^53.
pub proof fn a_difference_is_nearly_exact(a: Number, b: Number)
    requires
        a.finite(),
        b.finite(),
        abs(a.units() - b.units()) <= TWO53 * one_unit(),
    ensures
        a.minus(b).finite(),
        distance(a.minus(b).units(), a.units() - b.units()) * TWO53 <= abs(a.units() - b.units()) + TWO52,
        a.units() == b.units() ==> a.minus(b).units() == 0,
{
    let c = b.opposite();
    assert(c.magnitude() == b.magnitude());
    assert(c.units() == -b.units());
    a_sum_is_nearly_exact(a, c);
}

/// A product is off by at most one part in 2^53.
pub proof fn a_product_is_nearly_exact(a: Number, b: Number)
    requires
        a.finite(),
        b.finite(),
        abs(a.units()) * abs(b.units()) <= one_unit() * (TWO53 * one_unit()),
    ensures
        a.times(b).finite(),
        distance(a.times(b).units() * one_unit(), a.units() * b.units()) * TWO53 <= abs(a.units()) * abs(b.units())
            + one_unit() * TWO52,
        a.units() == 0 || b.units() == 0 ==> a.times(b).units() == 0,
{
    lemma_pow2_pos(1074);
    lemma_size(a);
    lemma_size(b);
    let x = a.size();
    let y = b.size();
    let negative = a.spec_negative() != b.spec_negative();
    assert(x * y >= 0) by (nonlinear_arith)
        requires
            x >= 0,
            y >= 0,
    ;
    lemma_closest(negative, x * y, one_unit());
    assert(a.units() * b.units() == if negative {
        -(x * y)
    } else {
        x * y
    }) by (nonlinear_arith)
        requires
            a.units() == (if a.spec_negative() {
                -x
            } else {
                x
            }),
            b.units() == (if b.spec_negative() {
                -y
            } else {
                y
            }),
            negative == (a.spec_negative() != b.spec_negative()),
    ;
    if x == 0 || y == 0 {
        assert(x * y == 0) by (nonlinear_arith)
            requires
                x == 0 || y == 0,
        ;
    }
}

/// A quotient is off by at most one part in 2^53.
pub proof fn a_quotient_is_nearly_exact(a: Number, b: Number)
    requires
        a.finite(),
        b.finite(),
        b.units() > 0,
        abs(a.units()) <= b.units() * TWO53,
    ensures
        a.over(b).finite(),
        distance(a.over(b).units() * b.units(), a.units() * one_unit()) * TWO53 <= abs(a.units()) * one_unit()
            + b.units() * TWO52,
{
    lemma_pow2_pos(1074);
    lemma_size(a);
    lemma_size(b);
    let u = one_unit();
    let x = a.size();
    let d = b.size();
    assert(!b.spec_negative());
    let n = x * u;
    assert(0 <= n <= d * (TWO53 * u)) by (nonlinear_arith)
        requires
            n == x * u,
            0 <= x <= d * TWO53,
            u > 0,
    ;
    lemma_closest(a.spec_negative(), n, d);
    assert(a.units() * u == if a.spec_negative() {
        -n
    } else {
        n
    }) by (nonlinear_arith)
        requires
            n == x * u,
            a.units() == (if a.spec_negative() {
                -x
            } else {
                x
            }),
    ;
}

/// Whole numbers, also negative ones, are added exactly up to 2^53.
pub proof fn whole_numbers_add_up(a: Number, b: Number, j: int, k: int)
    requires
        a.finite(),
        b.finite(),
        a.units() == j * one_unit(),
        b.units() == k * one_unit(),
        abs(j + k) <= TWO53,
    ensures
        a.plus(b).finite(),
        a.plus(b).units() == (j + k) * one_unit(),
{
    lemma_pow2_pos(1074);
    lemma_units_zero();
    let u = one_unit();
    let total = a.units() + b.units();
    let n = abs(j + k) as nat;
    assert(total == (j + k) * u) by (nonlinear_arith)
        requires
            total == j * u + k * u,
    ;
    assert(abs(total) == n * u) by (nonlinear_arith)
        requires
            total == (j + k) * u,
            n == abs(j + k),
            u > 0,
    ;
    if total == 0 {
        assert((j + k) * u == 0);
    } else {
        whole_numbers_are_exact(n);
        let r = closest(total < 0, abs(total), 1);
        assert(r.magnitude() == nearest(n * u, 1));
        assert(r.size() == n * u);
        if total < 0 {
            assert(-(n * u) == (j + k) * u);
        }
    }
}

} // verus!
