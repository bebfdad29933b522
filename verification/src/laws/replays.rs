//! Replays: when a recorded event is due.

use vstd::prelude::*;
use vstd::arithmetic::power2::{lemma2_to64, lemma_pow2_adds, lemma_pow2_pos, pow2};
use crate::laws::arithmetic::{a_quotient_is_nearly_exact, lemma_size};
use crate::laws::histograms::division_keeps_order;
use crate::laws::numbers::{
    distance, larger_magnitudes_are_larger_values, order_is_that_of_the_values, rounding_depends_on_the_ratio,
    whole_numbers_are_exact,
};
use crate::number::{of_nat, one_unit, zero, Number, SIGN};
use crate::replay::due_at;
use crate::rounding::{TWO52, TWO53};
use crate::scenario::ONE;

verus! {

/// The bits of one stand for one.
proof fn lemma_one()
    ensures
        (Number { bits: ONE }).finite(),
        (Number { bits: ONE }).units() == one_unit(),
        (Number { bits: ONE }).size() == one_unit(),
{
    lemma2_to64();
    crate::rounding::lemma_two53();
    lemma_pow2_adds(52, 1022);
    let m = ONE as int;
    assert(m / TWO52 as int == 0x3ff && m % TWO52 as int == 0) by (nonlinear_arith)
        requires
            m == 0x3ff0_0000_0000_0000,
            TWO52 == 0x10_0000_0000_0000,
    ;
}

/// A speed that is not above zero replays at the original speed.
pub proof fn a_speed_must_be_above_zero(t_ms: u128, speed: Number)
    requires
        speed.at_most(zero(false)),
    ensures
        due_at(t_ms, speed) == due_at(t_ms, Number { bits: ONE }),
{
    lemma_one();
}

/// At the original speed an event is due as long after the start as it was recorded.
pub proof fn the_original_speed_keeps_the_time(t_ms: u128)
    requires
        t_ms <= TWO53,
    ensures
        due_at(t_ms, Number { bits: ONE }) == t_ms,
{
    lemma_one();
    lemma_pow2_pos(1074);
    let u = one_unit();
    let one = Number { bits: ONE };
    let t = t_ms as nat;
    whole_numbers_are_exact(t);
    rounding_depends_on_the_ratio(t * u, 1, u);
    assert(1 * u == u);
    assert(of_nat(t).over(one) == of_nat(t));
    assert((t * u) / u == t) by (nonlinear_arith)
        requires
            u > 0,
    ;
}

/// What was recorded later is not due earlier, at whatever speed.
pub proof fn later_events_are_not_due_earlier(t_ms: u128, later: u128, speed: Number)
    requires
        t_ms <= later <= TWO53,
        speed.finite(),
    ensures
        due_at(t_ms, speed) <= due_at(later, speed),
{
    lemma_one();
    lemma_pow2_pos(1074);
    let u = one_unit();
    let pace = crate::replay::pace(speed);
    whole_numbers_are_exact(t_ms as nat);
    whole_numbers_are_exact(later as nat);
    let a = of_nat(t_ms as nat);
    let b = of_nat(later as nat);
    assert(t_ms * u <= later * u) by (nonlinear_arith)
        requires
            t_ms <= later,
            u > 0,
    ;
    order_is_that_of_the_values(a, b);
    assert(pace.bits < SIGN && pace.magnitude() != 0);
    division_keeps_order(a, b, pace);
    let q = a.over(pace);
    let r = b.over(pace);
    if r.finite() {
        if q.magnitude() < r.magnitude() {
            larger_magnitudes_are_larger_values(q.magnitude(), r.magnitude());
        }
        assert(q.size() <= r.size());
        vstd::arithmetic::div_mod::lemma_div_is_ordered(q.size(), r.size(), u);
        lemma_size(q);
        vstd::arithmetic::div_mod::lemma_div_pos_is_pos(q.size(), u);
    }
}

/// A replay divides the time by the speed: as many milliseconds as it counts, times the speed, are the
/// time recorded, to within one millisecond of the replay and one part in 2^53.
pub proof fn the_speed_divides_the_time(t_ms: u128, speed: Number)
    requires
        speed.finite(),
        zero(false).below(speed),
        t_ms <= TWO53,
        t_ms * one_unit() <= speed.units() * TWO53,
    ensures
        due_at(t_ms, speed) * speed.units() * TWO53 <= t_ms * one_unit() * (TWO53 + 1) + speed.units(),
        t_ms * one_unit() * (TWO53 - 1) < (due_at(t_ms, speed) + 1) * speed.units() * TWO53 + speed.units(),
{
    lemma_pow2_pos(1074);
    let u = one_unit();
    crate::rounding::lemma_two53();
    lemma_pow2_adds(53, 1021);
    lemma_pow2_pos(1021);
    let rest = pow2(1021) as int;
    assert(u >= TWO53) by (nonlinear_arith)
        requires
            u == TWO53 * rest,
            rest > 0,
    ;
    let t = t_ms as int;
    let s = speed.units();
    whole_numbers_are_exact(t_ms as nat);
    whole_numbers_are_exact(0);
    let a = of_nat(t_ms as nat);
    lemma_size(speed);
    assert(t * u >= 0) by (nonlinear_arith)
        requires
            t >= 0,
            u > 0,
    ;
    a_quotient_is_nearly_exact(a, speed);
    let q = a.over(speed);
    lemma_size(q);
    let n = q.size();
    assert(q.bits < SIGN) by {
        assert(a.size() * u >= 0) by (nonlinear_arith)
            requires
                a.size() == t * u,
                t * u >= 0,
                u > 0,
        ;
        crate::laws::histograms::lemma_nearest_range(a.size() * u, speed.size());
    }
    let due = n / u;
    vstd::arithmetic::div_mod::lemma_fundamental_div_mod(n, u);
    vstd::arithmetic::div_mod::lemma_mod_bound(n, u);
    vstd::arithmetic::div_mod::lemma_div_pos_is_pos(n, u);
    assert(due * u <= n < (due + 1) * u) by (nonlinear_arith)
        requires
            n == u * due + n % u,
            0 <= n % u < u,
    ;
    let e = distance(n * s, (t * u) * u);
    assert(e * TWO53 <= (t * u) * u + s * TWO52);
    // The count is far below what a u64 holds.
    assert(due <= u64::MAX) by (nonlinear_arith)
        requires
            due * u <= n,
            n * s <= (t * u) * u + e,
            e * TWO53 <= (t * u) * u + s * TWO52,
            t * u <= s * TWO53,
            s > 0,
            u > 0,
            TWO53 == 0x20_0000_0000_0000,
            TWO52 == 0x10_0000_0000_0000,
            u64::MAX == 0xffff_ffff_ffff_ffff,
    ;
    assert(due_at(t_ms, speed) == due);
    lemma_up(due, n, s, t * u, u, e);
    lemma_down(due, n, s, t * u, u, e);
    assert(due * s * TWO53 == (due * s) * TWO53);
}

proof fn lemma_up(due: int, n: int, s: int, w: int, u: int, e: int)
    requires
        due * u <= n,
        n * s <= w * u + e,
        e * TWO53 <= w * u + s * TWO52,
        s > 0,
        u >= TWO53,
        w >= 0,
    ensures
        due * s * TWO53 <= w * (TWO53 + 1) + s,
{
    let x = due * s;
    assert(x * u <= w * u + e) by (nonlinear_arith)
        requires
            x == due * s,
            due * u <= n,
            n * s <= w * u + e,
            s > 0,
    ;
    let bound = w * (TWO53 + 1) + s;
    assert((x * TWO53) * u <= bound * u) by (nonlinear_arith)
        requires
            x * u <= w * u + e,
            e * TWO53 <= w * u + s * TWO52,
            bound == w * (TWO53 + 1) + s,
            s > 0,
            u >= TWO53,
            TWO52 <= TWO53,
    ;
    assert(x * TWO53 <= bound) by (nonlinear_arith)
        requires
            (x * TWO53) * u <= bound * u,
            u > 0,
    ;
}

proof fn lemma_down(due: int, n: int, s: int, w: int, u: int, e: int)
    requires
        n < (due + 1) * u,
        w * u - e <= n * s,
        e * TWO53 <= w * u + s * TWO52,
        s > 0,
        u >= TWO53,
        w >= 0,
    ensures
        w * (TWO53 - 1) < (due + 1) * s * TWO53 + s,
{
    let x = (due + 1) * s;
    assert(w * u - e < x * u) by (nonlinear_arith)
        requires
            x == (due + 1) * s,
            n < (due + 1) * u,
            w * u - e <= n * s,
            s > 0,
    ;
    let bound = x * TWO53 + s;
    assert((w * (TWO53 - 1)) * u < bound * u) by (nonlinear_arith)
        requires
            w * u - e < x * u,
            e * TWO53 <= w * u + s * TWO52,
            bound == x * TWO53 + s,
            s > 0,
            u >= TWO53,
            TWO52 <= TWO53,
            TWO53 > 0,
    ;
    assert(w * (TWO53 - 1) < bound) by (nonlinear_arith)
        requires
            (w * (TWO53 - 1)) * u < bound * u,
            u > 0,
    ;
}

} // verus!
