//! Rounding of an exact ratio to a binary64 magnitude.
//!
//! A magnitude is the bit pattern of a non-negative binary64 number. Its value is counted in
//! units of 2^-1074, the smallest positive binary64 number, so that every finite magnitude has
//! a whole number of units.

use vstd::prelude::*;
use vstd::arithmetic::power2::{pow2, lemma2_to64, lemma_pow2_adds, lemma_pow2_pos, lemma_pow2_strictly_increases, lemma_pow2_unfold};
use vstd::arithmetic::div_mod::lemma_fundamental_div_mod_converse;

verus! {

/// 2^52, the number of magnitudes that share one exponent.
pub const TWO52: u64 = 0x10_0000_0000_0000;

/// 2^53, the bound of a significand.
pub const TWO53: u64 = 0x20_0000_0000_0000;

/// The magnitude of infinity; every smaller magnitude is finite.
pub const INFINITE: u64 = 0x7ff0_0000_0000_0000;

/// The significand of a magnitude.
pub open spec fn significand(m: int) -> int {
    if m < TWO52 {
        m
    } else {
        TWO52 + m % (TWO52 as int)
    }
}

/// The power of two by which the significand of a magnitude is scaled.
pub open spec fn exponent(m: int) -> int {
    if m < TWO52 {
        0
    } else {
        m / (TWO52 as int) - 1
    }
}

/// The value of a finite magnitude, in units of 2^-1074.
pub open spec fn units_of(m: int) -> int {
    significand(m) * pow2(exponent(m) as nat)
}

/// `n / d` rounded to a whole number, halves to the even one.
pub open spec fn half_even(n: int, d: int) -> int {
    let q = n / d;
    let r = n % d;
    if 2 * r > d || (2 * r == d && q % 2 == 1) {
        q + 1
    } else {
        q
    }
}

/// The magnitude to which `n / d` units round, before the cap at infinity: a significand below
/// 2^53 is rounded to a whole number, and each doubling of the step that the significand needs
/// raises the exponent field by one.
pub open spec fn stepped(n: int, d: int) -> int
    decreases
            if n < d * TWO53 {
                0
            } else {
                n - d * TWO53 + 1
            },
    when d > 0
{
    if n < d * TWO53 {
        half_even(n, d)
    } else {
        TWO52 + stepped(n, 2 * d)
    }
}

/// The magnitude nearest to `n / d` units, ties to the even one, infinity when it is too large.
pub open spec fn nearest(n: int, d: int) -> int {
    if stepped(n, d) < INFINITE {
        stepped(n, d)
    } else {
        INFINITE as int
    }
}

/// `n / d` lies in `[q, q + 1)` steps of 2^k units, and above `q` exactly when `more`.
pub open spec fn brackets(q: int, k: int, more: bool, n: int, d: int) -> bool {
    let a = pow2((if k > 0 { k } else { 0 }) as nat);
    let b = pow2((if k < 0 { -k } else { 0 }) as nat);
    &&& q * (a * d) <= n * b < (q + 1) * (a * d)
    &&& more <==> n * b != q * (a * d)
}

pub proof fn lemma_two53()
    ensures
        pow2(52) == TWO52,
        pow2(53) == TWO53,
{
    lemma2_to64();
    lemma_pow2_unfold(53);
    lemma_pow2_unfold(52);
    lemma_pow2_unfold(51);
    lemma_pow2_unfold(50);
    lemma_pow2_unfold(49);
    lemma_pow2_unfold(48);
    lemma_pow2_unfold(47);
    lemma_pow2_unfold(46);
    lemma_pow2_unfold(45);
    lemma_pow2_unfold(44);
    lemma_pow2_unfold(43);
    lemma_pow2_unfold(42);
    lemma_pow2_unfold(41);
    lemma_pow2_unfold(40);
    lemma_pow2_unfold(39);
    lemma_pow2_unfold(38);
    lemma_pow2_unfold(37);
    lemma_pow2_unfold(36);
    lemma_pow2_unfold(35);
    lemma_pow2_unfold(34);
    lemma_pow2_unfold(33);
}

/// Scaling both sides of a ratio by `c` leaves its rounding unchanged.
pub proof fn lemma_half_even_scales(n: int, d: int, c: int)
    requires
        n >= 0,
        d > 0,
        c > 0,
    ensures
        half_even(n * c, d * c) == half_even(n, d),
{
    let q = n / d;
    let r = n % d;
    assert(n == q * d + r && 0 <= r < d) by (nonlinear_arith)
        requires
            n >= 0,
            d > 0,
            q == n / d,
            r == n % d,
    ;
    assert(n * c == q * (d * c) + r * c) by (nonlinear_arith)
        requires
            n == q * d + r,
    ;
    assert(0 <= r * c < d * c) by (nonlinear_arith)
        requires
            0 <= r < d,
            c > 0,
    ;
    lemma_fundamental_div_mod_converse(n * c, d * c, q, r * c);
    assert((2 * (r * c) > d * c <==> 2 * r > d) && (2 * (r * c) == d * c <==> 2 * r == d)) by (nonlinear_arith)
        requires
            c > 0,
    ;
}

/// Where the exponent of the rounded magnitude is known, so is the magnitude.
pub proof fn lemma_stepped_at(n: int, d: int, e: nat)
    requires
        d > 0,
        n >= 0,
        n < d * pow2(53 + e),
        e > 0 ==> n >= d * pow2((52 + e) as nat),
    ensures
        stepped(n, d) == e * TWO52 + half_even(n, d * pow2(e)),
    decreases e,
{
    lemma_two53();
    lemma2_to64();
    if e > 0 {
        let f = (e - 1) as nat;
        lemma_pow2_unfold(53 + e);
        lemma_pow2_unfold((52 + e) as nat);
        lemma_pow2_unfold(e);
        lemma_pow2_pos(f);
        lemma_pow2_adds(53, f);
        assert(pow2((52 + e) as nat) == TWO53 * pow2(f));
        assert(d * (TWO53 * pow2(f)) >= d * TWO53) by (nonlinear_arith)
            requires
                d > 0,
                pow2(f) >= 1,
        ;
        assert(n < (2 * d) * pow2((53 + f) as nat)) by (nonlinear_arith)
            requires
                n < d * pow2(53 + e),
                pow2(53 + e) == 2 * pow2((53 + f) as nat),
        ;
        if f > 0 {
            assert(n >= (2 * d) * pow2((52 + f) as nat)) by (nonlinear_arith)
                requires
                    n >= d * pow2((52 + e) as nat),
                    pow2((52 + e) as nat) == 2 * pow2((52 + f) as nat),
            ;
        }
        lemma_stepped_at(n, 2 * d, f);
        assert((2 * d) * pow2(f) == d * pow2(e)) by (nonlinear_arith)
            requires
                pow2(e) == 2 * pow2(f),
        ;
        assert(f * TWO52 + TWO52 == e * TWO52) by (nonlinear_arith)
            requires
                f == e - 1,
        ;
    } else {
        assert(d * pow2(0) == d) by (nonlinear_arith)
            requires
                pow2(0) == 1,
        ;
    }
}

/// Rounding a bracketed ratio to a step `p` times as wide looks only at the bracket.
proof fn lemma_bracketed_half_even(v: int, u: int, q: int, p: int, more: bool)
    requires
        u > 0,
        q >= 0,
        p > 0,
        p % 2 == 0,
        q * u <= v < (q + 1) * u,
        more <==> v != q * u,
    ensures
        ({
            let f = q / p;
            let r = q % p;
            let up = r > p / 2 || (r == p / 2 && (more || f % 2 == 1));
            half_even(v, u * p) == f + (if up { 1int } else { 0 })
        }),
{
    let f = q / p;
    let r = q % p;
    let h = p / 2;
    let t = v - q * u;
    let rem = r * u + t;
    assert((q + 1) * u == q * u + u) by (nonlinear_arith);
    assert(0 <= t < u);
    assert(q == f * p + r && 0 <= r < p) by (nonlinear_arith)
        requires
            p > 0,
            q >= 0,
            f == q / p,
            r == q % p,
    ;
    assert(v == f * (u * p) + rem) by (nonlinear_arith)
        requires
            v == q * u + t,
            q == f * p + r,
            rem == r * u + t,
    ;
    assert(0 <= rem < u * p) by (nonlinear_arith)
        requires
            rem == r * u + t,
            0 <= t < u,
            0 <= r < p,
    ;
    lemma_fundamental_div_mod_converse(v, u * p, f, rem);
    assert(u * p == 2 * (u * h)) by (nonlinear_arith)
        requires
            p == 2 * h,
    ;
    if r > h {
        assert(rem > u * h) by (nonlinear_arith)
            requires
                rem == r * u + t,
                t >= 0,
                u > 0,
                r >= h + 1,
        ;
    } else if r < h {
        assert(rem < u * h) by (nonlinear_arith)
            requires
                rem == r * u + t,
                t < u,
                u > 0,
                r <= h - 1,
        ;
    } else {
        assert(rem == u * h + t) by (nonlinear_arith)
            requires
                rem == r * u + t,
                r == h,
        ;
    }
}

/// 2^s, for a step that a `u128` can hold.
pub(crate) fn power_of_two(s: u32) -> (p: u128)
    requires
        s <= 127,
    ensures
        p == pow2(s as nat),
        s > 0 ==> p % 2 == 0,
{
    proof {
        lemma2_to64();
    }
    let mut p: u128 = 1;
    let mut i: u32 = 0;
    while i < s
        invariant
            i <= s <= 127,
            p == pow2(i as nat),
            i > 0 ==> p % 2 == 0,
        decreases s - i,
    {
        proof {
            lemma_pow2_unfold((i + 1) as nat);
            lemma_pow2_127();
            if i + 1 < 127 {
                lemma_pow2_strictly_increases((i + 1) as nat, 127);
            }
        }
        p = p * 2;
        i = i + 1;
    }
    p
}

proof fn lemma_pow2_127()
    ensures
        pow2(127) == 0x8000_0000_0000_0000_0000_0000_0000_0000int,
{
    lemma2_to64();
    lemma_pow2_adds(63, 64);
    lemma_pow2_unfold(64);
    assert(pow2(63) == 0x8000_0000_0000_0000int);
    assert(0x8000_0000_0000_0000int * 0x1_0000_0000_0000_0000int == 0x8000_0000_0000_0000_0000_0000_0000_0000int);
}

/// The number of binary digits of `q`.
fn bit_length(q: u128) -> (n: u32)
    requires
        q > 0,
    ensures
        1 <= n <= 128,
        pow2((n - 1) as nat) <= q < pow2(n as nat),
{
    proof {
        lemma2_to64();
        lemma_pow2_127();
        lemma_pow2_unfold(128);
    }
    let mut n: u32 = 128;
    let mut p: u128 = 0x8000_0000_0000_0000_0000_0000_0000_0000;
    while q < p
        invariant
            q > 0,
            1 <= n <= 128,
            p == pow2((n - 1) as nat),
            q < pow2(n as nat),
        decreases n,
    {
        proof {
            lemma2_to64();
            if n > 1 {
                lemma_pow2_unfold((n - 1) as nat);
            }
        }
        p = p / 2;
        n = n - 1;
    }
    n
}

/// The exponent that a bracketed ratio rounds to puts the ratio in its range.
proof fn lemma_bracketed_range(q: int, k: int, more: bool, n: int, d: int, bits: int, e: int)
    requires
        d > 0,
        n >= 0,
        brackets(q, k, more, n, d),
        bits >= 1,
        pow2((bits - 1) as nat) <= q < pow2(bits as nat),
        e == (if k + bits - 53 > 0 { k + bits - 53 } else { 0 }),
    ensures
        n < d * pow2((53 + e) as nat),
        e > 0 ==> n >= d * pow2((52 + e) as nat),
{
    let kp = (if k > 0 { k } else { 0 }) as nat;
    let kn = (if k < 0 { -k } else { 0 }) as nat;
    let a = pow2(kp) as int;
    let b = pow2(kn) as int;
    lemma_pow2_pos(kp);
    lemma_pow2_pos(kn);
    let top = pow2(bits as nat) as int;
    // n * b < top * a * d == d * 2^(bits + kp) <= d * 2^(53 + e + kn)
    assert((q + 1) * (a * d) <= top * (a * d)) by (nonlinear_arith)
        requires
            q + 1 <= top,
            a > 0,
            d > 0,
    ;
    lemma_pow2_adds(bits as nat, kp);
    let hi = pow2((bits + kp) as nat) as int;
    assert(top * (a * d) == d * hi) by (nonlinear_arith)
        requires
            hi == top * a,
    ;
    let cap = pow2((53 + e) as nat) as int;
    lemma_pow2_adds((53 + e) as nat, kn);
    let capb = pow2((53 + e + kn) as nat) as int;
    assert(bits + kp <= 53 + e + kn);
    if bits + kp < 53 + e + kn {
        lemma_pow2_strictly_increases((bits + kp) as nat, (53 + e + kn) as nat);
    }
    assert(hi <= capb);
    assert(d * hi <= d * capb) by (nonlinear_arith)
        requires
            hi <= capb,
            d > 0,
    ;
    assert(n * b < d * capb);
    assert(n < d * cap) by (nonlinear_arith)
        requires
            n * b < d * capb,
            capb == cap * b,
            b > 0,
    ;
    if e > 0 {
        let low = pow2((bits - 1) as nat) as int;
        assert(q * (a * d) >= low * (a * d)) by (nonlinear_arith)
            requires
                q >= low,
                a > 0,
                d > 0,
        ;
        lemma_pow2_adds((bits - 1) as nat, kp);
        let lo = pow2((bits - 1 + kp) as nat) as int;
        assert(low * (a * d) == d * lo) by (nonlinear_arith)
            requires
                lo == low * a,
        ;
        let floor = pow2((52 + e) as nat) as int;
        lemma_pow2_adds((52 + e) as nat, kn);
        assert(bits - 1 + kp == 52 + e + kn);
        assert(lo == floor * b);
        assert(n >= d * floor) by (nonlinear_arith)
            requires
                n * b >= d * lo,
                lo == floor * b,
                b > 0,
        ;
    }
}

/// A ratio that is a whole number of steps no wider than the target's is kept exactly.
proof fn lemma_exact_half_even(q: int, k: int, n: int, d: int, e: int)
    requires
        d > 0,
        q >= 0,
        0 <= e <= k,
        brackets(q, k, false, n, d),
    ensures
        half_even(n, d * pow2(e as nat)) == q * pow2((k - e) as nat),
{
    lemma2_to64();
    let p = pow2((k - e) as nat) as int;
    let step = d * pow2(e as nat);
    lemma_pow2_pos(e as nat);
    lemma_pow2_adds(e as nat, (k - e) as nat);
    assert(n * pow2(0) == n) by (nonlinear_arith)
        requires
            pow2(0) == 1,
    ;
    assert(step > 0) by (nonlinear_arith)
        requires
            d > 0,
            pow2(e as nat) > 0,
            step == d * pow2(e as nat),
    ;
    assert(n == (q * p) * step + 0) by (nonlinear_arith)
        requires
            n == q * (pow2(k as nat) * d),
            pow2(k as nat) == pow2(e as nat) * p,
            step == d * pow2(e as nat),
    ;
    lemma_fundamental_div_mod_converse(n, step, q * p, 0);
}

/// Rounding a bracketed ratio to a step 2^s times as wide as the bracket's.
proof fn lemma_coarser_half_even(q: int, k: int, more: bool, n: int, d: int, e: int)
    requires
        d > 0,
        n >= 0,
        q >= 0,
        e >= 0,
        e > k,
        brackets(q, k, more, n, d),
    ensures
        ({
            let p = pow2((e - k) as nat);
            let f = q / p as int;
            let r = q % p as int;
            let up = r > p / 2 || (r == p / 2 && (more || f % 2 == 1));
            half_even(n, d * pow2(e as nat)) == f + (if up { 1int } else { 0 })
        }),
{
    let kp = (if k > 0 { k } else { 0 }) as nat;
    let kn = (if k < 0 { -k } else { 0 }) as nat;
    let a = pow2(kp) as int;
    let b = pow2(kn) as int;
    let p = pow2((e - k) as nat) as int;
    let step = d * pow2(e as nat);
    lemma_pow2_pos(kp);
    lemma_pow2_pos(kn);
    lemma_pow2_pos(e as nat);
    lemma_pow2_pos((e - k) as nat);
    lemma_pow2_unfold((e - k) as nat);
    assert(p % 2 == 0);
    assert(step > 0) by (nonlinear_arith)
        requires
            d > 0,
            pow2(e as nat) > 0,
            step == d * pow2(e as nat),
    ;
    lemma_half_even_scales(n, step, b);
    lemma_pow2_adds(e as nat, kn);
    lemma_pow2_adds(kp, (e - k) as nat);
    assert(pow2(e as nat) * b == a * p);
    assert(step * b == (a * d) * p) by (nonlinear_arith)
        requires
            step == d * pow2(e as nat),
            pow2(e as nat) * b == a * p,
    ;
    assert(a * d > 0) by (nonlinear_arith)
        requires
            a > 0,
            d > 0,
    ;
    lemma_bracketed_half_even(n * b, a * d, q, p, more);
}

/// The magnitude nearest to a ratio of which a bracket of steps of 2^k units is known.
///
/// A ratio strictly above its bracket needs a bracket wider than a significand.
pub(crate) fn pack(q: u128, k: i32, more: bool, Ghost(n): Ghost<int>, Ghost(d): Ghost<int>) -> (m: u64)
    requires
        d > 0,
        n >= 0,
        q > 0,
        -4000 <= k <= 4000,
        more ==> q >= TWO53,
        brackets(q as int, k as int, more, n, d),
    ensures
        m == nearest(n, d),
{
    let bits: u32 = bit_length(q);
    let wide: i32 = k + bits as i32 - 53;
    let e: i32 = if wide > 0 { wide } else { 0 };
    proof {
        lemma_bracketed_range(q as int, k as int, more, n, d, bits as int, e as int);
        lemma_stepped_at(n, d, e as nat);
    }
    if e > 2046 {
        proof {
            lemma_pow2_pos(e as nat);
            assert(d * pow2(e as nat) > 0) by (nonlinear_arith)
                requires
                    d > 0,
                    pow2(e as nat) > 0,
            ;
            lemma_half_even_nonneg(n, d * pow2(e as nat));
        }
        return INFINITE;
    }
    let shift: i32 = e - k;
    let rounded: u64 = if shift <= 0 {
        proof {
            lemma_two53();
            if bits > 53 {
                assert(false);
            }
            if bits < 53 {
                lemma_pow2_strictly_increases(bits as nat, 53);
            }
            lemma_exact_half_even(q as int, k as int, n, d, e as int);
            lemma_pow2_adds(bits as nat, (k - e) as nat);
            lemma_pow2_pos((k - e) as nat);
            assert(q * pow2((k - e) as nat) < pow2(bits as nat) * pow2((k - e) as nat)) by (nonlinear_arith)
                requires
                    q < pow2(bits as nat),
                    pow2((k - e) as nat) > 0,
            ;
            if bits + k - e < 53 {
                lemma_pow2_strictly_increases((bits + k - e) as nat, 53);
            }
            if k - e > 52 {
                assert(false);
            }
        }
        let step: u128 = power_of_two((k - e) as u32);
        (q * step) as u64
    } else {
        proof {
            lemma_coarser_half_even(q as int, k as int, more, n, d, e as int);
        }
        if shift > 128 {
            proof {
                lemma_pow2_unfold(shift as nat);
                lemma_pow2_127();
                lemma_pow2_unfold(128);
                lemma_pow2_strictly_increases(128, shift as nat);
                if shift - 1 > 128 {
                    lemma_pow2_strictly_increases(128, (shift - 1) as nat);
                }
                lemma_small_ratio(q as int, pow2(shift as nat) as int);
            }
            0
        } else if shift == 128 {
            let half: u128 = power_of_two(127);
            proof {
                lemma_pow2_unfold(128);
                lemma_pow2_127();
                lemma_small_ratio(q as int, pow2(128) as int);
            }
            if q > half || (q == half && more) {
                1
            } else {
                0
            }
        } else {
            let p: u128 = power_of_two(shift as u32);
            proof {
                lemma_pow2_pos(shift as nat);
            }
            let f: u128 = q / p;
            let r: u128 = q % p;
            proof {
                lemma_two53();
                lemma_pow2_adds(53, shift as nat);
                if bits < 53 + shift {
                    lemma_pow2_strictly_increases(bits as nat, (53 + shift) as nat);
                }
                assert(q < TWO53 * p);
                assert(f < TWO53) by (nonlinear_arith)
                    requires
                        q < TWO53 * p,
                        f == q / p,
                        p > 0,
                ;
            }
            if r > p / 2 || (r == p / 2 && (more || f % 2 == 1)) {
                (f + 1) as u64
            } else {
                f as u64
            }
        }
    };
    assert(rounded <= TWO53);
    let m: u64 = e as u64 * TWO52 + rounded;
    if m < INFINITE {
        m
    } else {
        INFINITE
    }
}

proof fn lemma_half_even_nonneg(n: int, d: int)
    requires
        n >= 0,
        d > 0,
    ensures
        half_even(n, d) >= 0,
{
    assert(n / d >= 0) by (nonlinear_arith)
        requires
            n >= 0,
            d > 0,
    ;
}

proof fn lemma_small_ratio(q: int, p: int)
    requires
        0 <= q < p,
    ensures
        q / p == 0,
        q % p == q,
{
    assert(q == 0 * p + q);
    lemma_fundamental_div_mod_converse(q, p, 0, q);
}

} // verus!
