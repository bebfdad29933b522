//! Binary64 numbers, held by their bit patterns.
//!
//! Every operation is the exact one on the values, rounded once to the nearest number with
//! ties to even, as IEEE 754 has it.

use vstd::prelude::*;
use vstd::arithmetic::power2::{pow2, lemma2_to64, lemma_pow2_adds, lemma_pow2_pos, lemma_pow2_strictly_increases, lemma_pow2_unfold};
use vstd::arithmetic::div_mod::lemma_fundamental_div_mod_converse;
use crate::sorted::Duplicate;
use crate::rounding::{exponent, lemma_two53, nearest, pack, power_of_two, significand, units_of, INFINITE, TWO52, TWO53};

verus! {

/// The sign bit.
pub const SIGN: u64 = 0x8000_0000_0000_0000;

/// The bit pattern that stands for every result that is not a number.
pub const QUIET: u64 = 0x7ff8_0000_0000_0000;

/// A binary64 number.
#[derive(Clone, Copy, Debug, PartialEq, Eq, Structural)]
pub struct Number {
    pub bits: u64,
}

impl DeepView for Number {
    type V = Number;

    open spec fn deep_view(&self) -> Number {
        *self
    }
}

impl Duplicate for Number {
    fn duplicate(&self) -> (r: Self) {
        *self
    }
}

/// The number of units of 2^-1074 in one.
pub open spec fn one_unit() -> int {
    pow2(1074) as int
}

/// Zero, with the given sign.
pub open spec fn zero(negative: bool) -> Number {
    Number { bits: if negative { SIGN } else { 0 } }
}

/// Infinity, with the given sign.
pub open spec fn infinity(negative: bool) -> Number {
    Number { bits: if negative { (SIGN + INFINITE) as u64 } else { INFINITE } }
}

/// The result of an operation that has no value.
pub open spec fn not_a_number() -> Number {
    Number { bits: QUIET }
}

/// The number nearest to `n / d` units, with the given sign.
pub open spec fn closest(negative: bool, n: int, d: int) -> Number {
    Number { bits: (nearest(n, d) + if negative { SIGN as int } else { 0 }) as u64 }
}

/// The number nearest to a whole number.
pub open spec fn of_nat(n: nat) -> Number {
    closest(false, n * one_unit(), 1)
}

impl Number {
    pub open spec fn spec_negative(self) -> bool {
        self.bits >= SIGN
    }

    /// The bit pattern without its sign.
    pub open spec fn magnitude(self) -> int {
        if self.bits >= SIGN {
            self.bits - SIGN
        } else {
            self.bits as int
        }
    }

    pub open spec fn nan(self) -> bool {
        self.magnitude() > INFINITE
    }

    pub open spec fn infinite(self) -> bool {
        self.magnitude() == INFINITE
    }

    pub open spec fn finite(self) -> bool {
        self.magnitude() < INFINITE
    }

    /// The absolute value of a finite number, in units.
    pub open spec fn size(self) -> int {
        units_of(self.magnitude())
    }

    /// The value of a finite number, in units.
    pub open spec fn units(self) -> int {
        if self.bits >= SIGN {
            -self.size()
        } else {
            self.size()
        }
    }

    /// The place of a number in the order of all numbers; both zeros have the same.
    pub open spec fn rank(self) -> int {
        if self.bits >= SIGN {
            -self.magnitude()
        } else {
            self.magnitude()
        }
    }

    /// `self` with the other sign.
    pub open spec fn opposite(self) -> Number {
        Number { bits: (if self.bits >= SIGN { self.bits - SIGN } else { self.bits + SIGN }) as u64 }
    }

    /// The sum.
    pub open spec fn plus(self, other: Number) -> Number {
        if self.nan() || other.nan() || (self.infinite() && other.infinite()
            && self.spec_negative() != other.spec_negative()) {
            not_a_number()
        } else if self.infinite() {
            self
        } else if other.infinite() {
            other
        } else {
            let total = self.units() + other.units();
            if total == 0 {
                zero(self.spec_negative() && other.spec_negative())
            } else if total < 0 {
                closest(true, -total, 1)
            } else {
                closest(false, total, 1)
            }
        }
    }

    /// The difference.
    pub open spec fn minus(self, other: Number) -> Number {
        self.plus(other.opposite())
    }

    /// The product.
    pub open spec fn times(self, other: Number) -> Number {
        let negative = self.spec_negative() != other.spec_negative();
        if self.nan() || other.nan() {
            not_a_number()
        } else if self.infinite() || other.infinite() {
            if self.magnitude() == 0 || other.magnitude() == 0 {
                not_a_number()
            } else {
                infinity(negative)
            }
        } else {
            closest(negative, self.size() * other.size(), one_unit())
        }
    }

    /// The quotient.
    pub open spec fn over(self, other: Number) -> Number {
        let negative = self.spec_negative() != other.spec_negative();
        if self.nan() || other.nan() || (self.infinite() && other.infinite()) || (self.magnitude()
            == 0 && other.magnitude() == 0) {
            not_a_number()
        } else if self.infinite() || other.magnitude() == 0 {
            infinity(negative)
        } else if other.infinite() {
            zero(negative)
        } else {
            closest(negative, self.size() * one_unit(), other.size())
        }
    }

    /// Numeric order; nothing is ordered with what is not a number.
    pub open spec fn at_most(self, other: Number) -> bool {
        !self.nan() && !other.nan() && self.rank() <= other.rank()
    }

    pub open spec fn below(self, other: Number) -> bool {
        !self.nan() && !other.nan() && self.rank() < other.rank()
    }

    /// The larger of two numbers; what is not a number gives way to the other.
    pub open spec fn greater(self, other: Number) -> Number {
        if self.nan() {
            other
        } else if other.nan() || other.at_most(self) {
            self
        } else {
            other
        }
    }

    /// The absolute value.
    pub open spec fn absolute(self) -> Number {
        Number { bits: self.magnitude() as u64 }
    }

    /// Rounded towards zero to a `u64`; what does not fit goes to the nearer end.
    pub open spec fn truncated(self) -> u64 {
        if self.nan() || self.bits >= SIGN {
            0
        } else if self.infinite() || self.size() / one_unit() > u64::MAX {
            u64::MAX
        } else {
            (self.size() / one_unit()) as u64
        }
    }

    /// Rounded to the nearest `u64`, halves upwards; what does not fit goes to the nearer end.
    pub open spec fn rounded(self) -> u64 {
        if self.nan() || self.bits >= SIGN {
            0
        } else if self.infinite() || (2 * self.size() + one_unit()) / (2 * one_unit()) > u64::MAX {
            u64::MAX
        } else {
            ((2 * self.size() + one_unit()) / (2 * one_unit())) as u64
        }
    }

    /// The number with the given bit pattern.
    pub fn from_bits(bits: u64) -> (r: Number)
        ensures
            r.bits == bits,
    {
        Number { bits }
    }

    pub fn to_bits(self) -> (bits: u64)
        ensures
            bits == self.bits,
    {
        self.bits
    }

    pub fn is_negative(self) -> (r: bool)
        ensures
            r == self.spec_negative(),
    {
        self.bits >= SIGN
    }

    fn magnitude_bits(self) -> (m: u64)
        ensures
            m == self.magnitude(),
    {
        if self.bits >= SIGN {
            self.bits - SIGN
        } else {
            self.bits
        }
    }

    pub fn is_nan(self) -> (r: bool)
        ensures
            r == self.nan(),
    {
        self.magnitude_bits() > INFINITE
    }

    pub fn is_finite(self) -> (r: bool)
        ensures
            r == self.finite(),
    {
        self.magnitude_bits() < INFINITE
    }

    pub fn le(self, other: Number) -> (r: bool)
        ensures
            r == self.at_most(other),
    {
        !self.is_nan() && !other.is_nan() && Self::ranked(self, other)
    }

    pub fn lt(self, other: Number) -> (r: bool)
        ensures
            r == self.below(other),
    {
        !self.is_nan() && !other.is_nan() && !Self::ranked(other, self)
    }

    fn ranked(a: Number, b: Number) -> (r: bool)
        ensures
            r == (a.rank() <= b.rank()),
    {
        if a.is_negative() {
            if b.is_negative() {
                b.magnitude_bits() <= a.magnitude_bits()
            } else {
                true
            }
        } else if b.is_negative() {
            a.magnitude_bits() == 0 && b.magnitude_bits() == 0
        } else {
            a.magnitude_bits() <= b.magnitude_bits()
        }
    }

    pub fn max(self, other: Number) -> (r: Number)
        ensures
            r == self.greater(other),
    {
        if self.is_nan() {
            other
        } else if other.is_nan() || other.le(self) {
            self
        } else {
            other
        }
    }

    pub fn abs(self) -> (r: Number)
        ensures
            r == self.absolute(),
    {
        Number { bits: self.magnitude_bits() }
    }

    pub fn neg(self) -> (r: Number)
        ensures
            r == self.opposite(),
    {
        if self.bits >= SIGN {
            Number { bits: self.bits - SIGN }
        } else {
            Number { bits: self.bits + SIGN }
        }
    }
}

/// A magnitude with its sign put back.
fn signed(negative: bool, m: u64) -> (r: Number)
    requires
        m <= INFINITE,
    ensures
        r.bits == m + (if negative { SIGN as int } else { 0 }),
{
    if negative {
        Number { bits: m + SIGN }
    } else {
        Number { bits: m }
    }
}

/// The significand and the exponent of a magnitude.
fn parts(m: u64) -> (r: (u64, u64))
    requires
        m < INFINITE,
    ensures
        r.0 == significand(m as int),
        r.1 == exponent(m as int),
        r.0 < TWO53,
        r.1 <= 2045,
        r.1 > 0 ==> r.0 >= TWO52,
        r.0 == 0 <==> m == 0,
{
    if m < TWO52 {
        (m, 0)
    } else {
        (TWO52 + m % TWO52, m / TWO52 - 1)
    }
}

proof fn lemma_exact_bracket(q: int, k: nat)
    requires
        q >= 0,
    ensures
        crate::rounding::brackets(q, k as int, false, q * pow2(k), 1),
{
    lemma2_to64();
    lemma_pow2_pos(k);
    let a = pow2(k) as int;
    assert(a * 1 == a && (q * a) * 1 == q * a) by (nonlinear_arith);
    assert(q * a < (q + 1) * a) by (nonlinear_arith)
        requires
            a > 0,
    ;
}

/// A small term only nudges a far larger one: the bracket of the sum or the difference.
proof fn lemma_nudged_bracket(x: int, ex: int, y: int, ey: int, away: bool)
    requires
        0 < x < TWO53,
        0 < y < TWO53,
        ey >= 0,
        ex - ey > 70,
    ensures
        ({
            let n = if away {
                x * pow2(ex as nat) - y * pow2(ey as nat)
            } else {
                x * pow2(ex as nat) + y * pow2(ey as nat)
            };
            let q = if away {
                x * 0x20000 - 1
            } else {
                x * 0x20000
            };
            n > 0 && crate::rounding::brackets(q, ex - 17, true, n, 1)
        }),
{
    lemma2_to64();
    lemma_two53();
    let step = pow2((ex - 17) as nat) as int;
    let small = y * pow2(ey as nat);
    lemma_pow2_adds((ex - 17) as nat, 17);
    assert(pow2(17) == 0x20000);
    assert(x * pow2(ex as nat) == (x * 0x20000) * step) by (nonlinear_arith)
        requires
            pow2(ex as nat) == step * 0x20000,
    ;
    lemma_pow2_pos(ey as nat);
    lemma_pow2_adds(53, ey as nat);
    assert(0 < small < pow2((53 + ey) as nat)) by (nonlinear_arith)
        requires
            0 < y < TWO53,
            small == y * pow2(ey as nat),
            pow2((53 + ey) as nat) == TWO53 * pow2(ey as nat),
            pow2(ey as nat) > 0,
    ;
    lemma_pow2_strictly_increases((53 + ey) as nat, (ex - 17) as nat);
    assert(0 < small < step);
    let q = x * 0x20000;
    assert(step * 1 == step);
    assert((q + 1) * step == q * step + step && (q - 1) * step == q * step - step) by (nonlinear_arith);
    assert(q * step > small) by (nonlinear_arith)
        requires
            q >= 1,
            small < step,
            step > 0,
    ;
    assert((q * step + small) * 1 == q * step + small && (q * step - small) * 1 == q * step - small);
}

/// The sum of `x * 2^ex` and `y * 2^ey` units where the first exponent is no smaller.
fn add_ordered(x: u64, ex: u64, x_negative: bool, y: u64, ey: u64, y_negative: bool) -> (r: Number)
    requires
        x < TWO53,
        y < TWO53,
        ey <= ex <= 2045,
        ex > ey ==> x >= TWO52,
    ensures
        ({
            let a = x * pow2(ex as nat);
            let b = y * pow2(ey as nat);
            let total = (if x_negative { -a } else { a }) + (if y_negative { -b } else { b });
            r == if total == 0 {
                zero(x_negative && y_negative)
            } else if total < 0 {
                closest(true, -total, 1)
            } else {
                closest(false, total, 1)
            }
        }),
{
    let ghost a = x * pow2(ex as nat);
    let ghost b = y * pow2(ey as nat);
    proof {
        lemma_pow2_pos(ex as nat);
        lemma_pow2_pos(ey as nat);
        assert(a >= 0 && b >= 0) by (nonlinear_arith)
            requires
                a == x * pow2(ex as nat),
                b == y * pow2(ey as nat),
        ;
        lemma_two53();
        lemma2_to64();
    }
    let gap: u64 = ex - ey;
    if gap > 70 && y > 0 {
        proof {
            lemma_nudged_bracket(x as int, ex as int, y as int, ey as int, x_negative != y_negative);
        }
        if x_negative == y_negative {
            let m: u64 = pack(x as u128 * 0x20000, ex as i32 - 17, true, Ghost(a + b), Ghost(1int));
            signed(x_negative, m)
        } else {
            let m: u64 = pack(x as u128 * 0x20000 - 1, ex as i32 - 17, true, Ghost(a - b), Ghost(1int));
            signed(x_negative, m)
        }
    } else if gap > 70 {
        proof {
            lemma_exact_bracket(x as int, ex as nat);
            assert(b == 0) by (nonlinear_arith)
                requires
                    b == y * pow2(ey as nat),
                    y == 0,
            ;
            assert(a > 0) by (nonlinear_arith)
                requires
                    a == x * pow2(ex as nat),
                    x > 0,
                    pow2(ex as nat) > 0,
            ;
        }
        let m: u64 = pack(x as u128, ex as i32, false, Ghost(a), Ghost(1int));
        signed(x_negative, m)
    } else {
        let lift: u128 = power_of_two(gap as u32);
        proof {
            lemma_pow2_70();
            lemma_pow2_pos(gap as nat);
            if gap < 70 {
                lemma_pow2_strictly_increases(gap as nat, 70);
            }
            assert(x * lift < 0x20_0000_0000_0000 * 0x40_0000_0000_0000_0000) by (nonlinear_arith)
                requires
                    x < 0x20_0000_0000_0000,
                    0 < lift <= 0x40_0000_0000_0000_0000,
            ;
            lemma_pow2_adds(ey as nat, gap as nat);
        }
        let big: u128 = x as u128 * lift;
        let small: u128 = y as u128;
        let ghost step = pow2(ey as nat) as int;
        proof {
            assert(a == big * step) by (nonlinear_arith)
                requires
                    a == x * pow2(ex as nat),
                    pow2(ex as nat) == step * lift,
                    big == x * lift,
            ;
            assert((big + small) * step == a + b && (big - small) * step == a - b && (small - big) * step == b - a)
                by (nonlinear_arith)
                requires
                    a == big * step,
                    b == small * step,
            ;
        }
        if x_negative == y_negative {
            if big + small == 0 {
                return signed(x_negative, 0);
            }
            proof {
                lemma_exact_bracket(big + small, ey as nat);
                lemma_positive(big + small, step);
            }
            let m: u64 = pack(big + small, ey as i32, false, Ghost(a + b), Ghost(1int));
            signed(x_negative, m)
        } else if big == small {
            proof {
                assert(a == b);
            }
            signed(false, 0)
        } else if big > small {
            proof {
                lemma_exact_bracket(big - small, ey as nat);
                lemma_positive(big - small, step);
            }
            let m: u64 = pack(big - small, ey as i32, false, Ghost(a - b), Ghost(1int));
            signed(x_negative, m)
        } else {
            proof {
                lemma_exact_bracket(small - big, ey as nat);
                lemma_positive(small - big, step);
            }
            let m: u64 = pack(small - big, ey as i32, false, Ghost(b - a), Ghost(1int));
            signed(y_negative, m)
        }
    }
}

proof fn lemma_positive(x: int, y: int)
    requires
        x > 0,
        y > 0,
    ensures
        x * y > 0,
{
    assert(x * y > 0) by (nonlinear_arith)
        requires
            x > 0,
            y > 0,
    ;
}

proof fn lemma_pow2_70()
    ensures
        pow2(70) == 0x40_0000_0000_0000_0000int,
{
    lemma2_to64();
    lemma_pow2_adds(64, 6);
}

impl Number {
    pub fn add(self, other: Number) -> (r: Number)
        ensures
            r == self.plus(other),
    {
        if self.is_nan() || other.is_nan() {
            return Number { bits: QUIET };
        }
        if !self.is_finite() {
            if !other.is_finite() && self.is_negative() != other.is_negative() {
                return Number { bits: QUIET };
            }
            return self;
        }
        if !other.is_finite() {
            return other;
        }
        let (x, ex): (u64, u64) = parts(self.magnitude_bits());
        let (y, ey): (u64, u64) = parts(other.magnitude_bits());
        if ex >= ey {
            add_ordered(x, ex, self.is_negative(), y, ey, other.is_negative())
        } else {
            add_ordered(y, ey, other.is_negative(), x, ex, self.is_negative())
        }
    }

    pub fn sub(self, other: Number) -> (r: Number)
        ensures
            r == self.minus(other),
    {
        self.add(other.neg())
    }

    pub fn mul(self, other: Number) -> (r: Number)
        ensures
            r == self.times(other),
    {
        let negative: bool = self.is_negative() != other.is_negative();
        if self.is_nan() || other.is_nan() {
            return Number { bits: QUIET };
        }
        if !self.is_finite() || !other.is_finite() {
            if self.magnitude_bits() == 0 || other.magnitude_bits() == 0 {
                return Number { bits: QUIET };
            }
            return signed(negative, INFINITE);
        }
        let (x, ex): (u64, u64) = parts(self.magnitude_bits());
        let (y, ey): (u64, u64) = parts(other.magnitude_bits());
        let ghost n = self.size() * other.size();
        let ghost d = one_unit();
        proof {
            lemma_pow2_pos(1074);
            lemma_pow2_pos(ex as nat);
            lemma_pow2_pos(ey as nat);
            assert(x * y < 0x20_0000_0000_0000 * 0x20_0000_0000_0000) by (nonlinear_arith)
                requires
                    x < 0x20_0000_0000_0000,
                    y < 0x20_0000_0000_0000,
            ;
            assert(n == (x * y) * (pow2(ex as nat) * pow2(ey as nat))) by (nonlinear_arith)
                requires
                    n == (x * pow2(ex as nat)) * (y * pow2(ey as nat)),
            ;
            lemma_pow2_adds(ex as nat, ey as nat);
        }
        let q: u128 = x as u128 * y as u128;
        if q == 0 {
            proof {
                assert(n == 0) by (nonlinear_arith)
                    requires
                        n == (x * y) * pow2((ex + ey) as nat),
                        x * y == 0,
                ;
                lemma_nearest_zero(d);
            }
            return signed(negative, 0);
        }
        let k: i32 = ex as i32 + ey as i32 - 1074;
        proof {
            lemma_product_bracket(q as int, (ex + ey) as nat, n);
        }
        let m: u64 = pack(q, k, false, Ghost(n), Ghost(d));
        signed(negative, m)
    }
}

proof fn lemma_nearest_zero(d: int)
    requires
        d > 0,
    ensures
        nearest(0, d) == 0,
{
    assert(0 == 0 * d + 0);
    lemma_fundamental_div_mod_converse(0, d, 0, 0);
    assert(d * TWO53 > 0) by (nonlinear_arith)
        requires
            d > 0,
    ;
}

proof fn lemma_product_bracket(q: int, e: nat, n: int)
    requires
        q > 0,
        n == q * pow2(e),
    ensures
        n > 0,
        crate::rounding::brackets(q, e - 1074, false, n, one_unit()),
{
    lemma2_to64();
    lemma_pow2_pos(e);
    lemma_pow2_pos(1074);
    lemma_positive(q, pow2(e) as int);
    let d = one_unit();
    if e >= 1074 {
        let a = pow2((e - 1074) as nat) as int;
        lemma_pow2_adds((e - 1074) as nat, 1074);
        assert(q * (a * d) == n);
        lemma_pow2_pos((e - 1074) as nat);
        assert(n * pow2(0) == n);
        lemma_positive(a, d);
        assert((q + 1) * (a * d) == q * (a * d) + a * d) by (nonlinear_arith);
    } else {
        let b = pow2((1074 - e) as nat) as int;
        lemma_pow2_adds(e, (1074 - e) as nat);
        assert(n * b == q * (pow2(0) * d)) by (nonlinear_arith)
            requires
                n == q * pow2(e),
                pow2(e) * b == d,
                pow2(0) == 1,
        ;
        assert((q + 1) * (pow2(0) * d) == q * (pow2(0) * d) + d) by (nonlinear_arith)
            requires
                pow2(0) == 1,
        ;
    }
}

/// The bracket of `x * 2^ex * 2^1074 / (y * 2^ey)` that the quotient `q` of the scaled
/// significands gives.
proof fn lemma_quotient_bracket(x: int, ex: nat, i: nat, y: int, ey: nat, j: nat, q: int, rem: int)
    requires
        x > 0,
        y > 0,
        q >= 0,
        (x * pow2(i)) * pow2(70) == q * (y * pow2(j)) + rem,
        0 <= rem < y * pow2(j),
    ensures
        crate::rounding::brackets(
            q,
            (ex - i) - (ey - j) + 1004,
            rem != 0,
            (x * pow2(ex)) * one_unit(),
            y * pow2(ey),
        ),
{
    lemma2_to64();
    lemma_pow2_pos(i);
    lemma_pow2_pos(j);
    lemma_pow2_pos(ex);
    lemma_pow2_pos(ey);
    lemma_pow2_pos(1074);
    let k = (ex - i) - (ey - j) + 1004;
    let n = (x * pow2(ex)) * one_unit();
    let d = y * pow2(ey);
    let xs = x * pow2(i);
    let ys = y * pow2(j);
    let t = pow2(70) as int;
    if k >= 0 {
        // n * 2^i == xs * 2^70 * c and 2^k * d * 2^i == ys * c, with c == 2^(ex + 1004)
        let a = pow2(k as nat) as int;
        let pi = pow2(i) as int;
        let c = pow2((ex + 1004) as nat) as int;
        lemma_pow2_pos((ex + 1004) as nat);
        lemma_pow2_adds(ex, 1074);
        lemma_pow2_adds((ex + 1004) as nat, 70);
        assert(n * pi == (xs * t) * c) by (nonlinear_arith)
            requires
                n == (x * pow2(ex)) * one_unit(),
                xs == x * pi,
                pow2(ex) * one_unit() == c * t,
        ;
        lemma_pow2_adds(k as nat, ey);
        lemma_pow2_adds((k + ey) as nat, i);
        lemma_pow2_adds((ex + 1004) as nat, j);
        assert((a * d) * pi == ys * c) by (nonlinear_arith)
            requires
                d == y * pow2(ey),
                ys == y * pow2(j),
                (a * pow2(ey)) * pi == c * pow2(j),
        ;
        lemma_scaled_bracket(q, rem, ys, xs * t, c, n, a * d, pi);
        assert(n * pow2(0) == n);
    } else {
        // n * 2^-k * 2^j == xs * 2^70 * 2^ey and d * 2^j == ys * 2^ey
        let b = pow2((-k) as nat) as int;
        let pj = pow2(j) as int;
        let c = pow2(ey) as int;
        lemma_pow2_adds(ex, 1074);
        lemma_pow2_adds((ex + 1074) as nat, (-k) as nat);
        lemma_pow2_adds((ex + 1074 - k) as nat, j);
        lemma_pow2_adds(i, 70);
        lemma_pow2_adds((i + 70) as nat, ey);
        let w = pow2(ex) * one_unit();
        let pi = pow2(i) as int;
        assert(n == x * w) by (nonlinear_arith)
            requires
                n == (x * pow2(ex)) * one_unit(),
                w == pow2(ex) * one_unit(),
        ;
        assert((n * b) * pj == x * ((w * b) * pj)) by (nonlinear_arith)
            requires
                n == x * w,
        ;
        assert((xs * t) * c == x * ((pi * t) * c)) by (nonlinear_arith)
            requires
                xs == x * pi,
        ;
        assert((w * b) * pj == (pi * t) * c);
        assert(d * pj == ys * c) by (nonlinear_arith)
            requires
                d == y * c,
                ys == y * pj,
        ;
        lemma_scaled_bracket(q, rem, ys, xs * t, c, n * b, d, pj);
        assert(pow2(0) * d == d);
    }
}

/// A bracket survives scaling both sides by positive factors.
proof fn lemma_scaled_bracket(q: int, rem: int, ys: int, top: int, c: int, n: int, u: int, f: int)
    requires
        top == q * ys + rem,
        0 <= rem < ys,
        c > 0,
        f > 0,
        n * f == top * c,
        u * f == ys * c,
    ensures
        q * u <= n < (q + 1) * u,
        rem != 0 <==> n != q * u,
{
    assert((n - q * u) * f == rem * c) by (nonlinear_arith)
        requires
            top == q * ys + rem,
            n * f == top * c,
            u * f == ys * c,
    ;
    assert(((q + 1) * u - n) * f == (ys - rem) * c) by (nonlinear_arith)
        requires
            top == q * ys + rem,
            n * f == top * c,
            u * f == ys * c,
    ;
    assert(n - q * u >= 0) by (nonlinear_arith)
        requires
            (n - q * u) * f == rem * c,
            rem >= 0,
            c > 0,
            f > 0,
    ;
    assert((q + 1) * u - n > 0) by (nonlinear_arith)
        requires
            ((q + 1) * u - n) * f == (ys - rem) * c,
            ys - rem > 0,
            c > 0,
            f > 0,
    ;
    if rem == 0 {
        assert(n - q * u == 0) by (nonlinear_arith)
            requires
                (n - q * u) * f == rem * c,
                rem == 0,
                f > 0,
        ;
    } else {
        assert(n - q * u != 0) by (nonlinear_arith)
            requires
                (n - q * u) * f == rem * c,
                rem > 0,
                c > 0,
                f > 0,
        ;
    }
}

/// A significand scaled up to at least 2^52, with the number of doublings.
fn normalise(x: u64) -> (r: (u64, u32))
    requires
        0 < x < TWO53,
    ensures
        TWO52 <= r.0 < TWO53,
        r.1 <= 52,
        r.0 == x * pow2(r.1 as nat),
{
    proof {
        lemma2_to64();
    }
    let mut m: u64 = x;
    let mut i: u32 = 0;
    assert(x * pow2(0) == x) by (nonlinear_arith)
        requires
            pow2(0) == 1,
    ;
    while m < TWO52
        invariant
            0 < x < TWO53,
            0 < m < TWO53,
            m == x * pow2(i as nat),
            pow2(i as nat) <= m,
            i <= 52,
        decreases TWO53 - m,
    {
        proof {
            lemma_two53();
            lemma_pow2_unfold((i + 1) as nat);
            assert(x * (2 * pow2(i as nat)) == 2 * (x * pow2(i as nat))) by (nonlinear_arith);
            if i >= 52 {
                assert(false);
            }
        }
        m = m * 2;
        i = i + 1;
    }
    (m, i)
}

impl Number {
    pub fn div(self, other: Number) -> (r: Number)
        ensures
            r == self.over(other),
    {
        let negative: bool = self.is_negative() != other.is_negative();
        if self.is_nan() || other.is_nan() || (!self.is_finite() && !other.is_finite()) || (
        self.magnitude_bits() == 0 && other.magnitude_bits() == 0) {
            return Number { bits: QUIET };
        }
        if !self.is_finite() || other.magnitude_bits() == 0 {
            return signed(negative, INFINITE);
        }
        if !other.is_finite() {
            return signed(negative, 0);
        }
        let (x, ex): (u64, u64) = parts(self.magnitude_bits());
        let (y, ey): (u64, u64) = parts(other.magnitude_bits());
        let ghost n = self.size() * one_unit();
        let ghost d = other.size();
        proof {
            lemma_pow2_pos(1074);
            lemma_pow2_pos(ex as nat);
            lemma_pow2_pos(ey as nat);
            lemma_positive(y as int, pow2(ey as nat) as int);
        }
        if x == 0 {
            proof {
                assert(n == 0) by (nonlinear_arith)
                    requires
                        n == (x * pow2(ex as nat)) * one_unit(),
                        x == 0,
                ;
                lemma_nearest_zero(d);
            }
            return signed(negative, 0);
        }
        let (xs, i): (u64, u32) = normalise(x);
        let (ys, j): (u64, u32) = normalise(y);
        proof {
            lemma_pow2_70();
            assert(xs * 0x40_0000_0000_0000_0000 < 0x20_0000_0000_0000 * 0x40_0000_0000_0000_0000);
        }
        let top: u128 = xs as u128 * 0x40_0000_0000_0000_0000;
        let q: u128 = top / ys as u128;
        let rem: u128 = top % ys as u128;
        let k: i32 = (ex as i32 - i as i32) - (ey as i32 - j as i32) + 1004;
        proof {
            assert(top == q * ys + rem && 0 <= rem < ys) by (nonlinear_arith)
                requires
                    q == top / ys as u128,
                    rem == top % ys as u128,
                    ys > 0,
            ;
            assert(q >= TWO53) by (nonlinear_arith)
                requires
                    top == q * ys + rem,
                    rem < ys,
                    ys < 0x20_0000_0000_0000,
                    top >= 0x10_0000_0000_0000 * 0x40_0000_0000_0000_0000,
                    TWO53 == 0x20_0000_0000_0000,
            ;
            lemma_quotient_bracket(x as int, ex as nat, i as nat, y as int, ey as nat, j as nat, q as int, rem as int);
            lemma_positive(x as int, pow2(ex as nat) as int);
            lemma_positive(self.size(), one_unit());
        }
        let m: u64 = pack(q, k, rem != 0, Ghost(n), Ghost(d));
        signed(negative, m)
    }

    /// The number nearest to a whole number.
    pub fn of(n: u128) -> (r: Number)
        ensures
            r == of_nat(n as nat),
    {
        if n == 0 {
            proof {
                assert(0 * one_unit() == 0);
                lemma_nearest_zero(1);
            }
            return Number { bits: 0 };
        }
        proof {
            lemma_exact_bracket(n as int, 1074);
            lemma_pow2_pos(1074);
            lemma_positive(n as int, one_unit());
        }
        let m: u64 = pack(n, 1074, false, Ghost(n * one_unit()), Ghost(1int));
        Number { bits: m }
    }
}

/// The whole part of `x * 2^e / 2^1074`, and the half of it that rounding needs.
proof fn lemma_whole(x: int, e: nat)
    requires
        0 <= x < TWO53,
        e <= 2045,
    ensures
        e >= 1074 ==> (x * pow2(e)) / one_unit() == x * pow2((e - 1074) as nat),
        e >= 1074 ==> (2 * (x * pow2(e)) + one_unit()) / (2 * one_unit()) == x * pow2((e - 1074) as nat),
        e < 1074 ==> (x * pow2(e)) / one_unit() == x / pow2((1074 - e) as nat) as int,
        e < 1074 ==> (2 * (x * pow2(e)) + one_unit()) / (2 * one_unit()) == (x + pow2((1073 - e) as nat)) / pow2(
            (1074 - e) as nat,
        ) as int,
        e < 1021 ==> (x * pow2(e)) / one_unit() == 0,
        e < 1020 ==> (2 * (x * pow2(e)) + one_unit()) / (2 * one_unit()) == 0,
{
    lemma2_to64();
    lemma_two53();
    let d = one_unit();
    let v = x * pow2(e);
    lemma_pow2_pos(1074);
    lemma_pow2_pos(e);
    assert(v >= 0) by (nonlinear_arith)
        requires
            v == x * pow2(e),
            x >= 0,
            pow2(e) > 0,
    ;
    if e >= 1074 {
        let w = x * pow2((e - 1074) as nat);
        lemma_pow2_adds((e - 1074) as nat, 1074);
        assert(v == w * d + 0 && 2 * v + d == w * (2 * d) + d) by (nonlinear_arith)
            requires
                v == x * pow2(e),
                w == x * pow2((e - 1074) as nat),
                pow2(e) == pow2((e - 1074) as nat) * d,
        ;
        lemma_fundamental_div_mod_converse(v, d, w, 0);
        lemma_fundamental_div_mod_converse(2 * v + d, 2 * d, w, d);
    } else {
        let s = (1074 - e) as nat;
        let p = pow2(s) as int;
        let h = pow2((s - 1) as nat) as int;
        lemma_pow2_pos(s);
        lemma_pow2_pos((s - 1) as nat);
        lemma_pow2_adds(e, s);
        lemma_pow2_unfold(s);
        let q = x / p;
        let r = x % p;
        let q2 = (x + h) / p;
        let r2 = (x + h) % p;
        let u = pow2(e) as int;
        assert(x == q * p + r && 0 <= r < p) by (nonlinear_arith)
            requires
                q == x / p,
                r == x % p,
                p > 0,
        ;
        assert(x + h == q2 * p + r2 && 0 <= r2 < p) by (nonlinear_arith)
            requires
                q2 == (x + h) / p,
                r2 == (x + h) % p,
                p > 0,
        ;
        assert(v == q * d + r * u && 0 <= r * u < d) by (nonlinear_arith)
            requires
                v == x * u,
                d == u * p,
                x == q * p + r,
                0 <= r < p,
                u > 0,
        ;
        lemma_fundamental_div_mod_converse(v, d, q, r * u);
        assert(2 * v + d == q2 * (2 * d) + 2 * (r2 * u) && 0 <= 2 * (r2 * u) < 2 * d) by (nonlinear_arith)
            requires
                v == x * u,
                d == u * p,
                p == 2 * h,
                x + h == q2 * p + r2,
                0 <= r2 < p,
                u > 0,
        ;
        lemma_fundamental_div_mod_converse(2 * v + d, 2 * d, q2, 2 * (r2 * u));
        if e < 1021 {
            if s > 54 {
                lemma_pow2_strictly_increases(54, s);
            }
            lemma_pow2_unfold(54);
            assert(x == 0 * p + x);
            lemma_fundamental_div_mod_converse(x, p, 0, x);
        }
        if e < 1020 {
            lemma_pow2_unfold(54);
            if s - 1 > 54 {
                lemma_pow2_strictly_increases(54, (s - 1) as nat);
            }
            assert(x + h == 0 * p + (x + h));
            lemma_fundamental_div_mod_converse(x + h, p, 0, x + h);
        }
    }
}

impl Number {
    /// Rounds towards zero to a `u64`.
    pub fn truncate(self) -> (r: u64)
        ensures
            r == self.truncated(),
    {
        if self.is_nan() || self.is_negative() {
            return 0;
        }
        if !self.is_finite() {
            return u64::MAX;
        }
        let (x, e): (u64, u64) = parts(self.magnitude_bits());
        proof {
            lemma_whole(x as int, e as nat);
        }
        if e < 1021 {
            return 0;
        }
        if e >= 1074 {
            return lifted(x, (e - 1074) as u32);
        }
        let p: u128 = power_of_two((1074 - e) as u32);
        proof {
            lemma_pow2_pos((1074 - e) as nat);
            lemma_quotient_small(x as int, p as int);
        }
        (x as u128 / p) as u64
    }

    /// Rounds to the nearest `u64`, halves upwards.
    pub fn round(self) -> (r: u64)
        ensures
            r == self.rounded(),
    {
        if self.is_nan() || self.is_negative() {
            return 0;
        }
        if !self.is_finite() {
            return u64::MAX;
        }
        let (x, e): (u64, u64) = parts(self.magnitude_bits());
        proof {
            lemma_whole(x as int, e as nat);
        }
        if e < 1020 {
            return 0;
        }
        if e >= 1074 {
            return lifted(x, (e - 1074) as u32);
        }
        let p: u128 = power_of_two((1074 - e) as u32);
        let h: u128 = power_of_two((1073 - e) as u32);
        proof {
            lemma2_to64();
            lemma_two53();
            lemma_pow2_unfold(54);
            lemma_pow2_pos((1074 - e) as nat);
            if 1073 - e < 54 {
                lemma_pow2_strictly_increases((1073 - e) as nat, 54);
            }
            lemma_quotient_small(x + h, p as int);
        }
        ((x as u128 + h) / p) as u64
    }
}

proof fn lemma_quotient_small(x: int, p: int)
    requires
        x >= 0,
        p >= 1,
    ensures
        0 <= x / p <= x,
{
    assert(0 <= x / p <= x) by (nonlinear_arith)
        requires
            x >= 0,
            p >= 1,
    ;
}

/// `x * 2^s`, or the largest `u64` where that does not fit.
fn lifted(x: u64, s: u32) -> (r: u64)
    requires
        x >= TWO52,
        x < TWO53,
    ensures
        r == (if x * pow2(s as nat) > u64::MAX { u64::MAX as int } else { x * pow2(s as nat) }),
{
    if s >= 12 {
        proof {
            lemma2_to64();
            if s > 12 {
                lemma_pow2_strictly_increases(12, s as nat);
            }
            assert(x * pow2(s as nat) >= 0x10_0000_0000_0000 * 4096) by (nonlinear_arith)
                requires
                    x >= 0x10_0000_0000_0000,
                    pow2(s as nat) >= 4096,
            ;
        }
        u64::MAX
    } else {
        let p: u128 = power_of_two(s);
        proof {
            lemma2_to64();
            if s < 12 {
                lemma_pow2_strictly_increases(s as nat, 12);
            }
            lemma_pow2_pos(s as nat);
            assert(x * p <= 0x20_0000_0000_0000 * 2048) by (nonlinear_arith)
                requires
                    x <= 0x20_0000_0000_0000,
                    p <= 2048,
            ;
        }
        let v: u128 = x as u128 * p;
        if v > u64::MAX as u128 {
            u64::MAX
        } else {
            v as u64
        }
    }
}

} // verus!
