//! Arithmetic on numbers, held against that of the machine.

use tutui::number::Number;

fn num(v: f64) -> Number {
    Number::from_bits(v.to_bits())
}

fn val(n: Number) -> f64 {
    f64::from_bits(n.to_bits())
}

fn same(a: f64, b: f64) -> bool {
    (a.is_nan() && b.is_nan()) || a.to_bits() == b.to_bits()
}

fn agree(a: f64, b: f64) {
    let (x, y) = (num(a), num(b));
    assert!(same(val(x.add(y)), a + b), "{a:e} + {b:e}");
    assert!(same(val(x.sub(y)), a - b), "{a:e} - {b:e}");
    assert!(same(val(x.mul(y)), a * b), "{a:e} * {b:e}");
    assert!(same(val(x.div(y)), a / b), "{a:e} / {b:e}");
    assert_eq!(x.le(y), a <= b, "{a:e} <= {b:e}");
    assert_eq!(x.lt(y), a < b, "{a:e} < {b:e}");
    assert!(a.max(b) == val(x.max(y)) || (a.is_nan() && b.is_nan() && x.max(y).is_nan()), "max {a:e} {b:e}");
}

fn alone(a: f64) {
    let x = num(a);
    assert_eq!(x.truncate(), a as u64, "{a:e} as u64");
    assert_eq!(x.round(), a.round() as u64, "round {a:e}");
    assert_eq!(x.is_nan(), a.is_nan());
    assert_eq!(x.is_finite(), a.is_finite());
    assert!(same(val(x.abs()), a.abs()));
    assert!(same(val(x.neg()), -a));
}

fn specials() -> Vec<f64> {
    vec![
        0.0,
        -0.0,
        1.0,
        -1.0,
        0.1,
        0.2,
        0.5,
        1.5,
        2.5,
        1e-310,
        f64::MIN_POSITIVE,
        f64::from_bits(1),
        f64::from_bits(0x000f_ffff_ffff_ffff),
        f64::MAX,
        f64::MIN,
        f64::INFINITY,
        f64::NEG_INFINITY,
        f64::NAN,
        9007199254740992.0,
        9007199254740993.0,
        1e300,
        1e-300,
        18446744073709551615.0,
        18446744073709549568.0,
        f64::EPSILON,
        1.0 + f64::EPSILON,
        1.0 - f64::EPSILON / 2.0,
    ]
}

fn next(state: &mut u64) -> u64 {
    *state ^= *state << 13;
    *state ^= *state >> 7;
    *state ^= *state << 17;
    *state
}

#[test]
fn special_numbers_agree() {
    for a in specials() {
        alone(a);
        for b in specials() {
            agree(a, b);
        }
    }
}

#[test]
fn random_bit_patterns_agree() {
    let mut state: u64 = 0x9e37_79b9_7f4a_7c15;
    for _ in 0..40_000 {
        let a = f64::from_bits(next(&mut state));
        let b = f64::from_bits(next(&mut state));
        alone(a);
        agree(a, b);
    }
}

#[test]
fn numbers_of_like_size_agree() {
    let mut state: u64 = 0x1234_5678_9abc_def1;
    for _ in 0..40_000 {
        let shift = (next(&mut state) % 40) as i32 - 20;
        let a = (next(&mut state) >> 11) as f64 * 2f64.powi(shift);
        let b = (next(&mut state) >> (11 + next(&mut state) % 40)) as f64;
        let sign = if next(&mut state) % 2 == 0 { 1.0 } else { -1.0 };
        alone(a * 1e-9);
        agree(a, b * sign);
        agree(a / 1e6, sign * b / 1e3);
    }
}

#[test]
fn tiny_numbers_agree() {
    let mut state: u64 = 77;
    for _ in 0..20_000 {
        let a = f64::from_bits(next(&mut state) >> (12 + next(&mut state) % 20));
        let b = f64::from_bits(next(&mut state) >> (12 + next(&mut state) % 20));
        agree(a, b);
        agree(a, 0.75);
        agree(b, 3.0);
    }
}

#[test]
fn whole_numbers_agree() {
    let mut state: u64 = 4242;
    for _ in 0..20_000 {
        let n = (next(&mut state) as u128) << (next(&mut state) % 65);
        let n = n >> (next(&mut state) % 64);
        assert!(same(val(Number::of(n)), n as f64), "{n}");
    }
    for n in [0u128, 1, 10, 1000, u64::MAX as u128, u128::MAX, (1u128 << 53) + 1, (1u128 << 54) + 2] {
        assert!(same(val(Number::of(n)), n as f64), "{n}");
    }
}

#[test]
fn counting_by_ones_is_exact() {
    let one = Number::of(1);
    let mut n = Number::of(0);
    for k in 1..=2000u128 {
        n = n.add(one);
        assert_eq!(n, Number::of(k));
    }
    let top = (1u128 << 53) - 1;
    assert_eq!(Number::of(top).add(one), Number::of(top + 1));
}

#[test]
fn sums_round_to_nearest_with_ties_to_even() {
    assert_eq!(val(num(0.1).add(num(0.2))), 0.30000000000000004);
    assert_eq!(val(num(9007199254740992.0).add(num(1.0))), 9007199254740992.0);
    assert_eq!(val(num(9007199254740994.0).add(num(1.0))), 9007199254740996.0);
    assert_eq!(val(num(1.0).div(num(3.0))), 0.3333333333333333);
}

#[test]
fn sums_and_products_commute() {
    for a in specials() {
        for b in specials() {
            assert_eq!(num(a).add(num(b)), num(b).add(num(a)));
            assert_eq!(num(a).mul(num(b)), num(b).mul(num(a)));
        }
        if a.is_finite() && a != 0.0 {
            assert_eq!(num(a).add(num(0.0)), num(a));
            assert_eq!(num(a).add(num(-0.0)), num(a));
        }
    }
}
