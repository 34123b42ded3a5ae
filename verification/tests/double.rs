//! Double-precision arithmetic, held against that of the machine.
use skip_list::double::Double;
use skip_list::parameter::Parameter;

/// The number as the machine has it.
fn value(d: Double) -> f64 {
    match d {
        Double::NotANumber => f64::NAN,
        Double::Infinite { negative } => {
            if negative {
                f64::NEG_INFINITY
            } else {
                f64::INFINITY
            }
        }
        Double::Finite { negative, mantissa, exponent } => {
            let magnitude = mantissa as f64 * 2f64.powi(exponent);
            if negative {
                -magnitude
            } else {
                magnitude
            }
        }
    }
}

fn same(d: Double, x: f64) {
    let v = value(d);
    assert!(v == x || (v.is_nan() && x.is_nan()), "{:?} is {} and not {}", d, v, x);
}

/// Pseudo-random numbers of very different sizes.
fn numbers() -> Vec<i64> {
    let mut out = vec![0, 1, -1, 2, 3, 5, 7, 10, 100, -100, i64::MAX, i64::MIN];
    for k in 50..63 {
        for delta in [-3i64, -2, -1, 0, 1, 2, 3] {
            out.push((1i64 << k) + delta);
        }
    }
    let mut x = 88172645463325252u64;
    for i in 0..200 {
        x ^= x << 13;
        x ^= x >> 7;
        x ^= x << 17;
        out.push((x as i64) >> (i % 63));
    }
    out
}

#[test]
fn one_half_is_exact() {
    let half = Double::decimal(1, 2);
    assert_eq!(
        half,
        Double::Finite { negative: false, mantissa: 0x10_0000_0000_0000, exponent: -53 }
    );
}

#[test]
fn one_tenth_is_rounded() {
    let tenth = Double::decimal(1, 10);
    assert_eq!(
        tenth,
        Double::Finite { negative: false, mantissa: 0x1999999999999a, exponent: -56 }
    );
    same(tenth, 0.1);
}

#[test]
fn conversions_round_to_nearest() {
    for x in numbers() {
        same(Double::of_i64(x), x as f64);
        same(Double::of_u64(x as u64), x as u64 as f64);
    }
    same(Double::of_u64(u64::MAX), 18446744073709551616.0);
    same(Double::of_u64((1 << 53) + 1), 9007199254740992.0);
    same(Double::of_u64((1 << 53) + 3), 9007199254740996.0);
}

#[test]
fn arithmetic_rounds_to_nearest() {
    let xs = numbers();
    for (i, x) in xs.iter().enumerate() {
        for y in xs.iter().skip(i % 7).step_by(7) {
            let a = Double::of_i64(*x);
            let b = Double::of_i64(*y);
            let (u, v) = (*x as f64, *y as f64);
            same(a.div(b), u / v);
            same(a.mul(b), u * v);
            same(a.plus(b), u + v);
            same(a.minus(b), u - v);
            assert_eq!(a.lt(b), u < v);
            assert_eq!(a.gt(b), u > v);
        }
    }
}

#[test]
fn sums_of_fractions_round_to_nearest() {
    let xs = numbers();
    for (i, x) in xs.iter().enumerate() {
        for (j, y) in xs.iter().enumerate().skip(i % 5).step_by(5) {
            let n = (xs[(i + j) % xs.len()] | 1).unsigned_abs();
            let a = Double::of_i64(*x).div(Double::of_u64(n));
            let b = Double::of_i64(*y).div(Double::of_i64(1 << (j % 60)));
            let (u, v) = (*x as f64 / n as f64, *y as f64 / (1i64 << (j % 60)) as f64);
            same(a.plus(b), u + v);
            same(a.minus(b), u - v);
            same(a.mul(b), u * v);
        }
    }
}

#[test]
fn a_far_smaller_number_is_absorbed() {
    let one = Double::of_i64(1);
    let tiny = one.div(Double::of_i64(1 << 62)).div(Double::of_i64(1 << 62));
    same(one.plus(tiny), 1.0);
    same(one.minus(tiny), 1.0);
    same(tiny.minus(one), -1.0);
    let smallish = one.div(Double::of_i64(1 << 54));
    same(one.minus(smallish), 1.0);
    same(one.minus(one.div(Double::of_i64(1 << 53))), 1.0 - 1.0 / 9007199254740992.0);
}

#[test]
fn equal_numbers_cancel() {
    let tenth = Double::decimal(1, 10);
    same(tenth.minus(tenth), 0.0);
    same(Double::decimal(3, 10).minus(tenth.plus(Double::decimal(2, 10))), 0.3 - (0.1 + 0.2));
}

#[test]
fn decimal_literals_are_exact() {
    same(Double::decimal(3, 10), 0.3);
    same(Double::decimal(4, 10), 0.4);
    same(Double::decimal(115, 100), 1.15);
    same(Double::decimal(6931471805599453, 10_000_000_000_000_000), std::f64::consts::LN_2);
    same(Double::decimal(4804530139182014, 10_000_000_000_000_000), 0.4804530139182014);
    same(Double::decimal(6907755278982137, 1_000_000_000_000_000), -(0.001f64.ln()));
    same(Double::decimal(4605170185988091, 1_000_000_000_000_000), -(0.01f64.ln()));
    same(Double::decimal(2995732273553991, 1_000_000_000_000_000), -(0.05f64.ln()));
    same(Double::decimal(4199705077879927, 1_000_000_000_000_000), -(0.015f64.ln()));
    same(Double::decimal(5809142990314028, 1_000_000_000_000_000), -(0.003f64.ln()));
    same(Double::decimal(4961845129926823, 1_000_000_000_000_000), -(0.007f64.ln()));
    same(Double::decimal(6437751649736401, 2_000_000_000_000_000), -(0.04f64.ln()));
    same(Double::decimal(5051457288616511, 2_000_000_000_000_000), -(0.08f64.ln()));
    same(Double::decimal(8306618067481101, 2251799813685248), -(0.025f64.ln()));
    same(Double::decimal(6214608098422191, 1_000_000_000_000_000), -(0.002f64.ln()));
    same(Double::decimal(5521460917862246, 1_000_000_000_000_000), -(0.004f64.ln()));
    same(Double::decimal(48283137373023016, 10_000_000_000_000_000), -(0.008f64.ln()));
    same(Double::decimal(4017383521085972, 1_000_000_000_000_000), -(0.018f64.ln()));
    same(Double::decimal(6704814434985447, 2_000_000_000_000_000), -(0.035f64.ln()));
    same(Double::decimal(2659260036932778, 1_000_000_000_000_000), -(0.07f64.ln()));
}

#[test]
fn integers_next_to_a_number() {
    for x in numbers() {
        let n = x.unsigned_abs();
        for d in [1u64, 2, 3, 7, 1024, 1_000_000_007, 1 << 62] {
            let a = Double::decimal(n, d);
            let u = n as f64 / d as f64;
            assert_eq!(a.ceil(), u.ceil() as u64);
            assert_eq!(a.floor(), u.floor() as u64);
            assert_eq!(a.round(), u.round() as u64);
        }
    }
    let large = Double::of_u64(u64::MAX).mul(Double::of_u64(4));
    assert_eq!(large.ceil(), u64::MAX);
    assert_eq!(large.floor(), u64::MAX);
    assert_eq!(large.round(), u64::MAX);
    assert_eq!(Double::decimal(1, 2).round(), 1);
    assert_eq!(Double::decimal(5, 2).round(), 3);
}

#[test]
fn division_by_zero() {
    let zero = Double::of_i64(0);
    assert_eq!(Double::of_i64(5).div(zero), Double::Infinite { negative: false });
    assert_eq!(Double::of_i64(-5).div(zero), Double::Infinite { negative: true });
    assert_eq!(zero.div(zero), Double::NotANumber);
    let infinite = Double::Infinite { negative: false };
    assert!(infinite.above(1_000_000, 1));
    assert!(!infinite.below(1_000_000, 1));
    assert!(!Double::NotANumber.above(1, 2));
    assert!(!Double::NotANumber.below(1, 2));
    same(infinite.mul(zero), f64::NAN);
    same(infinite.mul(Double::of_i64(-2)), f64::NEG_INFINITY);
    same(infinite.plus(Double::of_i64(-2)), f64::INFINITY);
    same(infinite.minus(infinite), f64::NAN);
    same(Double::of_i64(7).div(infinite), 0.0);
}

#[test]
fn thresholds_are_strict() {
    assert!(!Double::decimal(3, 10).above(3, 10));
    assert!(!Double::decimal(3, 10).below(3, 10));
    assert!(Double::decimal(300_000_001, 1_000_000_000).above(3, 10));
    assert!(Double::decimal(299_999_999, 1_000_000_000).below(3, 10));
}

#[test]
fn the_ratio_of_the_factors() {
    for factor_size in [1, 2, 3, 7, 10, -1, -3, 1_000_003, i64::MAX, i64::MIN] {
        for factor_skip in [0, 1, 2, 3, 7, 10, -5, 999_983, i64::MAX, i64::MIN] {
            let parameter = Parameter { factor_size, factor_skip };
            same(parameter.ratio(), factor_skip as f64 / factor_size as f64);
        }
    }
    assert_eq!(Parameter { factor_size: 0, factor_skip: 0 }.ratio(), Double::NotANumber);
}
