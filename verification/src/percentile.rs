//! Percentiles of sorted values, interpolated in double precision.
use vstd::arithmetic::power2::{
    lemma2_to64, lemma2_to64_rest, lemma_pow2_adds, lemma_pow2_pos, lemma_pow2_unfold, pow2,
};
use vstd::prelude::*;

use crate::addition::{exact_sum, lemma_half_even_is, lemma_scaled_down_to, signed};
use crate::double::{carried, half_even, nearest, scaled_up, Double, MANTISSA_END, MANTISSA_MIN};
use crate::exact::{
    add_is_close, lemma_unit, lemma_without_unit, near, near_decimal, near_mul, near_of,
    negated_is_exact, product_is_close, scaled, small_is_exact, unit, whole_parts_are_next,
};
use crate::order::{lemma_leading_bit, lemma_of_shape, lemma_scaled_up_to, mul_commutes};

verus! {

/// The place of a percentile among `n` values in ascending order, between the places of
/// the first and of the last.
pub open spec fn rank(n: nat, percent: nat) -> Double {
    Double::spec_decimal(percent, 100).spec_mul(Double::spec_of(n - 1))
}

/// The value at a place, interpolated between the two values next to it.
pub open spec fn value_at(sorted: Seq<i32>, place: Double) -> Double {
    let lower = place.spec_floor();
    let upper = place.spec_ceil();
    let fraction = place.spec_sub(Double::spec_of(lower as int));
    if lower == upper {
        Double::spec_of(sorted[lower as int] as int)
    } else {
        Double::spec_of(sorted[lower as int] as int).spec_mul(
            Double::spec_of(1).spec_sub(fraction),
        ).spec_add(Double::spec_of(sorted[upper as int] as int).spec_mul(fraction))
    }
}

/// A percentile of values in ascending order.
pub open spec fn percentile_of(sorted: Seq<i32>, percent: nat) -> Double {
    value_at(sorted, rank(sorted.len(), percent))
}

proof fn lemma_scaled_up_exact(negative: bool, m: nat, e: int, k: nat)
    requires
        0 < m < MANTISSA_END,
        m * pow2(k) >= MANTISSA_MIN,
        -1000000 <= e - k,
        e <= 1000000,
    ensures
        scaled_up(negative, m, e) matches Double::Finite { negative: g, mantissa, exponent } && {
            &&& g == negative
            &&& MANTISSA_MIN <= mantissa < MANTISSA_END
            &&& e - k <= exponent <= e
            &&& mantissa == m * pow2((e - exponent) as nat)
        },
    decreases k,
{
    vstd::arithmetic::power2::lemma2_to64();
    if m < MANTISSA_MIN {
        if k == 0 {
        } else {
            lemma_pow2_unfold(k);
            let p = pow2((k - 1) as nat);
            assert(m * (2 * p) == (2 * m) * p) by (nonlinear_arith);
            lemma_scaled_up_exact(negative, 2 * m, e - 1, (k - 1) as nat);
            if let Double::Finite { mantissa, exponent, .. } = scaled_up(negative, 2 * m, e - 1) {
                let j = (e - 1 - exponent) as nat;
                lemma_pow2_unfold(j + 1);
                assert((2 * m) * pow2(j) == m * (2 * pow2(j))) by (nonlinear_arith);
            }
        }
    } else {
        assert(m * pow2(0) == m) by (nonlinear_arith)
            requires
                pow2(0) == 1,
        ;
    }
}

/// The integers below 2^53 are doubles.
pub proof fn small_integers_are_exact(x: nat)
    requires
        0 < x < MANTISSA_END,
    ensures
        Double::spec_of(x as int) matches Double::Finite { negative, mantissa, exponent } && {
            &&& !negative
            &&& MANTISSA_MIN <= mantissa < MANTISSA_END
            &&& -52 <= exponent <= 0
            &&& mantissa == x * pow2((-exponent) as nat)
        },
{
    vstd::arithmetic::power2::lemma2_to64();
    vstd::arithmetic::power2::lemma2_to64_rest();
    assert(x * pow2(52) >= MANTISSA_MIN) by (nonlinear_arith)
        requires
            x >= 1,
            pow2(52) == MANTISSA_MIN,
    ;
    lemma_scaled_up_exact(false, x, 0, 52);
}

proof fn lemma_half_even_at_most(n: nat, d: nat, q: nat)
    requires
        d > 0,
        n <= d * q,
    ensures
        half_even(n, d) <= q,
{
    vstd::arithmetic::div_mod::lemma_fundamental_div_mod(n as int, d as int);
    let k = n / d;
    assert(k <= q && (k == q ==> n % d == 0)) by (nonlinear_arith)
        requires
            n == d * k + n % d,
            0 <= n % d < d,
            n <= d * q,
            d > 0,
    ;
}

/// A percentage below a hundred is a double below one.
proof fn lemma_share_below_one(percent: nat)
    requires
        0 < percent < 100,
    ensures
        Double::spec_decimal(percent, 100) matches Double::Finite { negative, mantissa, exponent }
            && {
            &&& !negative
            &&& MANTISSA_MIN <= mantissa < MANTISSA_END
            &&& exponent <= -53
        },
{
    small_integers_are_exact(percent);
    small_integers_are_exact(100);
    Double::lemma_decimal_within(percent, 100);
    if let (
        Double::Finite { mantissa: m1, exponent: e1, .. },
        Double::Finite { mantissa: m2, exponent: e2, .. },
    ) = (Double::spec_of(percent as int), Double::spec_of(100)) {
        let p1 = pow2((-e1) as nat);
        let p2 = pow2((-e2) as nat);
        lemma_pow2_pos((-e1) as nat);
        lemma_pow2_pos((-e2) as nat);
        if m1 >= m2 {
            if e1 >= e2 {
                lemma_pow2_grows((-e1) as nat, (-e2) as nat);
                assert(percent * p1 < 100 * p2) by (nonlinear_arith)
                    requires
                        percent < 100,
                        0 < p1 <= p2,
                ;
            }
            assert((m1 * MANTISSA_MIN) <= m2 * (MANTISSA_END - 1)) by (nonlinear_arith)
                requires
                    m1 <= MANTISSA_END - 1,
                    m2 >= MANTISSA_MIN,
            ;
            lemma_half_even_at_most(
                (m1 * MANTISSA_MIN) as nat,
                m2 as nat,
                (MANTISSA_END - 1) as nat,
            );
        } else {
            if e1 > e2 {
                lemma_pow2_grows((1 - e1) as nat, (-e2) as nat);
                lemma_pow2_unfold((1 - e1) as nat);
                assert(p2 >= 2 * p1);
                assert(percent * p1 < 50 * p2) by (nonlinear_arith)
                    requires
                        percent < 100,
                        p2 >= 2 * p1,
                        p1 > 0,
                ;
                assert(m1 < 50 * p2 && m2 == 100 * p2);
            }
            assert((m1 * MANTISSA_END) <= m2 * (MANTISSA_END - 1)) by (nonlinear_arith)
                requires
                    m1 + 1 <= m2,
                    m2 < MANTISSA_END,
            ;
            lemma_half_even_at_most(
                (m1 * MANTISSA_END) as nat,
                m2 as nat,
                (MANTISSA_END - 1) as nat,
            );
        }
    }
}

proof fn lemma_pow2_grows(i: nat, j: nat)
    requires
        i <= j,
    ensures
        pow2(i) <= pow2(j),
{
    if i < j {
        vstd::arithmetic::power2::lemma_pow2_strictly_increases(i, j);
    }
}

/// Rounding a nonnegative number that is at most the integer `x` gives at most `x`.
proof fn lemma_rounded_at_most(m: nat, k: nat, x: nat)
    requires
        m <= x * pow2(k),
    ensures
        ((m + pow2(k) - 1) as nat) / pow2(k) <= x,
        m / pow2(k) <= ((m + pow2(k) - 1) as nat) / pow2(k),
{
    let p = pow2(k);
    lemma_pow2_pos(k);
    vstd::arithmetic::div_mod::lemma_div_is_ordered(m as int, m + p - 1, p as int);
    vstd::arithmetic::div_mod::lemma_fundamental_div_mod(m + p - 1, p as int);
    let q = (m + p - 1) / p as int;
    assert(q <= x) by (nonlinear_arith)
        requires
            p * q <= m + p - 1,
            m <= x * p,
            p > 0,
    ;
}

/// A product with one is the other factor, and with a half has half its value.
proof fn lemma_times_power(a: Double, e: int)
    requires
        a.within(200),
        a is Finite,
        -100 <= e <= 0,
    ensures
        carried(false, MANTISSA_MIN as nat, e).spec_mul(a) == (if a.is_zero() {
            Double::zero()
        } else {
            carried(a->Finite_negative, a->Finite_mantissa as nat, a->Finite_exponent + e + 52)
        }),
{
    if !a.is_zero() {
        let m = a->Finite_mantissa;
        lemma_half_even_is((MANTISSA_MIN * m) as nat, MANTISSA_MIN as nat, m as nat);
    }
}

/// The whole is a share of one.
proof fn lemma_whole_share()
    ensures
        Double::spec_decimal(100, 100) == carried(false, MANTISSA_MIN as nat, -52),
{
    lemma2_to64();
    lemma2_to64_rest();
    lemma_of_shape(100, 6);
    let m = (100 * pow2(46)) as nat;
    lemma_half_even_is(m * MANTISSA_MIN as nat, m, MANTISSA_MIN as nat);
}

/// Half of the whole is a share of a half.
proof fn lemma_half_share()
    ensures
        Double::spec_decimal(50, 100) == carried(false, MANTISSA_MIN as nat, -53),
{
    lemma2_to64();
    lemma2_to64_rest();
    lemma_of_shape(50, 5);
    lemma_of_shape(100, 6);
    let m = (100 * pow2(46)) as nat;
    lemma_half_even_is(m * MANTISSA_MIN as nat, m, MANTISSA_MIN as nat);
}

proof fn lemma_exact_parts(x: nat, k: nat)
    requires
        x > 0,
        k <= 10000,
    ensures
        (x * pow2(k)) / pow2(k) == x,
        ((x * pow2(k) + pow2(k) - 1) as nat) / pow2(k) == x,
{
    let p = pow2(k) as int;
    lemma_pow2_pos(k);
    vstd::arithmetic::div_mod::lemma_fundamental_div_mod_converse(x * p, p, x as int, 0);
    vstd::arithmetic::div_mod::lemma_fundamental_div_mod_converse(
        x * p + p - 1,
        p,
        x as int,
        p - 1,
    );
}

/// An integer below 2^53 is its own whole part.
proof fn lemma_whole_part(x: nat)
    requires
        x < MANTISSA_END,
    ensures
        Double::spec_of(x as int).spec_floor() == x,
        Double::spec_of(x as int).spec_ceil() == x,
{
    lemma2_to64();
    if x == 0 {
        assert(0 * pow2(0) == 0) by (nonlinear_arith);
    } else {
        small_integers_are_exact(x);
        let e = Double::spec_of(x as int)->Finite_exponent;
        lemma_exact_parts(x, (-e) as nat);
        if e == 0 {
            assert(x * pow2(0) == x) by (nonlinear_arith)
                requires
                    pow2(0) == 1,
            ;
            assert(x * pow2(0) * pow2(0) == x) by (nonlinear_arith)
                requires
                    pow2(0) == 1,
            ;
        }
    }
}

/// The place of the percentile 0 is that of the first value, of the percentile 100 that
/// of the last.
proof fn lemma_outer_ranks(n: nat)
    requires
        0 < n <= MANTISSA_END,
    ensures
        rank(n, 0) == Double::spec_of(0),
        rank(n, 100) == Double::spec_of(n - 1),
{
    let last = Double::spec_of(n - 1);
    Double::lemma_of_within(n - 1);
    Double::lemma_of_within(100);
    assert(Double::spec_decimal(0, 100) == Double::zero());
    lemma_whole_share();
    lemma_times_power(last, -52);
}

/// The place of a percentile is one of the values, or lies between two of them.
pub proof fn rank_is_inside(n: nat, percent: nat)
    requires
        0 < n <= MANTISSA_END,
        percent <= 100,
    ensures
        rank(n, percent).is_natural(),
        rank(n, percent).within(263),
        rank(n, percent).spec_floor() <= rank(n, percent).spec_ceil() < n,
{
    let share = Double::spec_decimal(percent, 100);
    let last = Double::spec_of(n - 1);
    Double::lemma_decimal_within(percent, 100);
    Double::lemma_of_within(n - 1);
    Double::lemma_mul_within(share, last, 157, 52);
    vstd::arithmetic::power2::lemma2_to64();
    if percent == 0 || percent == 100 {
        lemma_outer_ranks(n);
        lemma_whole_part(0);
        lemma_whole_part((n - 1) as nat);
    } else if n == 1 {
        assert(rank(n, percent) == Double::zero());
        assert(0nat / 1nat == 0);
    } else {
        lemma_share_below_one(percent);
        small_integers_are_exact((n - 1) as nat);
        if let (
            Double::Finite { mantissa: m1, exponent: e1, .. },
            Double::Finite { mantissa: m2, exponent: e2, .. },
        ) = (share, last) {
            lemma_product_at_most(m1, e1 as int, m2, e2 as int, (n - 1) as nat);
        }
    }
}

/// A product with a factor below one is at most the other factor.
proof fn lemma_product_at_most(m1: u64, e1: int, m2: u64, e2: int, x: nat)
    requires
        MANTISSA_MIN <= m1 < MANTISSA_END,
        MANTISSA_MIN <= m2 < MANTISSA_END,
        -10000 <= e1 <= -53,
        -52 <= e2 <= 0,
        m2 == x * pow2((-e2) as nat),
    ensures
        ({
            let product = if m1 * m2 >= MANTISSA_MIN * MANTISSA_END {
                carried(false, half_even((m1 * m2) as nat, MANTISSA_END as nat), e1 + e2 + 53)
            } else {
                carried(false, half_even((m1 * m2) as nat, MANTISSA_MIN as nat), e1 + e2 + 52)
            };
            product.spec_floor() <= product.spec_ceil() <= x
        }),
{
    let p = (m1 * m2) as nat;
    vstd::arithmetic::power2::lemma2_to64();
    if m1 * m2 >= MANTISSA_MIN * MANTISSA_END {
        assert(m1 * m2 <= MANTISSA_END * m2) by (nonlinear_arith)
            requires
                m1 <= MANTISSA_END,
        ;
        lemma_half_even_at_most(p, MANTISSA_END as nat, m2 as nat);
        let m = half_even(p, MANTISSA_END as nat);
        lemma_small_place(m, e1 + e2 + 53, m2, e2, x);
    } else {
        assert(m1 * m2 <= MANTISSA_MIN * (2 * m2)) by (nonlinear_arith)
            requires
                m1 <= MANTISSA_END,
                MANTISSA_END == 2 * MANTISSA_MIN,
        ;
        lemma_half_even_at_most(p, MANTISSA_MIN as nat, (2 * m2) as nat);
        let m = half_even(p, MANTISSA_MIN as nat);
        assert(m <= MANTISSA_END) by {
            assert(m1 * m2 <= MANTISSA_MIN * MANTISSA_END);
            lemma_half_even_at_most(p, MANTISSA_MIN as nat, MANTISSA_END as nat);
        }
        if m == MANTISSA_END {
            lemma_small_place(MANTISSA_MIN as nat, e1 + e2 + 53, m2, e2, x);
        } else {
            let e = e1 + e2 + 52;
            lemma_pow2_unfold((1 - e2) as nat);
            assert(2 * m2 == x * pow2((1 - e2) as nat)) by (nonlinear_arith)
                requires
                    m2 == x * pow2((-e2) as nat),
                    pow2((1 - e2) as nat) == 2 * pow2((-e2) as nat),
            ;
            lemma_pow2_grows((1 - e2) as nat, (-e) as nat);
            assert(x * pow2((1 - e2) as nat) <= x * pow2((-e) as nat)) by (nonlinear_arith)
                requires
                    pow2((1 - e2) as nat) <= pow2((-e) as nat),
            ;
            lemma_rounded_at_most(m, (-e) as nat, x);
        }
    }
}

proof fn lemma_small_place(m: nat, e: int, m2: u64, e2: int, x: nat)
    requires
        m <= m2 < MANTISSA_END,
        e <= e2 <= 0,
        -20000 <= e,
        m2 == x * pow2((-e2) as nat),
    ensures
        carried(false, m, e).spec_floor() <= carried(false, m, e).spec_ceil() <= x,
{
    vstd::arithmetic::power2::lemma2_to64();
    lemma_pow2_grows((-e2) as nat, (-e) as nat);
    assert(x * pow2((-e2) as nat) <= x * pow2((-e) as nat)) by (nonlinear_arith)
        requires
            pow2((-e2) as nat) <= pow2((-e) as nat),
    ;
    if e < 0 {
        lemma_rounded_at_most(m, (-e) as nat, x);
    } else {
        assert(m * pow2(0) == m && x * pow2(0) == x) by (nonlinear_arith)
            requires
                pow2(0) == 1,
        ;
    }
}

/// Whether a number is exactly `x * 2^e`.
pub open spec fn is_exactly(number: Double, x: int, e: int) -> bool {
    number matches Double::Finite { negative, mantissa, exponent } && {
        if exponent >= e {
            signed(negative, mantissa as nat) * pow2((exponent - e) as nat) == x
        } else {
            signed(negative, mantissa as nat) == x * pow2((e - exponent) as nat)
        }
    }
}

/// The size of an integer.
spec fn size_of(x: int) -> nat {
    if x < 0 {
        -x as nat
    } else {
        x as nat
    }
}

/// The double nearest to a small multiple of a power of two, from the leading bit of the
/// multiple.
proof fn lemma_nearest_shape(x: int, e: int, k: nat)
    requires
        pow2(k) <= size_of(x) < pow2(k + 1),
        k <= 52,
        -10000 <= e <= 10000,
    ensures
        nearest(x, e) == carried(x < 0, size_of(x) * pow2((52 - k) as nat), e - (52 - k)),
        MANTISSA_MIN <= size_of(x) * pow2((52 - k) as nat) < MANTISSA_END,
{
    lemma2_to64();
    lemma2_to64_rest();
    lemma_pow2_pos(k);
    lemma_pow2_grows(k + 1, 53);
    lemma_scaled_up_to(x < 0, size_of(x), e, k);
    let c = pow2((52 - k) as nat);
    lemma_pow2_pos((52 - k) as nat);
    lemma_pow2_adds(k, (52 - k) as nat);
    lemma_pow2_adds(k + 1, (52 - k) as nat);
    let a = size_of(x);
    assert(pow2(k) * c <= a * c < pow2(k + 1) * c) by (nonlinear_arith)
        requires
            pow2(k) <= a < pow2(k + 1),
            c > 0,
    ;
}

proof fn lemma_small_leading_bit(x: nat) -> (k: nat)
    requires
        0 < x < MANTISSA_END,
    ensures
        pow2(k) <= x < pow2(k + 1),
        k <= 52,
{
    lemma2_to64_rest();
    let k = lemma_leading_bit(x);
    if k > 52 {
        lemma_pow2_grows(53, k);
    }
    k
}

proof fn lemma_signed_product(x: int, a: nat, p: nat)
    requires
        a == size_of(x),
    ensures
        signed(x < 0, a * p) == x * p,
{
    if x < 0 {
        assert(-((a * p) as int) == x * p) by (nonlinear_arith)
            requires
                a == -x,
        ;
    }
}

/// Small multiples of a power of two are doubles.
pub proof fn nearest_is_exact(x: int, e: int)
    requires
        -(MANTISSA_END as int) < x < MANTISSA_END,
        -10000 <= e <= 0,
    ensures
        is_exactly(nearest(x, e), x, e),
{
    lemma2_to64();
    if x == 0 {
        let p = pow2((0 - e) as nat);
        assert(0 * p == 0) by (nonlinear_arith);
    } else {
        let k = lemma_small_leading_bit(size_of(x));
        lemma_nearest_shape(x, e, k);
        let j = (52 - k) as nat;
        lemma_signed_product(x, size_of(x), pow2(j));
        let m = signed(x < 0, size_of(x) * pow2(j));
        if j == 0 {
            assert(m * pow2(0) == m && x * pow2(0) == x) by (nonlinear_arith)
                requires
                    pow2(0) == 1,
            ;
        }
    }
}

/// A power of two may be taken out of a multiple.
proof fn lemma_nearest_shifted(x: int, j: nat, e: int)
    requires
        -(MANTISSA_END as int) < x < MANTISSA_END,
        j <= 200,
        -5000 <= e <= 5000,
    ensures
        nearest(x * pow2(j), e) == nearest(x, e + j),
{
    lemma2_to64();
    lemma2_to64_rest();
    let p = pow2(j);
    lemma_pow2_pos(j);
    if x == 0 {
        assert(0 * p == 0) by (nonlinear_arith);
    } else {
        let a = size_of(x);
        let k = lemma_small_leading_bit(a);
        let n = a * p;
        lemma_signed_product(x, a, p);
        assert(n > 0) by (nonlinear_arith)
            requires
                n == a * p,
                p > 0,
                a > 0,
        ;
        lemma_nearest_shape(x, e + j, k);
        lemma_pow2_adds(k, j);
        lemma_pow2_adds(k + 1, j);
        assert(pow2(k) * p <= n < pow2(k + 1) * p) by (nonlinear_arith)
            requires
                n == a * p,
                pow2(k) <= a < pow2(k + 1),
                p > 0,
        ;
        assert(k + 1 + j == k + j + 1);
        assert(pow2(k + j) <= n < pow2(k + j + 1));
        if k + j <= 52 {
            lemma_nearest_shape(x * p, e, k + j);
            let c = pow2((52 - k - j) as nat);
            lemma_pow2_adds(j, (52 - k - j) as nat);
            assert(n * c == a * (p * c)) by (nonlinear_arith)
                requires
                    n == a * p,
            ;
        } else {
            let i = (k + j - 52) as nat;
            let d = pow2(i);
            let c = pow2((52 - k) as nat);
            lemma_pow2_pos(i);
            lemma_pow2_adds(53, (i - 1) as nat);
            lemma_pow2_adds(53, i);
            lemma_pow2_grows(53, k + j);
            lemma_scaled_down_to(x < 0, n, 0, i, e);
            lemma_pow2_adds(i, (52 - k) as nat);
            assert(n == d * (a * c)) by (nonlinear_arith)
                requires
                    n == a * p,
                    p == d * c,
            ;
            lemma_half_even_is(n, d, a * c);
        }
    }
}

/// A half times a small integer.
proof fn lemma_halved(x: int)
    requires
        -(MANTISSA_END as int) < x < MANTISSA_END,
    ensures
        carried(false, MANTISSA_MIN as nat, -53).spec_mul(Double::spec_of(x)) == nearest(x, -1),
{
    Double::lemma_of_within(x);
    lemma_times_power(Double::spec_of(x), -53);
    if x != 0 {
        let k = lemma_small_leading_bit(size_of(x));
        lemma_nearest_shape(x, 0, k);
        lemma_nearest_shape(x, -1, k);
    }
}

proof fn lemma_aligned(x: int, k: nat, j: nat)
    requires
        k <= 52,
        52 - k <= j,
    ensures
        signed(x < 0, size_of(x) * pow2((52 - k) as nat) * pow2((j - (52 - k)) as nat)) == x * pow2(
            j,
        ),
        j == 52 - k ==> signed(x < 0, size_of(x) * pow2((52 - k) as nat)) == x * pow2(j),
{
    let a = size_of(x);
    let c = pow2((52 - k) as nat);
    let d = pow2((j - (52 - k)) as nat);
    lemma_pow2_adds((52 - k) as nat, (j - (52 - k)) as nat);
    assert(a * c * d == a * (c * d)) by (nonlinear_arith);
    lemma_signed_product(x, a, c * d);
    lemma_signed_product(x, a, c);
}

/// The sum of two multiples of a half.
proof fn lemma_half_sum(x: int, y: int)
    requires
        -(MANTISSA_END as int) < x < MANTISSA_END,
        -(MANTISSA_END as int) < y < MANTISSA_END,
        -(MANTISSA_END as int) < x + y < MANTISSA_END,
    ensures
        nearest(x, -1).spec_add(nearest(y, -1)) == nearest(x + y, -1),
{
    lemma2_to64();
    if x != 0 && y != 0 {
        let k = lemma_small_leading_bit(size_of(x));
        let l = lemma_small_leading_bit(size_of(y));
        lemma_nearest_shape(x, -1, k);
        lemma_nearest_shape(y, -1, l);
        let a = nearest(x, -1);
        let b = nearest(y, -1);
        let j: nat = if k >= l {
            (52 - l) as nat
        } else {
            (52 - k) as nat
        };
        lemma_aligned(x, k, j);
        lemma_aligned(y, l, j);
        assert(exact_sum(
            a->Finite_negative,
            a->Finite_mantissa as nat,
            a->Finite_exponent as int,
            b->Finite_negative,
            b->Finite_mantissa as nat,
            b->Finite_exponent as int,
        ) == x * pow2(j) + y * pow2(j));
        assert(x * pow2(j) + y * pow2(j) == (x + y) * pow2(j)) by (nonlinear_arith);
        lemma_nearest_shifted(x + y, j, -1 - j);
    } else if x != 0 {
        let k = lemma_small_leading_bit(size_of(x));
        lemma_nearest_shape(x, -1, k);
    }
}

/// The opposite of a multiple of a half.
proof fn lemma_half_negated(x: int)
    requires
        -(MANTISSA_END as int) < x < MANTISSA_END,
    ensures
        nearest(x, -1).spec_negated() == nearest(-x, -1),
{
    if x != 0 {
        let k = lemma_small_leading_bit(size_of(x));
        lemma_nearest_shape(x, -1, k);
        lemma_nearest_shape(-x, -1, k);
    }
}

/// The whole parts of a multiple of a half.
proof fn lemma_half_parts(x: nat)
    requires
        0 < x < MANTISSA_END,
    ensures
        nearest(x as int, -1).spec_floor() == x / 2,
        nearest(x as int, -1).spec_ceil() == (x + 1) / 2,
{
    let k = lemma_small_leading_bit(x);
    lemma_nearest_shape(x as int, -1, k);
    let j = (52 - k) as nat;
    let p = pow2(j) as int;
    let q = x as int / 2;
    let r = x as int % 2;
    lemma_pow2_pos(j);
    lemma_pow2_unfold(j + 1);
    let d = pow2(j + 1) as int;
    assert(x * p == q * d + r * p) by (nonlinear_arith)
        requires
            x == 2 * q + r,
            d == 2 * p,
    ;
    if r == 0 {
        assert(r * p == 0) by (nonlinear_arith)
            requires
                r == 0,
        ;
        vstd::arithmetic::div_mod::lemma_fundamental_div_mod_converse(x * p, d, q, 0);
        vstd::arithmetic::div_mod::lemma_fundamental_div_mod_converse(x * p + d - 1, d, q, d - 1);
    } else {
        assert(r * p == p) by (nonlinear_arith)
            requires
                r == 1,
        ;
        assert(x * p + d - 1 == (q + 1) * d + (p - 1)) by (nonlinear_arith)
            requires
                x * p == q * d + p,
        ;
        vstd::arithmetic::div_mod::lemma_fundamental_div_mod_converse(x * p, d, q, p);
        vstd::arithmetic::div_mod::lemma_fundamental_div_mod_converse(
            x * p + d - 1,
            d,
            q + 1,
            p - 1,
        );
    }
}

/// The percentile 0 is the first value, and the percentile 100 the last.
pub proof fn outer_percentiles(sorted: Seq<i32>)
    requires
        0 < sorted.len() <= MANTISSA_END,
    ensures
        percentile_of(sorted, 0) == Double::spec_of(sorted[0] as int),
        percentile_of(sorted, 100) == Double::spec_of(sorted[sorted.len() - 1] as int),
        is_exactly(percentile_of(sorted, 0), sorted[0] as int, 0),
        is_exactly(percentile_of(sorted, 100), sorted[sorted.len() - 1] as int, 0),
{
    lemma_outer_ranks(sorted.len());
    lemma_whole_part(0);
    lemma_whole_part((sorted.len() - 1) as nat);
    nearest_is_exact(sorted[0] as int, 0);
    nearest_is_exact(sorted[sorted.len() - 1] as int, 0);
}

/// The place of the percentile 50.
proof fn lemma_middle_rank(n: nat)
    requires
        0 < n <= MANTISSA_END,
    ensures
        rank(n, 50) == nearest(n - 1, -1),
{
    lemma_half_share();
    lemma_halved(n - 1);
}

/// Half way between two places, the parts of the values below and above are halves.
proof fn lemma_middle_parts(n: nat)
    requires
        0 < n <= MANTISSA_END,
        n % 2 == 0,
    ensures
        ({
            let half = carried(false, MANTISSA_MIN as nat, -53);
            let fraction = nearest(n - 1, -1).spec_sub(Double::spec_of(n / 2 - 1));
            &&& fraction == half
            &&& Double::spec_of(1).spec_sub(fraction) == half
        }),
{
    let q = n / 2 - 1;
    lemma2_to64();
    lemma_nearest_shifted(q, 1, -1);
    assert(q * pow2(1) == 2 * q) by (nonlinear_arith)
        requires
            pow2(1) == 2,
    ;
    lemma_half_negated(2 * q);
    lemma_half_sum(n - 1, -2 * q);
    lemma_nearest_shape(1, -1, 0);
    lemma_nearest_shifted(1, 1, -1);
    assert(1 * pow2(1) == 2) by (nonlinear_arith)
        requires
            pow2(1) == 2,
    ;
    lemma_half_negated(1);
    lemma_half_sum(2, -1);
    assert(Double::spec_of(q) == nearest(2 * q, -1));
    assert(Double::spec_of(1) == nearest(2, -1));
    assert(n - 1 + (-2 * q) == 1);
    assert(1 * pow2(52) == MANTISSA_MIN) by {
        lemma2_to64_rest();
    }
}

/// The percentile 50 is the middle one of an odd number of values, and of an even number
/// exactly half the sum of the two in the middle.
pub proof fn median_is_exact(sorted: Seq<i32>)
    requires
        0 < sorted.len() <= MANTISSA_END,
    ensures
        sorted.len() % 2 == 1 ==> is_exactly(
            percentile_of(sorted, 50),
            sorted[sorted.len() as int / 2] as int,
            0,
        ),
        sorted.len() % 2 == 0 ==> is_exactly(
            percentile_of(sorted, 50),
            sorted[sorted.len() as int / 2 - 1] + sorted[sorted.len() as int / 2],
            -1,
        ),
{
    let n = sorted.len();
    lemma_middle_rank(n);
    if n == 1 {
        lemma_whole_part(0);
    } else {
        lemma_half_parts((n - 1) as nat);
    }
    if n % 2 == 1 {
        nearest_is_exact(sorted[n as int / 2] as int, 0);
    } else {
        let a = sorted[n as int / 2 - 1] as int;
        let b = sorted[n as int / 2] as int;
        let half = carried(false, MANTISSA_MIN as nat, -53);
        lemma_middle_parts(n);
        lemma_halved(a);
        lemma_halved(b);
        mul_commutes(half, Double::spec_of(a));
        mul_commutes(half, Double::spec_of(b));
        lemma_half_sum(a, b);
        nearest_is_exact(a + b, -1);
    }
}

proof fn lemma_sizes_multiply(a: int, x: int, m: int, e: int)
    requires
        size_of(a) <= m,
        size_of(x) <= e,
    ensures
        size_of(a * x) <= m * e,
{
    assert(-(m * e) <= a * x <= m * e) by (nonlinear_arith)
        requires
            -m <= a <= m,
            -e <= x <= e,
    ;
}

proof fn lemma_off_by_a_part(z: int, w: int, c: int)
    requires
        0x20_0000_0000_0000 * size_of(z - w) <= size_of(w),
        -c <= z <= c,
    ensures
        -c <= 0x10_0000_0000_0000 * (z - w) <= c,
{
}

proof fn lemma_product_moves(a: int, g: int, x: int, z: int, e: int)
    requires
        size_of(a) <= 0x8000_0000,
        -e <= 0x10_0000_0000_0000 * (g - x) <= e,
        z == a * g,
    ensures
        -(0x8000_0000 * e) <= 0x10_0000_0000_0000 * (z - a * x) <= 0x8000_0000 * e,
{
    let h = g - x;
    lemma_sizes_multiply(a, 0x10_0000_0000_0000 * h, 0x8000_0000, e);
    assert(a * (0x10_0000_0000_0000 * h) == 0x10_0000_0000_0000 * (a * h)) by (nonlinear_arith);
    assert(a * h == a * g - a * x) by (nonlinear_arith)
        requires
            h == g - x,
    ;
}

proof fn lemma_rounded_sum(
    s: int,
    ag: int,
    ad: int,
    bf: int,
    bd: int,
    x: int,
    y: int,
    r: int,
)
    requires
        0 <= s,
        -(0x8000_0000 * (3 * s)) <= 0x10_0000_0000_0000 * (ag - ad) <= 0x8000_0000 * (3 * s),
        -(0x8000_0000 * s) <= 0x10_0000_0000_0000 * (bf - bd) <= 0x8000_0000 * s,
        size_of(ad) <= 0x8000_0000 * s,
        size_of(bd) <= 0x8000_0000 * s,
        0x20_0000_0000_0000 * size_of(ag - x) <= size_of(x),
        0x20_0000_0000_0000 * size_of(bf - y) <= size_of(y),
        0x20_0000_0000_0000 * size_of(x + y - r) <= size_of(r),
    ensures
        0x2_0000 * size_of(r - (ad + bd)) <= s,
{
    assert(-(0x1_0000_0000 * s) <= ag <= 0x1_0000_0000 * s) by {
        assert(-(0x8000_0000 * s) <= ad <= 0x8000_0000 * s);
    }
    assert(-(0x1_0000_0000 * s) <= bf <= 0x1_0000_0000 * s) by {
        assert(-(0x8000_0000 * s) <= bd <= 0x8000_0000 * s);
    }
    lemma_off_by_a_part(ag, x, 0x1_0000_0000 * s);
    lemma_off_by_a_part(bf, y, 0x1_0000_0000 * s);
    assert(-(0x4_0000_0000 * s) <= x + y <= 0x4_0000_0000 * s);
    lemma_off_by_a_part(x + y, r, 0x4_0000_0000 * s);
    lemma_total_error(s, ag - ad, bf - bd, ag - x, bf - y, x + y - r);
    assert(r - (ad + bd) == (ag - ad) + (bf - bd) - (ag - x) - (bf - y) - (x + y - r));
}

proof fn lemma_total_error(s: int, a: int, b: int, c: int, d: int, e: int)
    requires
        -(0x8000_0000 * (3 * s)) <= 0x10_0000_0000_0000 * a <= 0x8000_0000 * (3 * s),
        -(0x8000_0000 * s) <= 0x10_0000_0000_0000 * b <= 0x8000_0000 * s,
        -(0x1_0000_0000 * s) <= 0x10_0000_0000_0000 * c <= 0x1_0000_0000 * s,
        -(0x1_0000_0000 * s) <= 0x10_0000_0000_0000 * d <= 0x1_0000_0000 * s,
        -(0x4_0000_0000 * s) <= 0x10_0000_0000_0000 * e <= 0x4_0000_0000 * s,
    ensures
        -s <= 0x2_0000 * (a + b - c - d - e) <= s,
{
}

/// The rounding of an interpolation between `a` and `b`: `d` is how far the place is behind
/// that of `a`, in parts of `s`.
proof fn lemma_rounded_interpolation(
    a: int,
    b: int,
    s: int,
    d: int,
    f: int,
    g: int,
    x: int,
    y: int,
    r: int,
)
    requires
        size_of(a) <= 0x8000_0000,
        size_of(b) <= 0x8000_0000,
        0 <= d < s,
        0x20_0000_0000_0000 * size_of(d - f) <= size_of(f),
        0x20_0000_0000_0000 * size_of(s - f - g) <= size_of(g),
        0x20_0000_0000_0000 * size_of(a * g - x) <= size_of(x),
        0x20_0000_0000_0000 * size_of(b * f - y) <= size_of(y),
        0x20_0000_0000_0000 * size_of(x + y - r) <= size_of(r),
    ensures
        0x2_0000 * size_of(r - (a * (s - d) + b * d)) <= s,
{
    lemma_off_by_a_part(d, f, s);
    lemma_off_by_a_part(s - f, g, 2 * s);
    assert(-(3 * s) <= 0x10_0000_0000_0000 * (g - (s - d)) <= 3 * s);
    lemma_product_moves(a, g, s - d, a * g, 3 * s);
    lemma_product_moves(b, f, d, b * f, s);
    lemma_sizes_multiply(a, s - d, 0x8000_0000, s);
    lemma_sizes_multiply(b, d, 0x8000_0000, s);
    lemma_rounded_sum(s, a * g, a * (s - d), b * f, b * d, x, y, r);
}

proof fn lemma_between(a: int, b: int, s: int, d: int)
    requires
        a <= b,
        0 <= d < s,
    ensures
        a * s <= a * (s - d) + b * d <= b * s,
{
    assert(a * (s - d) + b * d == a * s + (b - a) * d) by (nonlinear_arith);
    assert(a * (s - d) + b * d == b * s - (b - a) * (s - d)) by (nonlinear_arith);
    assert(0 <= (b - a) * d && 0 <= (b - a) * (s - d)) by (nonlinear_arith)
        requires
            a <= b,
            0 <= d < s,
    ;
}

/// The place of a percentile is the whole number at or just below `percent * (n - 1) / 100`,
/// or lies between that and the next one, up to six parts in 2^52.
proof fn lemma_places(n: nat, percent: nat)
    requires
        0 < n <= MANTISSA_END,
        percent <= 100,
    ensures
        near(rank(n, percent), percent * ((n - 1) as nat), 100, 6),
        ({
            let p = percent * (n - 1);
            let l = rank(n, percent).spec_floor();
            let u = rank(n, percent).spec_ceil();
            &&& l <= u <= l + 1
            &&& u < n
            &&& l * unit() <= scaled(rank(n, percent)) < (l + 1) * unit()
            &&& l == u ==> scaled(rank(n, percent)) == l * unit()
            &&& (100 * l) * 0x10_0000_0000_0000 <= p * (0x10_0000_0000_0000 + 6)
            &&& p * (0x10_0000_0000_0000 - 6) <= (100 * u) * 0x10_0000_0000_0000
        }),
{
    let m = (n - 1) as nat;
    let x = rank(n, percent);
    lemma_unit();
    rank_is_inside(n, percent);
    near_decimal(percent, 100);
    near_of(m);
    small_is_exact(m as int);
    near_mul(Double::spec_decimal(percent, 100), percent, 100, 4, Double::spec_of(n - 1), m, 1, 0);
    whole_parts_are_next(x);
    let s = unit() as int;
    let v = scaled(x);
    let l = x.spec_floor() as int;
    let u = x.spec_ceil() as int;
    let p = (percent * m) as int;
    assert(u <= l + 1) by (nonlinear_arith)
        requires
            (u - 1) * s < v,
            v < (l + 1) * s,
            s > 0,
    ;
    assert((100 * l) * 0x10_0000_0000_0000 <= p * (0x10_0000_0000_0000 + 6)) by {
        assert(((100 * l) * 0x10_0000_0000_0000) * s == ((l * s) * 100) * 0x10_0000_0000_0000)
        by (nonlinear_arith);
        assert((p * (0x10_0000_0000_0000 + 6)) * s == (p * s) * (0x10_0000_0000_0000 + 6))
            by (nonlinear_arith);
        lemma_divided((100 * l) * 0x10_0000_0000_0000, p * (0x10_0000_0000_0000 + 6), s);
    }
    assert(p * (0x10_0000_0000_0000 - 6) <= (100 * u) * 0x10_0000_0000_0000) by {
        assert(((100 * u) * 0x10_0000_0000_0000) * s == ((u * s) * 100) * 0x10_0000_0000_0000)
        by (nonlinear_arith);
        assert((p * (0x10_0000_0000_0000 - 6)) * s == (p * s) * (0x10_0000_0000_0000 - 6))
            by (nonlinear_arith);
        lemma_divided(p * (0x10_0000_0000_0000 - 6), (100 * u) * 0x10_0000_0000_0000, s);
    }
}

proof fn lemma_divided(a: int, b: int, c: int)
    requires
        a * c <= b * c,
        c > 0,
    ensures
        a <= b,
{
    assert(a <= b) by (nonlinear_arith)
        requires
            a * c <= b * c,
            c > 0,
    ;
}

/// The interpolation over the exact place: `p` hundredths where the rounded place is `v`
/// parts of `s`.
proof fn lemma_exact_place(a: int, b: int, s: int, l: int, v: int, p: int)
    requires
        a <= b,
        (v * 100) * 0x10_0000_0000_0000 <= (p * s) * (0x10_0000_0000_0000 + 6),
        (p * s) * (0x10_0000_0000_0000 - 6) <= (v * 100) * 0x10_0000_0000_0000,
    ensures
        ({
            let moved = 100 * (a * (s - (v - l * s)) + b * (v - l * s));
            let exact = (a * (100 * l + 100 - p) + b * (p - 100 * l)) * s;
            &&& 0x10_0000_0000_0000 * (moved - exact) <= (6 * p * (b - a)) * s
            &&& 0x10_0000_0000_0000 * (exact - moved) <= (6 * p * (b - a)) * s
        }),
{
    let d = v - l * s;
    let c = b - a;
    let q = p - 100 * l;
    let off = 100 * v - p * s;
    let moved = 100 * (a * (s - d) + b * d);
    let exact = (a * (100 * l + 100 - p) + b * (p - 100 * l)) * s;
    assert(a * (s - d) + b * d == a * s + c * d) by (nonlinear_arith)
        requires
            c == b - a,
    ;
    assert(a * (100 * l + 100 - p) + b * (p - 100 * l) == 100 * a + c * q) by (nonlinear_arith)
        requires
            c == b - a,
            q == p - 100 * l,
    ;
    assert((100 * a + c * q) * s == 100 * (a * s) + c * (q * s)) by (nonlinear_arith);
    assert(100 * (c * d) == c * (100 * d)) by (nonlinear_arith);
    assert(q * s == p * s - 100 * (l * s)) by (nonlinear_arith)
        requires
            q == p - 100 * l,
    ;
    assert(100 * d - q * s == off);
    assert(c * (100 * d) - c * (q * s) == c * (100 * d - q * s)) by (nonlinear_arith);
    assert(moved - exact == c * off);
    let t = 6 * (p * s);
    let w = 0x10_0000_0000_0000 * off;
    let ps = p * s;
    assert(ps * (0x10_0000_0000_0000 + 6) == 0x10_0000_0000_0000 * ps + 6 * ps)
        by (nonlinear_arith);
    assert(ps * (0x10_0000_0000_0000 - 6) == 0x10_0000_0000_0000 * ps - 6 * ps)
        by (nonlinear_arith);
    assert((v * 100) * 0x10_0000_0000_0000 == 0x10_0000_0000_0000 * (100 * v))
        by (nonlinear_arith);
    assert(w == 0x10_0000_0000_0000 * (100 * v) - 0x10_0000_0000_0000 * ps) by (nonlinear_arith)
        requires
            w == 0x10_0000_0000_0000 * (100 * v - ps),
    ;
    assert(-t <= w <= t);
    assert(-(c * t) <= c * w <= c * t) by (nonlinear_arith)
        requires
            -t <= w <= t,
            c >= 0,
    ;
    assert(c * w == 0x10_0000_0000_0000 * (c * off)) by (nonlinear_arith)
        requires
            w == 0x10_0000_0000_0000 * off,
    ;
    assert(c * t == (6 * p * c) * s) by (nonlinear_arith)
        requires
            t == 6 * (p * s),
    ;
}

/// The double operations behind a percentile between two places.
proof fn lemma_value_between(sorted: Seq<i32>, place: Double)
    requires
        place.is_natural(),
        place.within(263),
        place.spec_floor() < place.spec_ceil() < sorted.len() <= MANTISSA_END,
        place.spec_floor() * unit() <= scaled(place) < (place.spec_floor() + 1) * unit(),
    ensures
        value_at(sorted, place) is Finite,
        ({
            let a = sorted[place.spec_floor() as int] as int;
            let b = sorted[place.spec_ceil() as int] as int;
            let d = scaled(place) - place.spec_floor() * unit();
            0x2_0000 * size_of(scaled(value_at(sorted, place)) - (a * (unit() - d) + b * d))
                <= unit()
        }),
{
    let lower = place.spec_floor();
    let s = unit() as int;
    let a = sorted[lower as int] as int;
    let b = sorted[place.spec_ceil() as int] as int;
    let floor = Double::spec_of(lower as int);
    let one = Double::spec_of(1);
    let below = Double::spec_of(a);
    let above = Double::spec_of(b);
    let fraction = place.spec_sub(floor);
    let rest = one.spec_sub(fraction);
    lemma_unit();
    small_is_exact(lower as int);
    small_is_exact(1);
    small_is_exact(a);
    small_is_exact(b);
    negated_is_exact(floor);
    assert(floor.spec_negated().within(52));
    add_is_close(place, floor.spec_negated());
    Double::lemma_add_within(place, floor.spec_negated(), 263);
    negated_is_exact(fraction);
    assert(fraction.spec_negated().within(317));
    add_is_close(one, fraction.spec_negated());
    Double::lemma_add_within(one, fraction.spec_negated(), 317);
    product_is_close(below, rest);
    product_is_close(above, fraction);
    let x = below.spec_mul(rest);
    let y = above.spec_mul(fraction);
    Double::lemma_mul_within(below, rest, 52, 371);
    Double::lemma_mul_within(above, fraction, 52, 317);
    add_is_close(x, y);
    let d = scaled(place) - lower * s;
    let f = scaled(fraction);
    let g = scaled(rest);
    assert((lower + 1) * s == lower * s + s) by (nonlinear_arith);
    assert(1 * s == s);
    lemma_rounded_product(a, s, g, scaled(x));
    lemma_rounded_product(b, s, f, scaled(y));
    lemma_rounded_interpolation(a, b, s, d, f, g, scaled(x), scaled(y), scaled(x.spec_add(y)));
}

proof fn lemma_rounded_product(a: int, s: int, g: int, x: int)
    requires
        0x20_0000_0000_0000 * size_of((a * s) * g - x * s) <= size_of(x * s),
        s > 0,
    ensures
        0x20_0000_0000_0000 * size_of(a * g - x) <= size_of(x),
{
    assert((a * s) * g - x * s == (a * g - x) * s) by (nonlinear_arith);
    lemma_without_unit(a * g - x, x, s);
}

/// A percentile of values in ascending order is the value at the place
/// `percent * (n - 1) / 100`, or lies on the straight line between the values at the two
/// places next to it, up to the rounding: six parts in 2^52 of the place, and one in 2^17
/// of the result. The places are returned, the lower one first.
pub proof fn percentile_interpolates(sorted: Seq<i32>, percent: nat) -> (places: (nat, nat))
    requires
        0 < sorted.len() <= MANTISSA_END,
        percent <= 100,
        forall|i: int, j: int| 0 <= i <= j < sorted.len() ==> sorted[i] <= sorted[j],
    ensures
        percentile_of(sorted, percent) is Finite,
        ({
            let (l, u) = places;
            let p = percent * (sorted.len() - 1);
            let r = scaled(percentile_of(sorted, percent));
            let a = sorted[l as int];
            let b = sorted[u as int];
            let line = (a * (100 * l + 100 - p) + b * (p - 100 * l)) * unit();
            &&& l <= u <= l + 1
            &&& u < sorted.len()
            &&& (100 * l) * 0x10_0000_0000_0000 <= p * (0x10_0000_0000_0000 + 6)
            &&& p * (0x10_0000_0000_0000 - 6) <= (100 * u) * 0x10_0000_0000_0000
            &&& l == u ==> r == a * unit()
            &&& l < u ==> 0x10_0000_0000_0000 * (100 * r - line) <= (6 * p * (b - a)) * unit()
                + 0x320_0000_0000 * unit()
            &&& l < u ==> 0x10_0000_0000_0000 * (line - 100 * r) <= (6 * p * (b - a)) * unit()
                + 0x320_0000_0000 * unit()
            &&& 0x2_0000 * (a * unit()) - unit() <= 0x2_0000 * r
            &&& 0x2_0000 * r <= 0x2_0000 * (b * unit()) + unit()
        }),
{
    let n = sorted.len();
    let x = rank(n, percent);
    let l = x.spec_floor();
    let u = x.spec_ceil();
    let a = sorted[l as int] as int;
    let b = sorted[u as int] as int;
    let s = unit() as int;
    rank_is_inside(n, percent);
    lemma_places(n, percent);
    lemma_unit();
    if l == u {
        small_is_exact(a);
    } else {
        let d = scaled(x) - l * s;
        lemma_value_between(sorted, x);
        assert((l + 1) * s == l * s + s) by (nonlinear_arith);
        lemma_between(a, b, s, d);
        lemma_exact_place(a, b, s, l as int, scaled(x), percent * (n - 1));
    }
    (l, u)
}

/// Whether a number lies between the values at the whole places below and above
/// `percent * (n - 1) / 100` of `n` values in ascending order, up to one part in 2^17. Where
/// that is a whole place itself, whether it is the value there, up to the rounding of the
/// place: six parts in 2^52 of it, times how far the next value is away.
pub open spec fn lies_at(number: Double, percent: nat, sorted: Seq<i32>) -> bool {
    let p = percent * (sorted.len() - 1);
    let f = p / 100;
    let r = scaled(number);
    let before = if f > 0 {
        sorted[f - 1]
    } else {
        sorted[f]
    };
    let after = if f + 1 < sorted.len() {
        sorted[f + 1]
    } else {
        sorted[f]
    };
    &&& number is Finite
    &&& 0 <= f < sorted.len()
    &&& p % 100 != 0 ==> f + 1 < sorted.len()
    &&& p % 100 != 0 ==> 0x2_0000 * (sorted[f] * unit()) - unit() <= 0x2_0000 * r
    &&& p % 100 != 0 ==> 0x2_0000 * r <= 0x2_0000 * (sorted[f + 1] * unit()) + unit()
    &&& p % 100 == 0 ==> 0x10_0000_0000_0000 * (sorted[f] * unit() - r) <= (6 * f * (sorted[f]
        - before)) * unit() + 0x8_0000_0000 * unit()
    &&& p % 100 == 0 ==> 0x10_0000_0000_0000 * (r - sorted[f] * unit()) <= (6 * f * (after
        - sorted[f])) * unit() + 0x8_0000_0000 * unit()
}

/// A percentile of up to 2^42 values in ascending order lies where it says.
pub proof fn percentile_lies_between(sorted: Seq<i32>, percent: nat)
    requires
        0 < sorted.len() <= 0x400_0000_0000,
        percent <= 100,
        forall|i: int, j: int| 0 <= i <= j < sorted.len() ==> sorted[i] <= sorted[j],
    ensures
        lies_at(percentile_of(sorted, percent), percent, sorted),
{
    let (l, u) = percentile_interpolates(sorted, percent);
    let n = sorted.len();
    let p = percent * (n - 1);
    let f = p / 100;
    let s = unit() as int;
    lemma_unit();
    assert(0 <= p <= 100 * (n - 1)) by (nonlinear_arith)
        requires
            percent <= 100,
            n >= 1,
            p == percent * (n - 1),
    ;
    assert(p * (0x10_0000_0000_0000 + 6) == 0x10_0000_0000_0000 * p + 6 * p) by (nonlinear_arith);
    assert(p * (0x10_0000_0000_0000 - 6) == 0x10_0000_0000_0000 * p - 6 * p) by (nonlinear_arith);
    assert(100 * l <= p <= 100 * u);
    if p % 100 != 0 {
        assert(l == f && u == f + 1);
    } else if l < u {
        assert(p == 100 * f);
        let a = sorted[l as int] as int;
        let b = sorted[u as int] as int;
        let at = sorted[f] as int;
        let line = (a * (100 * l + 100 - p) + b * (p - 100 * l)) * s;
        assert(line == 100 * (at * s)) by {
            assert(a * (100 * l + 100 - p) + b * (p - 100 * l) == 100 * at) by {
                if l == f {
                    assert(100 * l + 100 - p == 100 && p - 100 * l == 0);
                } else {
                    assert(u == f);
                    assert(100 * l + 100 - p == 0 && p - 100 * l == 100);
                }
            }
            assert((100 * at) * s == 100 * (at * s)) by (nonlinear_arith);
        }
        let c = b - a;
        assert((6 * p * c) * s == 100 * ((6 * f * c) * s)) by (nonlinear_arith)
            requires
                p == 100 * f,
        ;
        assert(0 <= (6 * f * c) * s) by (nonlinear_arith)
            requires
                f >= 0,
                c >= 0,
                s > 0,
        ;
    }
}

/// A percentile of values in ascending order.
pub fn percentile(sorted_data: &Vec<i32>, percent: u64) -> (r: Double)
    requires
        0 < sorted_data@.len() <= MANTISSA_END,
        percent <= 100,
    ensures
        r == percentile_of(sorted_data@, percent as nat),
{
    let n = sorted_data.len();
    let share = Double::decimal(percent, 100);
    let last = Double::of_u64(n as u64 - 1);
    proof {
        rank_is_inside(n as nat, percent as nat);
    }
    let place = share.mul(last);
    let lower = place.floor();
    let upper = place.ceil();
    let floor = Double::of_u64(lower);
    let fraction = place.minus(floor);
    if lower == upper {
        return Double::of_i64(sorted_data[lower as usize] as i64);
    }
    let below = Double::of_i64(sorted_data[lower as usize] as i64);
    let above = Double::of_i64(sorted_data[upper as usize] as i64);
    let one = Double::of_u64(1);
    proof {
        Double::lemma_add_within(place, floor.spec_negated(), 263);
        Double::lemma_add_within(one, fraction.spec_negated(), 317);
        let rest = one.spec_sub(fraction);
        Double::lemma_mul_within(below, rest, 52, 371);
        Double::lemma_mul_within(above, fraction, 52, 317);
    }
    below.mul(one.minus(fraction)).plus(above.mul(fraction))
}

} // verus!
