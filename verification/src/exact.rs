//! How far the rounded results of the arithmetic are from the exact ones.
use vstd::arithmetic::power2::{
    lemma2_to64, lemma2_to64_rest, lemma_pow2_adds, lemma_pow2_pos, pow2,
};
use vstd::prelude::*;

use crate::addition::{exact_sum, lemma_scaled_down_to, signed};
use crate::double::{
    carried, half_even, half_even_is_nearest, lemma_half_even_range, lemma_product_bounds,
    lemma_quotient_bounds, lemma_scaled_down_sign, lemma_scaled_up_sign, nearest, scaled_down,
    Double, MANTISSA_END, MANTISSA_MIN,
};
use crate::order::{lemma_leading_bit, lemma_of_shape, lemma_scaled_up_to, lt_is_transitive};

verus! {

/// The number that stands for one in [`scaled`].
pub open spec fn unit() -> nat {
    pow2(2000)
}

/// A finite number as a multiple of a very small power of two: an integer for every number
/// whose exponent is not below -2000.
pub open spec fn scaled(x: Double) -> int {
    match x {
        Double::Finite { negative, mantissa, exponent } => signed(
            negative,
            mantissa as nat * pow2((exponent + 2000) as nat),
        ),
        _ => 0,
    }
}

pub proof fn lemma_unit()
    ensures
        unit() > 0,
{
    lemma_pow2_pos(2000);
}

proof fn lemma_le(a: int, b: int, c: int)
    requires
        a <= b,
        0 <= c,
    ensures
        a * c <= b * c,
{
    assert(a * c <= b * c) by (nonlinear_arith)
        requires
            a <= b,
            0 <= c,
    ;
}

proof fn lemma_carried_value(m: nat, e: int)
    requires
        MANTISSA_MIN <= m <= MANTISSA_END,
        -1990 <= e <= 9000,
    ensures
        scaled(carried(false, m, e)) == m * pow2((e + 2000) as nat),
{
    if m == MANTISSA_END {
        vstd::arithmetic::power2::lemma_pow2_unfold((e + 2001) as nat);
        let p = pow2((e + 2000) as nat);
        assert(MANTISSA_MIN * (2 * p) == m * p) by (nonlinear_arith)
            requires
                m == MANTISSA_END,
                MANTISSA_END == 2 * MANTISSA_MIN,
        ;
    }
}

proof fn lemma_power_split(m: nat, i: nat, j: nat)
    ensures
        m * pow2(i + j) == m * pow2(i) * pow2(j),
{
    lemma_pow2_adds(i, j);
    assert(m * (pow2(i) * pow2(j)) == m * pow2(i) * pow2(j)) by (nonlinear_arith);
}

/// A rounded quotient of integers is off by less than one part in 2^53.
proof fn lemma_half_even_error(n: nat, d: nat)
    requires
        d > 0,
        MANTISSA_MIN * d <= n < MANTISSA_END * d,
    ensures
        0x20_0000_0000_0000 * (n - d * half_even(n, d)) <= d * half_even(n, d),
        0x20_0000_0000_0000 * (d * half_even(n, d) - n) <= d * half_even(n, d),
{
    half_even_is_nearest(n, d, 0);
    lemma_half_even_range(n, d);
    let h = half_even(n, d);
    assert(0x10_0000_0000_0000 * d <= d * h) by (nonlinear_arith)
        requires
            h >= 0x10_0000_0000_0000,
    ;
}

proof fn lemma_error_scaled(x: int, y: int, p: int)
    requires
        p >= 0,
        0x20_0000_0000_0000 * (x - y) <= y,
        0x20_0000_0000_0000 * (y - x) <= y,
    ensures
        0x20_0000_0000_0000 * (x * p - y * p) <= y * p,
        0x20_0000_0000_0000 * (y * p - x * p) <= y * p,
{
    assert(0x20_0000_0000_0000 * (x * p - y * p) <= y * p) by (nonlinear_arith)
        requires
            p >= 0,
            0x20_0000_0000_0000 * (x - y) <= y,
    ;
    assert(0x20_0000_0000_0000 * (y * p - x * p) <= y * p) by (nonlinear_arith)
        requires
            p >= 0,
            0x20_0000_0000_0000 * (y - x) <= y,
    ;
}

/// A quotient of positive numbers is off by at most one part in 2^53.
pub proof fn div_is_close(a: Double, b: Double)
    requires
        a.within(900),
        b.within(900),
        a.is_natural(),
        b.is_natural(),
        !b.is_zero(),
    ensures
        0x20_0000_0000_0000 * (scaled(a) * unit() - scaled(a.spec_div(b)) * scaled(b)) <= scaled(
            a.spec_div(b),
        ) * scaled(b),
        0x20_0000_0000_0000 * (scaled(a.spec_div(b)) * scaled(b) - scaled(a) * unit()) <= scaled(
            a.spec_div(b),
        ) * scaled(b),
{
    let c = a.spec_div(b);
    let m1 = a->Finite_mantissa;
    let m2 = b->Finite_mantissa;
    let e1 = a->Finite_exponent as int;
    let e2 = b->Finite_exponent as int;
    if m1 == 0 {
        let p = pow2(2000);
        let z = scaled(b);
        assert(0 * p == 0) by (nonlinear_arith);
        assert(0 * z == 0) by (nonlinear_arith);
    } else {
        lemma_quotient_bounds(m1, m2);
        let s: nat = if m1 >= m2 {
            52
        } else {
            53
        };
        let t: nat = if m1 >= m2 {
            MANTISSA_MIN as nat
        } else {
            MANTISSA_END as nat
        };
        lemma2_to64();
        lemma2_to64_rest();
        assert(pow2(s) == t);
        let n = m1 as nat * t;
        let d = m2 as nat;
        let h = half_even(n, d);
        lemma_half_even_range(n, d);
        lemma_half_even_error(n, d);
        let e = e1 - e2 - s;
        assert(c == carried(false, h, e));
        lemma_carried_value(h, e);
        let i = (e + 2000) as nat;
        let j = (e2 + 2000) as nat;
        let p = pow2(i + j);
        lemma_pow2_adds(i, j);
        let pi = pow2(i);
        let pj = pow2(j);
        assert((h * pi) * (d * pj) == d * h * (pi * pj)) by (nonlinear_arith);
        lemma_power_split(m1 as nat, (e1 + 2000) as nat, 2000);
        lemma_power_split(m1 as nat, s, i + j);
        assert((e1 + 2000) as nat + 2000 == s + (i + j));
        assert(scaled(a) * unit() == n * p);
        assert(scaled(c) * scaled(b) == d * h * p);
        lemma_error_scaled(n as int, (d * h) as int, p as int);
    }
}

/// A product of numbers that are not negative is off by at most one part in 2^53.
pub proof fn mul_is_close(a: Double, b: Double)
    requires
        a.within(900),
        b.within(900),
        a.is_natural(),
        b.is_natural(),
    ensures
        0x20_0000_0000_0000 * (scaled(a) * scaled(b) - scaled(a.spec_mul(b)) * unit()) <= scaled(
            a.spec_mul(b),
        ) * unit(),
        0x20_0000_0000_0000 * (scaled(a.spec_mul(b)) * unit() - scaled(a) * scaled(b)) <= scaled(
            a.spec_mul(b),
        ) * unit(),
{
    let c = a.spec_mul(b);
    let m1 = a->Finite_mantissa;
    let m2 = b->Finite_mantissa;
    let e1 = a->Finite_exponent as int;
    let e2 = b->Finite_exponent as int;
    if m1 == 0 || m2 == 0 {
        let p = pow2(2000);
        let x = scaled(a);
        let y = scaled(b);
        assert(0 * p == 0) by (nonlinear_arith);
        assert(m1 == 0 ==> x == 0);
        assert(m2 == 0 ==> y == 0);
        assert(0 * y == 0 && x * 0 == 0) by (nonlinear_arith);
    } else {
        lemma_product_bounds(m1, m2);
        let s: nat = if m1 * m2 >= MANTISSA_MIN * MANTISSA_END {
            53
        } else {
            52
        };
        let t: nat = if s == 53 {
            MANTISSA_END as nat
        } else {
            MANTISSA_MIN as nat
        };
        lemma2_to64();
        lemma2_to64_rest();
        assert(pow2(s) == t);
        let n = (m1 * m2) as nat;
        let h = half_even(n, t);
        lemma_half_even_range(n, t);
        lemma_half_even_error(n, t);
        let e = e1 + e2 + s;
        assert(c == carried(false, h, e));
        lemma_carried_value(h, e);
        let i = (e1 + 2000) as nat;
        let j = (e2 + 2000) as nat;
        let p = pow2(i + j);
        lemma_pow2_adds(i, j);
        let pi = pow2(i);
        let pj = pow2(j);
        assert((m1 * pi) * (m2 * pj) == (m1 * m2) * (pi * pj)) by (nonlinear_arith);
        lemma_power_split(h, (e + 2000) as nat, 2000);
        lemma_power_split(h, s, i + j);
        assert((e + 2000) as nat + 2000 == s + (i + j));
        assert(h * t == t * h) by (nonlinear_arith);
        assert(scaled(a) * scaled(b) == n * p);
        assert(scaled(c) * unit() == t * h * p);
        lemma_error_scaled(n as int, (t * h) as int, p as int);
    }
}

/// An integer is converted exactly below 2^53, and otherwise off by at most one part in
/// 2^53.
pub proof fn of_is_close(x: nat)
    requires
        x <= u64::MAX,
    ensures
        x < MANTISSA_END ==> scaled(Double::spec_of(x as int)) == x * unit(),
        0x20_0000_0000_0000 * (x * unit() - scaled(Double::spec_of(x as int))) <= scaled(
            Double::spec_of(x as int),
        ),
        0x20_0000_0000_0000 * (scaled(Double::spec_of(x as int)) - x * unit()) <= scaled(
            Double::spec_of(x as int),
        ),
{
    let c = Double::spec_of(x as int);
    lemma_unit();
    Double::lemma_of_within(x as int);
    if x == 0 {
        let p = pow2(2000);
        assert(0 * p == 0) by (nonlinear_arith);
    } else {
        lemma2_to64();
        lemma2_to64_rest();
        let k = lemma_leading_bit(x);
        if k >= 64 && k > 64 {
            vstd::arithmetic::power2::lemma_pow2_strictly_increases(64, k);
        }
        lemma_of_shape(x, k);
        if k <= 52 {
            lemma_power_split(x, (52 - k) as nat, (k + 1948) as nat);
            assert((52 - k) as nat + (k + 1948) as nat == 2000);
            let y = x * unit();
            assert(y >= 0) by (nonlinear_arith)
                requires
                    y == x * unit(),
            ;
        } else {
            let j = (k - 52) as nat;
            let d = pow2(j);
            let h = half_even(x, d);
            lemma_pow2_pos(j);
            lemma_pow2_adds(52, j);
            lemma_pow2_adds(53, j);
            lemma_half_even_error(x, d);
            lemma_carried_value(h, j as int);
            lemma_power_split(h, j, 2000);
            assert(h * d == d * h) by (nonlinear_arith);
            lemma_error_scaled(x as int, (d * h) as int, unit() as int);
            if k > 53 {
                vstd::arithmetic::power2::lemma_pow2_strictly_increases(53, k);
            }
        }
    }
}

/// The order of finite numbers is that of what they stand for.
pub proof fn lt_is_the_order(a: Double, b: Double)
    requires
        a.within(1990),
        b.within(1990),
        a is Finite,
        b is Finite,
    ensures
        a.spec_lt(b) <==> scaled(a) < scaled(b),
{
    let m1 = a->Finite_mantissa;
    let m2 = b->Finite_mantissa;
    let e1 = a->Finite_exponent as int;
    let e2 = b->Finite_exponent as int;
    lemma_magnitude_order(m1, e1, m2, e2);
    lemma_magnitude_order(m2, e2, m1, e1);
    lemma_pow2_pos((e1 + 2000) as nat);
    lemma_pow2_pos((e2 + 2000) as nat);
    let x = m1 as nat * pow2((e1 + 2000) as nat);
    let y = m2 as nat * pow2((e2 + 2000) as nat);
    assert(m1 > 0 ==> x > 0) by (nonlinear_arith)
        requires
            x == m1 as nat * pow2((e1 + 2000) as nat),
            pow2((e1 + 2000) as nat) > 0,
    ;
    assert(m2 > 0 ==> y > 0) by (nonlinear_arith)
        requires
            y == m2 as nat * pow2((e2 + 2000) as nat),
            pow2((e2 + 2000) as nat) > 0,
    ;
}

proof fn lemma_magnitude_order(m1: u64, e1: int, m2: u64, e2: int)
    requires
        (m1 == 0 && e1 == 0) || MANTISSA_MIN <= m1 < MANTISSA_END,
        (m2 == 0 && e2 == 0) || MANTISSA_MIN <= m2 < MANTISSA_END,
        -1990 <= e1 <= 1990,
        -1990 <= e2 <= 1990,
    ensures
        crate::double::smaller(m1 as nat, e1, m2 as nat, e2) <==> m1 as nat * pow2(
            (e1 + 2000) as nat,
        ) < m2 as nat * pow2((e2 + 2000) as nat),
{
    if e1 >= e2 {
        let j = (e2 + 2000) as nat;
        let q = pow2(j);
        lemma_pow2_pos(j);
        lemma_power_split(m1 as nat, (e1 - e2) as nat, j);
        assert((e1 - e2) as nat + j == (e1 + 2000) as nat);
        let x = m1 as nat * pow2((e1 - e2) as nat);
        let y = m2 as nat;
        assert(x < y <==> x * q < y * q) by (nonlinear_arith)
            requires
                q > 0,
        ;
    } else {
        let j = (e1 + 2000) as nat;
        let q = pow2(j);
        lemma_pow2_pos(j);
        lemma_power_split(m2 as nat, (e2 - e1) as nat, j);
        assert((e2 - e1) as nat + j == (e2 + 2000) as nat);
        let x = m1 as nat;
        let y = m2 as nat * pow2((e2 - e1) as nat);
        assert(x < y <==> x * q < y * q) by (nonlinear_arith)
            requires
                q > 0,
        ;
    }
}

/// Whether a number that is not negative is the fraction `n / d`, off by at most `k` parts
/// in 2^52.
pub open spec fn near(x: Double, n: nat, d: nat, k: nat) -> bool {
    &&& x.is_natural()
    &&& d > 0
    &&& (scaled(x) * d) * 0x10_0000_0000_0000 <= (n * unit()) * (0x10_0000_0000_0000 + k)
    &&& (n * unit()) * (0x10_0000_0000_0000 - k) <= (scaled(x) * d) * 0x10_0000_0000_0000
}

/// An integer is near itself.
pub proof fn near_of(x: nat)
    requires
        x <= u64::MAX,
    ensures
        near(Double::spec_of(x as int), x, 1, 1),
        x < MANTISSA_END ==> near(Double::spec_of(x as int), x, 1, 0),
{
    of_is_close(x);
    Double::lemma_of_within(x as int);
    lemma_unit();
    let v = scaled(Double::spec_of(x as int));
    let y = x * unit();
    assert(y >= 0) by (nonlinear_arith)
        requires
            y == x * unit(),
    ;
    assert(v * 1 == v) by (nonlinear_arith);
    assert(v <= 2 * y);
    assert(v * 0x10_0000_0000_0000 <= y * 0x10_0000_0000_0001);
    assert(y * 0xf_ffff_ffff_ffff <= v * 0x10_0000_0000_0000);
}

proof fn lemma_cross(a: int, b: int, c: int, d: int)
    ensures
        (a * b) * (c * d) == (a * c) * (b * d),
        (a * b) * c == (a * c) * b,
        (a * b) * c == a * (b * c),
        a * b == b * a,
{
    assert((a * b) * c == a * (b * c)) by (nonlinear_arith);
    assert(a * b == b * a) by (nonlinear_arith);
    assert((a * b) * c == (a * c) * b) by (nonlinear_arith);
    let x = b * (c * d);
    assert((a * b) * (c * d) == a * x) by (nonlinear_arith)
        requires
            x == b * (c * d),
    ;
    assert(x == c * (b * d)) by (nonlinear_arith)
        requires
            x == b * (c * d),
    ;
    let y = b * d;
    assert(a * (c * y) == (a * c) * y) by (nonlinear_arith);
}

proof fn lemma_regroup(n: int, s: int, f: int, a: int, g: int, h: int)
    ensures
        ((n * s) * f) * ((a * s) * g) * h == (((a * n) * s) * ((g * f) * h)) * s,
{
    lemma_cross(n * s, f, a * s, g);
    lemma_cross(n, s, a, s);
    let t = (a * n) * s;
    let w = f * g;
    lemma_cross(n, a, 0, 0);
    lemma_cross(f, g, 0, 0);
    // ((n a) (s s)) w h
    lemma_cross(a * n, s, s, 0);
    assert(((n * s) * f) * ((a * s) * g) == (t * s) * w);
    lemma_cross(t * s, w, h, 0);
    lemma_cross(t, s, w * h, 0);
}

proof fn lemma_cancel(a: int, b: int, c: int)
    requires
        a * c <= b * c,
        c > 0,
    ensures
        a <= b,
{
    assert(a <= b) by (nonlinear_arith)
        requires
            a * c <= b * c,
            c > 0,
    ;
}

/// The constants of the error of a quotient or a product.
proof fn lemma_parts(k: int, l: int)
    requires
        0 <= k <= 100,
        0 <= l <= 100,
    ensures
        ({
            let p = 0x10_0000_0000_0000int;
            &&& (p + k) * (2 * p) * p <= (p + k + l + 2) * ((p - l) * (2 * p - 1))
            &&& (p - k - l - 2) * ((p + l) * (2 * p + 1)) <= (p - k) * (2 * p) * p
            &&& (p + k) * (p + l) * (2 * p) <= (p + k + l + 2) * (2 * p - 1) * p
            &&& (p - k - l - 2) * (2 * p + 1) * p <= (p - k) * (p - l) * (2 * p)
        }),
{
    let p = 0x10_0000_0000_0000int;
    assert(0 <= k * l <= 10000) by (nonlinear_arith)
        requires
            0 <= k <= 100,
            0 <= l <= 100,
    ;
    assert(0 <= l * l <= 10000) by (nonlinear_arith)
        requires
            0 <= l <= 100,
    ;
    assert((p + k) * (2 * p) * p <= (p + k + l + 2) * ((p - l) * (2 * p - 1))) by (nonlinear_arith)
        requires
            p == 0x10_0000_0000_0000,
            0 <= k <= 100,
            0 <= l <= 100,
            0 <= k * l <= 10000,
            0 <= l * l <= 10000,
    ;
    assert((p - k - l - 2) * ((p + l) * (2 * p + 1)) <= (p - k) * (2 * p) * p) by (nonlinear_arith)
        requires
            p == 0x10_0000_0000_0000,
            0 <= k <= 100,
            0 <= l <= 100,
            0 <= k * l <= 10000,
            0 <= l * l <= 10000,
    ;
    assert((p + k) * (p + l) * (2 * p) <= (p + k + l + 2) * (2 * p - 1) * p) by (nonlinear_arith)
        requires
            p == 0x10_0000_0000_0000,
            0 <= k <= 100,
            0 <= l <= 100,
            0 <= k * l <= 10000,
    ;
    assert((p - k - l - 2) * (2 * p + 1) * p <= (p - k) * (p - l) * (2 * p)) by (nonlinear_arith)
        requires
            p == 0x10_0000_0000_0000,
            0 <= k <= 100,
            0 <= l <= 100,
            0 <= k * l <= 10000,
    ;
}

proof fn lemma_regroup_quotient(
    n: int,
    s: int,
    f: int,
    q: int,
    b: int,
    g: int,
    y: int,
    d: int,
    p: int,
    x: int,
    h: int,
    a: int,
    j: int,
)
    ensures
        ((n * s) * f) * ((q * b) * g) == ((q * (b * n)) * (f * g)) * s,
        ((y * d) * p) * ((q * b) * g) == ((q * y) * g) * ((d * b) * p),
        ((x * s) * h) * ((d * b) * p) == ((x * b) * p) * ((s * d) * h),
        ((a * s) * j) * ((s * d) * h) == (((a * d) * s) * (j * h)) * s,
{
    lemma_cross(n * s, f, q * b, g);
    lemma_cross(q, b, n, s);
    lemma_cross(n * s, q * b, 0, 0);
    lemma_cross(q * b, n, s, 0);
    lemma_cross(q, b, n, 0);
    lemma_cross(q * (b * n), s, f * g, 0);
    lemma_cross(y * d, p, q * b, g);
    lemma_cross(q * y, g, d * b, p);
    lemma_cross(y, d, q, b);
    lemma_cross(y, q, 0, 0);
    lemma_cross(p, g, 0, 0);
    lemma_cross(x * s, h, d * b, p);
    lemma_cross(x * b, p, s * d, h);
    lemma_cross(x, s, b, d);
    lemma_cross(d, b, 0, 0);
    lemma_cross(h, p, 0, 0);
    lemma_cross(a * s, j, s * d, h);
    lemma_cross(a, s, d, s);
    lemma_cross(s, d, 0, 0);
    lemma_cross(a * d, s, s, 0);
    lemma_cross((a * d) * s, s, j * h, 0);
}

proof fn lemma_regroup_cancel(t: int, f: int, p: int, g: int, c: int, r: int)
    ensures
        (t * f) * p == (f * p) * t,
        (g * c) * t == (t * g) * c,
        (r * c) * p == (r * p) * c,
{
    assert((t * f) * p == (f * p) * t) by (nonlinear_arith);
    assert((g * c) * t == (t * g) * c) by (nonlinear_arith);
    assert((r * c) * p == (r * p) * c) by (nonlinear_arith);
}

/// The upper bound of a quotient from those of its parts.
proof fn lemma_quotient_above(
    x: int,
    b: int,
    a: int,
    y: int,
    d: int,
    n: int,
    q: int,
    s: int,
    k: int,
    l: int,
)
    requires
        0 <= x,
        0 < b,
        0 <= a,
        0 <= y,
        0 < d,
        0 <= n,
        0 <= q,
        0 < s,
        0 <= k <= 100,
        0 <= l <= 100,
        (x * b) * 0x10_0000_0000_0000 <= (a * s) * (0x10_0000_0000_0000 + k),
        (n * s) * (0x10_0000_0000_0000 - l) <= (y * d) * 0x10_0000_0000_0000,
        (q * y) * 0x1f_ffff_ffff_ffff <= (x * s) * 0x20_0000_0000_0000,
    ensures
        (q * (b * n)) * 0x10_0000_0000_0000 <= ((a * d) * s) * (0x10_0000_0000_0000 + k + l + 2),
{
    let p = 0x10_0000_0000_0000int;
    lemma_parts(k, l);
    let c = (p - l) * (2 * p - 1);
    let qb = q * b;
    assert(qb >= 0) by (nonlinear_arith)
        requires
            qb == q * b,
            q >= 0,
            b > 0,
    ;
    // q n s (p - l) b (2p - 1) <= q y d p b (2p - 1)
    lemma_le((n * s) * (p - l), (y * d) * p, qb * (2 * p - 1));
    // q y (2p - 1) d p b <= x s 2p d p b
    lemma_le((q * y) * (2 * p - 1), (x * s) * (2 * p), (d * b) * p);
    // x b p s 2p d <= a s (p + k) s 2p d
    lemma_le((x * b) * p, (a * s) * (p + k), (s * d) * (2 * p));
    lemma_regroup_quotient(n, s, p - l, q, b, 2 * p - 1, y, d, p, x, 2 * p, a, p + k);
    lemma_cancel((q * (b * n)) * c, ((a * d) * s) * ((p + k) * (2 * p)), s);
    let t = (a * d) * s;
    assert(t >= 0) by (nonlinear_arith)
        requires
            t == (a * d) * s,
            a >= 0,
            d > 0,
            s > 0,
    ;
    lemma_le((q * (b * n)) * c, t * ((p + k) * (2 * p)), p);
    lemma_le((p + k) * (2 * p) * p, (p + k + l + 2) * c, t);
    lemma_regroup_cancel(t, (p + k) * (2 * p), p, p + k + l + 2, c, q * (b * n));
    assert(c > 0) by (nonlinear_arith)
        requires
            c == (p - l) * (2 * p - 1),
            p == 0x10_0000_0000_0000,
            l <= 100,
    ;
    lemma_cancel((q * (b * n)) * p, t * (p + k + l + 2), c);
}

/// The lower bound of a quotient from those of its parts.
proof fn lemma_quotient_below(
    x: int,
    b: int,
    a: int,
    y: int,
    d: int,
    n: int,
    q: int,
    s: int,
    k: int,
    l: int,
)
    requires
        0 <= x,
        0 < b,
        0 <= a,
        0 <= y,
        0 < d,
        0 <= n,
        0 <= q,
        0 < s,
        0 <= k <= 100,
        0 <= l <= 100,
        (a * s) * (0x10_0000_0000_0000 - k) <= (x * b) * 0x10_0000_0000_0000,
        (y * d) * 0x10_0000_0000_0000 <= (n * s) * (0x10_0000_0000_0000 + l),
        (x * s) * 0x20_0000_0000_0000 <= (q * y) * 0x20_0000_0000_0001,
    ensures
        ((a * d) * s) * (0x10_0000_0000_0000 - k - l - 2) <= (q * (b * n)) * 0x10_0000_0000_0000,
{
    let p = 0x10_0000_0000_0000int;
    lemma_parts(k, l);
    let c = (p + l) * (2 * p + 1);
    let qb = q * b;
    assert(qb >= 0) by (nonlinear_arith)
        requires
            qb == q * b,
            q >= 0,
            b > 0,
    ;
    lemma_le((y * d) * p, (n * s) * (p + l), qb * (2 * p + 1));
    lemma_le((x * s) * (2 * p), (q * y) * (2 * p + 1), (d * b) * p);
    lemma_le((a * s) * (p - k), (x * b) * p, (s * d) * (2 * p));
    lemma_regroup_quotient(n, s, p + l, q, b, 2 * p + 1, y, d, p, x, 2 * p, a, p - k);
    lemma_cancel(((a * d) * s) * ((p - k) * (2 * p)), (q * (b * n)) * c, s);
    let t = (a * d) * s;
    assert(t >= 0) by (nonlinear_arith)
        requires
            t == (a * d) * s,
            a >= 0,
            d > 0,
            s > 0,
    ;
    lemma_le(t * ((p - k) * (2 * p)), (q * (b * n)) * c, p);
    lemma_le((p - k - l - 2) * c, (p - k) * (2 * p) * p, t);
    lemma_regroup_cancel(t, (p - k) * (2 * p), p, p - k - l - 2, c, q * (b * n));
    assert(c > 0) by (nonlinear_arith)
        requires
            c == (p + l) * (2 * p + 1),
            p == 0x10_0000_0000_0000,
            l >= 0,
    ;
    lemma_cancel(t * (p - k - l - 2), (q * (b * n)) * p, c);
}

proof fn lemma_natural_scaled(x: Double)
    requires
        x.is_natural(),
    ensures
        scaled(x) >= 0,
{
}

/// A quotient is near the quotient of the fractions.
pub proof fn near_div(x: Double, a: nat, b: nat, k: nat, y: Double, n: nat, d: nat, l: nat)
    requires
        x.within(900),
        y.within(900),
        !y.is_zero(),
        near(x, a, b, k),
        near(y, n, d, l),
        n > 0,
        k <= 100,
        l <= 100,
    ensures
        near(x.spec_div(y), a * d, b * n, k + l + 2),
{
    let q = x.spec_div(y);
    Double::lemma_div_within(x, y, 900, 900);
    div_is_close(x, y);
    lemma_unit();
    lemma_natural_scaled(x);
    lemma_natural_scaled(y);
    lemma_natural_scaled(q);
    let u = unit() as int;
    lemma_quotient_above(
        scaled(x),
        b as int,
        a as int,
        scaled(y),
        d as int,
        n as int,
        scaled(q),
        u,
        k as int,
        l as int,
    );
    lemma_quotient_below(
        scaled(x),
        b as int,
        a as int,
        scaled(y),
        d as int,
        n as int,
        scaled(q),
        u,
        k as int,
        l as int,
    );
    assert(b * n > 0) by (nonlinear_arith)
        requires
            b > 0,
            n > 0,
    ;
}

proof fn lemma_regroup_product(
    x: int,
    y: int,
    h: int,
    b: int,
    d: int,
    p: int,
    q: int,
    s: int,
    g: int,
)
    ensures
        ((x * y) * h) * ((b * d) * (p * p)) == (((x * b) * p) * ((y * d) * p)) * h,
        ((q * s) * g) * ((b * d) * (p * p)) == ((q * (b * d)) * (g * (p * p))) * s,
{
    lemma_cross(x * y, h, b * d, p * p);
    lemma_cross(x, y, b, d);
    lemma_cross(x * b, p, y * d, p);
    lemma_cross((x * b) * (y * d), p * p, h, 0);
    lemma_cross(h, p * p, 0, 0);
    lemma_cross(q * s, g, b * d, p * p);
    lemma_cross(q, s, b * d, 0);
    lemma_cross(q * (b * d), s, g * (p * p), 0);
}

proof fn lemma_regroup_end(f: int, t: int, e: int, g: int, p: int, r: int)
    ensures
        f * t == t * f,
        (e * g * p) * t == (t * e) * (g * p),
        r * (g * (p * p)) == (r * p) * (g * p),
{
    assert(f * t == t * f) by (nonlinear_arith);
    assert((e * g * p) * t == (t * e) * (g * p)) by (nonlinear_arith);
    assert(r * (g * (p * p)) == (r * p) * (g * p)) by (nonlinear_arith);
}

/// The bounds of a product from those of its parts.
proof fn lemma_product_near(
    x: int,
    b: int,
    a: int,
    y: int,
    d: int,
    n: int,
    q: int,
    s: int,
    k: int,
    l: int,
)
    requires
        0 <= x,
        0 < b,
        0 <= a,
        0 <= y,
        0 < d,
        0 <= n,
        0 <= q,
        0 < s,
        0 <= k <= 100,
        0 <= l <= 100,
        (x * b) * 0x10_0000_0000_0000 <= (a * s) * (0x10_0000_0000_0000 + k),
        (a * s) * (0x10_0000_0000_0000 - k) <= (x * b) * 0x10_0000_0000_0000,
        (y * d) * 0x10_0000_0000_0000 <= (n * s) * (0x10_0000_0000_0000 + l),
        (n * s) * (0x10_0000_0000_0000 - l) <= (y * d) * 0x10_0000_0000_0000,
        (q * s) * 0x1f_ffff_ffff_ffff <= (x * y) * 0x20_0000_0000_0000,
        (x * y) * 0x20_0000_0000_0000 <= (q * s) * 0x20_0000_0000_0001,
    ensures
        (q * (b * d)) * 0x10_0000_0000_0000 <= ((a * n) * s) * (0x10_0000_0000_0000 + k + l + 2),
        ((a * n) * s) * (0x10_0000_0000_0000 - k - l - 2) <= (q * (b * d)) * 0x10_0000_0000_0000,
{
    let p = 0x10_0000_0000_0000int;
    lemma_parts(k, l);
    let xb = x * b;
    let yd = y * d;
    let an = a * s;
    let nn = n * s;
    assert(xb >= 0 && yd >= 0 && an >= 0 && nn >= 0) by (nonlinear_arith)
        requires
            xb == x * b,
            yd == y * d,
            an == a * s,
            nn == n * s,
            x >= 0,
            b > 0,
            y >= 0,
            d > 0,
            a >= 0,
            n >= 0,
            s > 0,
    ;
    let bd = b * d;
    assert(bd > 0) by (nonlinear_arith)
        requires
            bd == b * d,
            b > 0,
            d > 0,
    ;
    // (xb p)(yd p) <= an (p + k) nn (p + l)
    lemma_le(xb * p, an * (p + k), yd * p);
    lemma_le(yd * p, nn * (p + l), an * (p + k));
    assert((an * (p + k)) * (yd * p) == (yd * p) * (an * (p + k))) by (nonlinear_arith);
    // q s (2p - 1) b d p p <= x y 2p b d p p
    lemma_le((q * s) * (2 * p - 1), (x * y) * (2 * p), bd * (p * p));
    lemma_regroup_product(x, y, 2 * p, b, d, p, q, s, 2 * p - 1);
    lemma_regroup_product(x, y, 2 * p, b, d, p, q, s, 2 * p + 1);
    let t = (a * n) * s;
    assert(t >= 0) by (nonlinear_arith)
        requires
            t == (a * n) * s,
            a >= 0,
            n >= 0,
            s > 0,
    ;
    lemma_le((xb * p) * (yd * p), (nn * (p + l)) * (an * (p + k)), 2 * p);
    lemma_regroup(n, s, p + l, a, p + k, 2 * p);
    lemma_cancel((q * bd) * ((2 * p - 1) * (p * p)), t * ((p + k) * (p + l) * (2 * p)), s);
    lemma_le((p + k) * (p + l) * (2 * p), (p + k + l + 2) * (2 * p - 1) * p, t);
    lemma_regroup_end(
        (p + k) * (p + l) * (2 * p),
        t,
        p + k + l + 2,
        2 * p - 1,
        p,
        q * bd,
    );
    assert((2 * p - 1) * p > 0) by (nonlinear_arith)
        requires
            p == 0x10_0000_0000_0000,
    ;
    lemma_cancel((q * bd) * p, t * (p + k + l + 2), (2 * p - 1) * p);
    // the other way
    lemma_le(an * (p - k), xb * p, yd * p);
    lemma_le(nn * (p - l), yd * p, an * (p - k));
    assert(an * (p - k) >= 0) by (nonlinear_arith)
        requires
            an >= 0,
            p - k >= 0,
    ;
    assert((an * (p - k)) * (yd * p) == (yd * p) * (an * (p - k))) by (nonlinear_arith);
    lemma_le((x * y) * (2 * p), (q * s) * (2 * p + 1), bd * (p * p));
    lemma_le((nn * (p - l)) * (an * (p - k)), (xb * p) * (yd * p), 2 * p);
    lemma_regroup(n, s, p - l, a, p - k, 2 * p);
    lemma_cancel(t * ((p - k) * (p - l) * (2 * p)), (q * bd) * ((2 * p + 1) * (p * p)), s);
    lemma_le((p - k - l - 2) * (2 * p + 1) * p, (p - k) * (p - l) * (2 * p), t);
    lemma_regroup_end(
        (p - k) * (p - l) * (2 * p),
        t,
        p - k - l - 2,
        2 * p + 1,
        p,
        q * bd,
    );
    assert((2 * p + 1) * p > 0) by (nonlinear_arith)
        requires
            p == 0x10_0000_0000_0000,
    ;
    lemma_cancel(t * (p - k - l - 2), (q * bd) * p, (2 * p + 1) * p);
}

/// A product is near the product of the fractions.
pub proof fn near_mul(x: Double, a: nat, b: nat, k: nat, y: Double, n: nat, d: nat, l: nat)
    requires
        x.within(900),
        y.within(900),
        near(x, a, b, k),
        near(y, n, d, l),
        k <= 100,
        l <= 100,
    ensures
        near(x.spec_mul(y), a * n, b * d, k + l + 2),
{
    let q = x.spec_mul(y);
    Double::lemma_mul_within(x, y, 900, 900);
    mul_is_close(x, y);
    lemma_unit();
    lemma_natural_scaled(x);
    lemma_natural_scaled(y);
    lemma_natural_scaled(q);
    lemma_product_near(
        scaled(x),
        b as int,
        a as int,
        scaled(y),
        d as int,
        n as int,
        scaled(q),
        unit() as int,
        k as int,
        l as int,
    );
    assert(b * d > 0) by (nonlinear_arith)
        requires
            b > 0,
            d > 0,
    ;
}

/// Two numbers near fractions that are not too close are in the order of the fractions.
pub proof fn near_order(x: Double, a: nat, b: nat, k: nat, y: Double, n: nat, d: nat, l: nat)
    requires
        x.within(1990),
        y.within(1990),
        near(x, a, b, k),
        near(y, n, d, l),
        k <= 100,
        l <= 100,
        n * b < a * d,
        n * b <= 0x1000_0000_0000,
    ensures
        y.spec_lt(x),
{
    let p = 0x10_0000_0000_0000int;
    let s = unit() as int;
    lemma_unit();
    lt_is_the_order(y, x);
    lemma_natural_scaled(x);
    lemma_natural_scaled(y);
    let vx = scaled(x);
    let vy = scaled(y);
    let nb = (n * b) as int;
    let ad = (a * d) as int;
    if vx <= vy {
        // a s (p - k) d <= x b p d <= y d p b <= n s (p + l) b
        lemma_le((a * s) * (p - k), (vx * b) * p, d as int);
        lemma_le(vx, vy, (b * d) * p);
        lemma_le((vy * d) * p, (n * s) * (p + l), b as int);
        assert(((vx * b) * p) * d == vx * ((b * d) * p)) by (nonlinear_arith);
        assert(vy * ((b * d) * p) == ((vy * d) * p) * b) by (nonlinear_arith);
        assert(((a * s) * (p - k)) * d == (ad * (p - k)) * s) by (nonlinear_arith)
            requires
                ad == a * d,
        ;
        assert(((n * s) * (p + l)) * b == (nb * (p + l)) * s) by (nonlinear_arith)
            requires
                nb == n * b,
        ;
        assert((b * d) * p >= 0) by (nonlinear_arith)
            requires
                p > 0,
        ;
        lemma_cancel(ad * (p - k), nb * (p + l), s);
        lemma_le(nb + 1, ad, p - k);
        assert(nb * (p + l) < (nb + 1) * (p - k)) by (nonlinear_arith)
            requires
                0 <= nb <= 0x1000_0000_0000,
                p == 0x10_0000_0000_0000,
                0 <= k <= 100,
                0 <= l <= 100,
        ;
    }
}

/// Rounding to an integer gives one next to the number, on the right side.
pub proof fn whole_parts_are_next(x: Double)
    requires
        x.within(1990),
        x.is_natural(),
    ensures
        x.spec_floor() * unit() <= scaled(x) < (x.spec_floor() + 1) * unit(),
        (x.spec_ceil() - 1) * unit() < scaled(x) <= x.spec_ceil() * unit(),
        (2 * x.spec_round() - 1) * unit() <= 2 * scaled(x) < (2 * x.spec_round() + 1) * unit(),
{
    let m = x->Finite_mantissa as nat;
    let e = x->Finite_exponent as int;
    lemma_unit();
    let s = unit() as int;
    if e >= 0 {
        lemma_power_split(m, e as nat, 2000);
        let w = x.spec_floor();
        assert(e as nat + 2000 == (e + 2000) as nat);
        assert(scaled(x) == w * s);
        assert((w + 1) * s == w * s + s && (w - 1) * s == w * s - s
            && (2 * w - 1) * s == 2 * (w * s)
            - s && (2 * w + 1) * s == 2 * (w * s) + s) by (nonlinear_arith);
    } else {
        let d = pow2((-e) as nat) as int;
        let p = pow2((e + 2000) as nat) as int;
        lemma_pow2_pos((-e) as nat);
        lemma_pow2_pos((e + 2000) as nat);
        lemma_pow2_adds((-e) as nat, (e + 2000) as nat);
        assert((-e) as nat + (e + 2000) as nat == 2000);
        assert(s == d * p);
        let f = x.spec_floor() as int;
        let c = x.spec_ceil() as int;
        let r = x.spec_round() as int;
        vstd::arithmetic::div_mod::lemma_fundamental_div_mod(m as int, d);
        vstd::arithmetic::div_mod::lemma_fundamental_div_mod(m + d - 1, d);
        vstd::arithmetic::div_mod::lemma_fundamental_div_mod(2 * m + d, 2 * d);
        assert(f * d <= m < (f + 1) * d) by (nonlinear_arith)
            requires
                m == d * f + m as int % d,
                0 <= m as int % d < d,
        ;
        assert((c - 1) * d < m <= c * d) by (nonlinear_arith)
            requires
                m + d - 1 == d * c + (m + d - 1) % d,
                0 <= (m + d - 1) % d < d,
        ;
        assert((2 * r - 1) * d <= 2 * m < (2 * r + 1) * d) by (nonlinear_arith)
            requires
                2 * m + d == (2 * d) * r + (2 * m + d) % (2 * d),
                0 <= (2 * m + d) % (2 * d) < 2 * d,
        ;
        assert(f * s <= m * p < (f + 1) * s) by (nonlinear_arith)
            requires
                f * d <= m < (f + 1) * d,
                s == d * p,
                p > 0,
        ;
        assert((c - 1) * s < m * p <= c * s) by (nonlinear_arith)
            requires
                (c - 1) * d < m <= c * d,
                s == d * p,
                p > 0,
        ;
        assert((2 * r - 1) * s <= 2 * (m * p) < (2 * r + 1) * s) by (nonlinear_arith)
            requires
                (2 * r - 1) * d <= 2 * m < (2 * r + 1) * d,
                s == d * p,
                p > 0,
        ;
    }
}

/// A decimal fraction is near itself.
pub proof fn near_decimal(n: nat, d: nat)
    requires
        n <= u64::MAX,
        0 < d <= u64::MAX,
    ensures
        near(Double::spec_decimal(n, d), n, d, 4),
        Double::spec_decimal(n, d).within(157),
{
    near_of(n);
    near_of(d);
    Double::lemma_of_within(n as int);
    Double::lemma_of_within(d as int);
    Double::lemma_decimal_within(n, d);
    near_div(Double::spec_of(n as int), n, 1, 1, Double::spec_of(d as int), d, 1, 1);
    assert(n * 1 == n && 1 * d == d) by (nonlinear_arith);
}

/// The size of an integer.
pub open spec fn size_of(x: int) -> nat {
    if x < 0 {
        -x as nat
    } else {
        x as nat
    }
}

proof fn lemma_signed_carried(negative: bool, m: nat, e: int)
    requires
        MANTISSA_MIN <= m <= MANTISSA_END,
        -1990 <= e <= 9000,
    ensures
        scaled(carried(negative, m, e)) == signed(negative, m * pow2((e + 2000) as nat)),
{
    lemma_carried_value(m, e);
}

proof fn lemma_signed_times(x: int, p: nat)
    ensures
        x * p == signed(x < 0, size_of(x) * p),
        size_of(x * p) == size_of(x) * p,
{
    let a = size_of(x);
    assert(x < 0 ==> x * p == -(a * p)) by (nonlinear_arith)
        requires
            x < 0 ==> a == -x,
    ;
    assert(a * p >= 0) by (nonlinear_arith);
}

/// The double nearest to a multiple of a power of two is exact for a small multiple, and
/// otherwise off by at most one part in 2^53.
pub proof fn nearest_is_close(x: int, e: int, k: nat)
    requires
        -1900 <= e,
        e + k <= 5000,
        size_of(x) < pow2(k + 1),
    ensures
        size_of(x) < MANTISSA_END ==> scaled(nearest(x, e)) == x * pow2((e + 2000) as nat),
        0x20_0000_0000_0000 * size_of(
            x * pow2((e + 2000) as nat) - scaled(nearest(x, e)),
        ) <= size_of(scaled(nearest(x, e))),
{
    let a = size_of(x);
    let p = pow2((e + 2000) as nat);
    lemma_pow2_pos((e + 2000) as nat);
    lemma2_to64();
    lemma2_to64_rest();
    if x == 0 {
        let z = pow2(2000);
        assert(0 * z == 0 && 0 * p == 0) by (nonlinear_arith);
    } else {
        let c = lemma_leading_bit(a);
        lemma_signed_times(x, p);
        if c > k {
            if c > k + 1 {
                vstd::arithmetic::power2::lemma_pow2_strictly_increases(k + 1, c);
            }
        }
        if c <= 52 {
            if c + 1 < 53 {
                vstd::arithmetic::power2::lemma_pow2_strictly_increases(c + 1, 53);
            }
            lemma_scaled_up_to(x < 0, a, e, c);
            let q = pow2((52 - c) as nat);
            lemma_pow2_pos((52 - c) as nat);
            lemma_pow2_adds(c, (52 - c) as nat);
            lemma_pow2_adds(c + 1, (52 - c) as nat);
            assert(pow2(c) * q <= a * q < pow2(c + 1) * q) by (nonlinear_arith)
                requires
                    pow2(c) <= a < pow2(c + 1),
                    q > 0,
            ;
            lemma_power_split(a, (52 - c) as nat, (e - (52 - c) + 2000) as nat);
            assert((52 - c) as nat + (e - (52 - c) + 2000) as nat == (e + 2000) as nat);
            assert(scaled(nearest(x, e)) == x * p);
        } else {
            let j = (c - 52) as nat;
            let d = pow2(j);
            let h = half_even(a, d);
            if c > 53 {
                vstd::arithmetic::power2::lemma_pow2_strictly_increases(53, c);
            }
            lemma_pow2_pos(j);
            lemma_pow2_adds(53, (j - 1) as nat);
            lemma_pow2_adds(52, j);
            lemma_pow2_adds(53, j);
            lemma_scaled_down_to(x < 0, a, 0, j, e);
            lemma_half_even_range(a, d);
            lemma_half_even_error(a, d);
            lemma_signed_carried(x < 0, h, e + j);
            lemma_power_split(h, j, (e + 2000) as nat);
            assert(j + (e + 2000) as nat == (e + j + 2000) as nat);
            assert(h * d == d * h) by (nonlinear_arith);
            lemma_error_scaled(a as int, (d * h) as int, p as int);
            let y = d * h * p;
            assert(y >= 0) by (nonlinear_arith)
                requires
                    y == d * h * p,
            ;
            assert(scaled(nearest(x, e)) == signed(x < 0, y));
        }
    }
}

/// A sum is off by at most one part in 2^53.
pub proof fn add_is_close(a: Double, b: Double)
    requires
        a.within(900),
        b.within(900),
        a is Finite,
        b is Finite,
    ensures
        a.spec_add(b) is Finite,
        a.spec_add(b).within(954),
        0x20_0000_0000_0000 * size_of(scaled(a) + scaled(b) - scaled(a.spec_add(b))) <= size_of(
            scaled(a.spec_add(b)),
        ),
{
    Double::lemma_add_within(a, b, 900);
    let m1 = a->Finite_mantissa as nat;
    let m2 = b->Finite_mantissa as nat;
    let e1 = a->Finite_exponent as int;
    let e2 = b->Finite_exponent as int;
    let n1 = a->Finite_negative;
    let n2 = b->Finite_negative;
    let z = pow2(2000);
    assert(0 * z == 0) by (nonlinear_arith);
    if m1 == 0 || m2 == 0 {
        assert(m1 == 0 ==> scaled(a) == 0);
        assert(m2 == 0 ==> scaled(b) == 0);
    } else {
        let e = if e1 >= e2 {
            e2
        } else {
            e1
        };
        let x = exact_sum(n1, m1, e1, n2, m2, e2);
        lemma_sum_scaled(n1, m1, e1, n2, m2, e2);
        lemma_sum_size(n1, m1, e1, n2, m2, e2);
        let k: nat = if e1 >= e2 {
            (e1 - e2 + 54) as nat
        } else {
            (e2 - e1 + 54) as nat
        };
        nearest_is_close(x, e, k);
        lemma_nearest_finite(x, e);
    }
}

proof fn lemma_nearest_finite(x: int, e: int)
    ensures
        nearest(x, e) is Finite,
{
    let a = size_of(x);
    lemma_scaled_up_sign(x < 0, a, e);
    lemma_scaled_down_sign(x < 0, a, 1, e);
}

proof fn lemma_signed_sum(n1: bool, x: nat, n2: bool, y: nat, p: nat)
    ensures
        (signed(n1, x) + signed(n2, y)) * p == signed(n1, x * p) + signed(n2, y * p),
{
    let u = signed(n1, x);
    let v = signed(n2, y);
    assert((u + v) * p == u * p + v * p) by (nonlinear_arith);
    assert(u * p == signed(n1, x * p)) by {
        assert(n1 ==> (-(x as int)) * p == -((x * p) as int)) by (nonlinear_arith);
    }
    assert(v * p == signed(n2, y * p)) by {
        assert(n2 ==> (-(y as int)) * p == -((y * p) as int)) by (nonlinear_arith);
    }
}

proof fn lemma_sum_scaled(n1: bool, m1: nat, e1: int, n2: bool, m2: nat, e2: int)
    requires
        -900 <= e1 <= 900,
        -900 <= e2 <= 900,
    ensures
        ({
            let e = if e1 >= e2 {
                e2
            } else {
                e1
            };
            signed(n1, m1 * pow2((e1 + 2000) as nat)) + signed(n2, m2 * pow2((e2 + 2000) as nat))
                == exact_sum(n1, m1, e1, n2, m2, e2) * pow2((e + 2000) as nat)
        }),
{
    if e1 >= e2 {
        lemma_power_split(m1, (e1 - e2) as nat, (e2 + 2000) as nat);
        assert((e1 - e2) as nat + (e2 + 2000) as nat == (e1 + 2000) as nat);
        lemma_signed_sum(n1, m1 * pow2((e1 - e2) as nat), n2, m2, pow2((e2 + 2000) as nat));
    } else {
        lemma_power_split(m2, (e2 - e1) as nat, (e1 + 2000) as nat);
        assert((e2 - e1) as nat + (e1 + 2000) as nat == (e2 + 2000) as nat);
        lemma_signed_sum(n1, m1, n2, m2 * pow2((e2 - e1) as nat), pow2((e1 + 2000) as nat));
    }
}

proof fn lemma_sum_size(n1: bool, m1: nat, e1: int, n2: bool, m2: nat, e2: int)
    requires
        m1 < MANTISSA_END,
        m2 < MANTISSA_END,
    ensures
        e1 >= e2 ==> size_of(exact_sum(n1, m1, e1, n2, m2, e2)) < pow2((e1 - e2 + 55) as nat),
        e1 < e2 ==> size_of(exact_sum(n1, m1, e1, n2, m2, e2)) < pow2((e2 - e1 + 55) as nat),
{
    lemma2_to64();
    lemma2_to64_rest();
    let j: nat = if e1 >= e2 {
        (e1 - e2) as nat
    } else {
        (e2 - e1) as nat
    };
    let q = pow2(j);
    lemma_pow2_pos(j);
    lemma_pow2_adds(j, 55);
    assert(m1 * q <= MANTISSA_END * q && m2 * q <= MANTISSA_END * q) by (nonlinear_arith)
        requires
            m1 <= MANTISSA_END,
            m2 <= MANTISSA_END,
    ;
    assert(q * pow2(55) == 4 * (MANTISSA_END * q)) by (nonlinear_arith)
        requires
            pow2(55) == 4 * MANTISSA_END,
    ;
    assert(MANTISSA_END * q >= MANTISSA_END) by (nonlinear_arith)
        requires
            q >= 1,
    ;
}

proof fn lemma_half_even_scaled(n: nat, d: nat, c: nat)
    requires
        d > 0,
        c > 0,
    ensures
        half_even(n * c, d * c) == half_even(n, d),
{
    let q = n as int / d as int;
    let r = n as int % d as int;
    vstd::arithmetic::div_mod::lemma_fundamental_div_mod(n as int, d as int);
    assert(n * c == q * (d * c) + r * c) by (nonlinear_arith)
        requires
            n == d * q + r,
    ;
    assert(0 <= r * c < d * c) by (nonlinear_arith)
        requires
            0 <= r < d,
            c > 0,
    ;
    vstd::arithmetic::div_mod::lemma_fundamental_div_mod_converse(
        (n * c) as int,
        (d * c) as int,
        q,
        r * c,
    );
    assert((2 * r > d <==> 2 * (r * c) > d * c) && (2 * r == d <==> 2 * (r * c) == d * c))
        by (nonlinear_arith)
        requires
            c > 0,
    ;
}

proof fn lemma_equal_roundings(n1: nat, d1: nat, e1: int, n2: nat, d2: nat, e2: int, t: int)
    requires
        d1 > 0,
        d2 > 0,
        MANTISSA_MIN * d1 <= n1 < MANTISSA_END * d1,
        MANTISSA_MIN * d2 <= n2 < MANTISSA_END * d2,
        0 <= e1 + t,
        0 <= e2 + t,
        n1 * d2 * pow2((e1 + t) as nat) == n2 * d1 * pow2((e2 + t) as nat),
        e1 >= e2,
    ensures
        e1 == e2,
        half_even(n1, d1) == half_even(n2, d2),
{
    let x = n1 * d2;
    let y = n2 * d1;
    let q = pow2((e2 + t) as nat);
    lemma_pow2_pos((e2 + t) as nat);
    if e1 > e2 {
        lemma_power_split(x, (e1 - e2) as nat, (e2 + t) as nat);
        assert((e1 - e2) as nat + (e2 + t) as nat == (e1 + t) as nat);
        let z = x * pow2((e1 - e2) as nat);
        assert(z == y) by (nonlinear_arith)
            requires
                z * q == y * q,
                q > 0,
        ;
        vstd::arithmetic::power2::lemma_pow2_unfold((e1 - e2) as nat);
        lemma_pow2_pos((e1 - e2 - 1) as nat);
        assert(z >= 2 * x) by (nonlinear_arith)
            requires
                z == x * pow2((e1 - e2) as nat),
                pow2((e1 - e2) as nat) >= 2,
        ;
        assert(2 * x >= MANTISSA_END * d1 * d2) by (nonlinear_arith)
            requires
                x == n1 * d2,
                n1 >= MANTISSA_MIN * d1,
                MANTISSA_END == 2 * MANTISSA_MIN,
        ;
        assert(y < MANTISSA_END * d1 * d2) by (nonlinear_arith)
            requires
                y == n2 * d1,
                n2 < MANTISSA_END * d2,
                d1 > 0,
        ;
    } else {
        assert(x == y) by (nonlinear_arith)
            requires
                x * q == y * q,
                q > 0,
        ;
        lemma_half_even_scaled(n1, d1, d2);
        lemma_half_even_scaled(n2, d2, d1);
        assert(d1 * d2 == d2 * d1) by (nonlinear_arith);
    }
}

/// Equal fractions give equal quotients.
pub proof fn equal_quotients(a: Double, b: Double, n: Double, d: Double)
    requires
        a.within(900),
        b.within(900),
        n.within(900),
        d.within(900),
        a.is_natural(),
        b.is_natural(),
        n.is_natural(),
        d.is_natural(),
        !b.is_zero(),
        !d.is_zero(),
        scaled(a) * scaled(d) == scaled(n) * scaled(b),
    ensures
        a.spec_div(b) == n.spec_div(d),
{
    let ma = a->Finite_mantissa;
    let mb = b->Finite_mantissa;
    let mn = n->Finite_mantissa;
    let md = d->Finite_mantissa;
    let ea = a->Finite_exponent as int;
    let eb = b->Finite_exponent as int;
    let en = n->Finite_exponent as int;
    let ed = d->Finite_exponent as int;
    lemma_pow2_pos((ea + 2000) as nat);
    lemma_pow2_pos((eb + 2000) as nat);
    lemma_pow2_pos((en + 2000) as nat);
    lemma_pow2_pos((ed + 2000) as nat);
    let pa = pow2((ea + 2000) as nat);
    let pb = pow2((eb + 2000) as nat);
    let pn = pow2((en + 2000) as nat);
    let pd = pow2((ed + 2000) as nat);
    if ma == 0 || mn == 0 {
        assert((ma == 0 <==> (ma * pa) * (md * pd) == 0) && (mn == 0
            <==> (mn * pn) * (mb * pb) == 0))
            by (nonlinear_arith)
            requires
                md > 0,
                mb > 0,
                pa > 0,
                pb > 0,
                pn > 0,
                pd > 0,
                ma >= 0,
                mn >= 0,
        ;
    } else {
        lemma_quotient_bounds(ma, mb);
        lemma_quotient_bounds(mn, md);
        lemma2_to64();
        lemma2_to64_rest();
        let s1: nat = if ma >= mb {
            52
        } else {
            53
        };
        let s2: nat = if mn >= md {
            52
        } else {
            53
        };
        let n1 = ma as nat * pow2(s1);
        let n2 = mn as nat * pow2(s2);
        let e1 = ea - eb - s1;
        let e2 = en - ed - s2;
        let t = eb + ed + 4000;
        lemma_quotient_sides(ma as nat, md as nat, ea, ed, s1, (e1 + t) as nat);
        lemma_quotient_sides(mn as nat, mb as nat, en, eb, s2, (e2 + t) as nat);
        if e1 >= e2 {
            lemma_equal_roundings(n1, mb as nat, e1, n2, md as nat, e2, t);
        } else {
            lemma_equal_roundings(n2, md as nat, e2, n1, mb as nat, e1, t);
        }
    }
}

proof fn lemma_quotient_sides(m: nat, w: nat, e: int, f: int, s: nat, i: nat)
    requires
        -900 <= e <= 900,
        -900 <= f <= 900,
        i == e + f + 4000 - s,
    ensures
        m * pow2(s) * w * pow2(i) == (m * pow2((e + 2000) as nat)) * (w * pow2((f + 2000) as nat)),
{
    lemma_pow2_adds(s, i);
    lemma_pow2_adds((e + 2000) as nat, (f + 2000) as nat);
    assert(s + i == (e + 2000) as nat + (f + 2000) as nat);
    let x = pow2(s);
    let y = pow2(i);
    let g = pow2((e + 2000) as nat);
    let h = pow2((f + 2000) as nat);
    assert(m * x * w * y == (m * w) * (x * y)) by (nonlinear_arith);
    assert((m * g) * (w * h) == (m * w) * (g * h)) by (nonlinear_arith);
}

/// Decimal fractions of moderate integers are in the order of the fractions.
pub proof fn decimals_compare(a: nat, b: nat, n: nat, d: nat)
    requires
        a < MANTISSA_END,
        0 < b < MANTISSA_END,
        n < MANTISSA_END,
        0 < d < MANTISSA_END,
        n * b <= 0x1000_0000_0000,
    ensures
        Double::spec_decimal(a, b).spec_above(n, d) <==> n * b < a * d,
        Double::spec_decimal(a, b).spec_below(n, d) <==> a * d < n * b,
{
    let x = Double::spec_decimal(a, b);
    let y = Double::spec_decimal(n, d);
    near_decimal(a, b);
    near_decimal(n, d);
    lt_is_the_order(x, y);
    lt_is_the_order(y, x);
    if n * b < a * d {
        near_order(x, a, b, 4, y, n, d, 4);
    } else if a * d < n * b {
        near_order(y, n, d, 4, x, a, b, 4);
    } else {
        of_is_close(a);
        of_is_close(b);
        of_is_close(n);
        of_is_close(d);
        Double::lemma_of_within(a as int);
        Double::lemma_of_within(b as int);
        Double::lemma_of_within(n as int);
        Double::lemma_of_within(d as int);
        let u = unit();
        assert((a * u) * (d * u) == (n * u) * (b * u)) by (nonlinear_arith)
            requires
                a * d == n * b,
        ;
        equal_quotients(
            Double::spec_of(a as int),
            Double::spec_of(b as int),
            Double::spec_of(n as int),
            Double::spec_of(d as int),
        );
    }
}

/// Two numbers near fractions that are more than 300 parts in 2^52 apart are in the order
/// of the fractions.
pub proof fn near_order_apart(x: Double, a: nat, b: nat, k: nat, y: Double, n: nat, d: nat, l: nat)
    requires
        x.within(1990),
        y.within(1990),
        near(x, a, b, k),
        near(y, n, d, l),
        k <= 100,
        l <= 100,
        n * b * 0x10_0000_0000_012c < a * d * 0x10_0000_0000_0000,
    ensures
        y.spec_lt(x),
{
    let p = 0x10_0000_0000_0000int;
    let s = unit() as int;
    lemma_unit();
    lt_is_the_order(y, x);
    lemma_natural_scaled(x);
    lemma_natural_scaled(y);
    let vx = scaled(x);
    let vy = scaled(y);
    let nb = (n * b) as int;
    let ad = (a * d) as int;
    assert(nb >= 0 && ad >= 0) by (nonlinear_arith)
        requires
            nb == n * b,
            ad == a * d,
    ;
    if vx <= vy {
        lemma_le((a * s) * (p - k), (vx * b) * p, d as int);
        assert((b * d) * p >= 0) by (nonlinear_arith)
            requires
                p > 0,
        ;
        lemma_le(vx, vy, (b * d) * p);
        lemma_le((vy * d) * p, (n * s) * (p + l), b as int);
        lemma_regroup_order(vx, b as int, p, d as int, vy, a as int, s, p - k, n as int, p + l);
        lemma_cancel(ad * (p - k), nb * (p + l), s);
        assert(ad * (p - k) >= ad * (p - 100) && nb * (p + l) <= nb * (p + 100))
            by (nonlinear_arith)
            requires
                ad >= 0,
                nb >= 0,
                k <= 100,
                l <= 100,
        ;
        assert(ad * (p - 100) == ad * p - 100 * ad) by (nonlinear_arith);
        assert(nb * (p + 100) == nb * p + 100 * nb) by (nonlinear_arith);
    }
}

proof fn lemma_regroup_order(
    x: int,
    b: int,
    p: int,
    d: int,
    y: int,
    a: int,
    s: int,
    f: int,
    n: int,
    g: int,
)
    ensures
        ((x * b) * p) * d == x * ((b * d) * p),
        y * ((b * d) * p) == ((y * d) * p) * b,
        ((a * s) * f) * d == ((a * d) * f) * s,
        ((n * s) * g) * b == ((n * b) * g) * s,
{
    assert(((x * b) * p) * d == x * ((b * d) * p)) by (nonlinear_arith);
    assert(y * ((b * d) * p) == ((y * d) * p) * b) by (nonlinear_arith);
    assert(((a * s) * f) * d == ((a * d) * f) * s) by (nonlinear_arith);
    assert(((n * s) * g) * b == ((n * b) * g) * s) by (nonlinear_arith);
}

/// A number below a threshold is not above a greater one.
pub proof fn below_is_not_above(x: Double, n: nat, d: nat, m: nat, e: nat)
    requires
        x.within(10000),
        n < MANTISSA_END,
        0 < d < MANTISSA_END,
        m < MANTISSA_END,
        0 < e < MANTISSA_END,
        n * e <= m * d,
        n * e <= 0x1000_0000_0000,
    ensures
        x.spec_below(n, d) ==> !x.spec_above(m, e),
        x.spec_above(m, e) ==> x.spec_above(n, d) || n * e == m * d,
{
    Double::lemma_decimal_within(n, d);
    Double::lemma_decimal_within(m, e);
    decimals_compare(m, e, n, d);
    if x.spec_below(n, d) && x.spec_above(m, e) {
        lt_is_transitive(Double::spec_decimal(m, e), x, Double::spec_decimal(n, d));
    }
    if x.spec_above(m, e) && n * e < m * d {
        lt_is_transitive(Double::spec_decimal(n, d), Double::spec_decimal(m, e), x);
    }
}

/// A small integer is converted exactly.
pub proof fn small_is_exact(x: int)
    requires
        size_of(x) < MANTISSA_END,
    ensures
        scaled(Double::spec_of(x)) == x * unit(),
        Double::spec_of(x) is Finite,
        Double::spec_of(x).within(52),
{
    lemma2_to64();
    lemma2_to64_rest();
    nearest_is_close(x, 0, 52);
    Double::lemma_of_within(x);
}

/// The opposite of a number stands for the opposite.
pub proof fn negated_is_exact(x: Double)
    requires
        x is Finite,
    ensures
        x.spec_negated() is Finite,
        scaled(x.spec_negated()) == -scaled(x),
        forall|bound: int| x.within(bound) ==> #[trigger] x.spec_negated().within(bound),
{
    let p = pow2((x->Finite_exponent + 2000) as nat);
    assert(0 * p == 0) by (nonlinear_arith);
}

/// The same size without a sign.
spec fn unsigned(x: Double) -> Double {
    Double::Finite {
        negative: false,
        mantissa: x->Finite_mantissa,
        exponent: x->Finite_exponent,
    }
}

/// A product of finite numbers is off by at most one part in 2^53.
pub proof fn product_is_close(a: Double, b: Double)
    requires
        a.within(900),
        b.within(900),
        a is Finite,
        b is Finite,
    ensures
        a.spec_mul(b) is Finite,
        a.spec_mul(b).within(1854),
        0x20_0000_0000_0000 * size_of(scaled(a) * scaled(b) - scaled(a.spec_mul(b)) * unit())
            <= size_of(scaled(a.spec_mul(b)) * unit()),
{
    let x = unsigned(a);
    let y = unsigned(b);
    let u = unit() as int;
    lemma_unit();
    Double::lemma_mul_within(a, b, 900, 900);
    mul_is_close(x, y);
    lemma_natural_scaled(x);
    lemma_natural_scaled(y);
    let c = x.spec_mul(y);
    Double::lemma_mul_within(x, y, 900, 900);
    lemma_natural_scaled(c);
    let va = scaled(x);
    let vb = scaled(y);
    let vc = scaled(c);
    let z = pow2(2000);
    assert(0 * z == 0) by (nonlinear_arith);
    assert(scaled(a) == va || scaled(a) == -va);
    assert(scaled(b) == vb || scaled(b) == -vb);
    assert(vc * u >= 0) by (nonlinear_arith)
        requires
            vc >= 0,
            u > 0,
    ;
    assert((-va) * vb == -(va * vb) && va * (-vb) == -(va * vb) && (-va) * (-vb) == va * vb && (-vc)
        * u == -(vc * u)) by (nonlinear_arith);
    if a->Finite_mantissa == 0 || b->Finite_mantissa == 0 {
        assert(0 * vb == 0 && va * 0 == 0 && 0 * u == 0) by (nonlinear_arith);
        assert(a->Finite_mantissa == 0 ==> va == 0);
        assert(b->Finite_mantissa == 0 ==> vb == 0);
    } else {
        assert(scaled(a.spec_mul(b))
            == signed(a->Finite_negative != b->Finite_negative, vc as nat));
        assert(scaled(a) == signed(a->Finite_negative, va as nat));
        assert(scaled(b) == signed(b->Finite_negative, vb as nat));
    }
}

pub proof fn lemma_without_unit(x: int, y: int, s: int)
    requires
        0x20_0000_0000_0000 * size_of(x * s) <= size_of(y * s),
        s > 0,
    ensures
        0x20_0000_0000_0000 * size_of(x) <= size_of(y),
{
    assert(size_of(x * s) == size_of(x) * s && size_of(y * s) == size_of(y) * s)
        by (nonlinear_arith)
        requires
            s > 0,
    ;
    let a = 0x20_0000_0000_0000 * size_of(x);
    let b = size_of(y) as int;
    assert(a * s == 0x20_0000_0000_0000 * (size_of(x) * s)) by (nonlinear_arith)
        requires
            a == 0x20_0000_0000_0000 * size_of(x),
    ;
    assert(a <= b) by (nonlinear_arith)
        requires
            a * s <= b * s,
            s > 0,
    ;
}

/// A quotient of finite numbers is off by at most one part in 2^53.
pub proof fn quotient_is_close(a: Double, b: Double)
    requires
        a.within(900),
        b.within(900),
        a is Finite,
        b is Finite,
        !b.is_zero(),
    ensures
        a.spec_div(b) is Finite,
        0x20_0000_0000_0000 * size_of(scaled(a) * unit() - scaled(a.spec_div(b)) * scaled(b))
            <= size_of(scaled(a.spec_div(b)) * scaled(b)),
{
    let x = unsigned(a);
    let y = unsigned(b);
    let u = unit() as int;
    lemma_unit();
    div_is_close(x, y);
    Double::lemma_div_within(x, y, 900, 900);
    lemma_natural_scaled(x);
    lemma_natural_scaled(y);
    let c = x.spec_div(y);
    lemma_natural_scaled(c);
    let va = scaled(x);
    let vb = scaled(y);
    let vc = scaled(c);
    let z = pow2(2000);
    assert(0 * z == 0) by (nonlinear_arith);
    assert(vc * vb >= 0) by (nonlinear_arith)
        requires
            vc >= 0,
            vb >= 0,
    ;
    assert((-va) * u == -(va * u) && (-vc) * vb == -(vc * vb) && vc * (-vb) == -(vc * vb) && (-vc)
        * (-vb) == vc * vb) by (nonlinear_arith);
    assert(scaled(b) == if b->Finite_negative { -vb } else { vb });
    if a->Finite_mantissa == 0 {
        assert(0 * vb == 0 && 0 * (-vb) == 0 && 0 * u == 0) by (nonlinear_arith);
    } else {
        assert(scaled(a) == if a->Finite_negative { -va } else { va });
        assert(scaled(a.spec_div(b)) == if a->Finite_negative != b->Finite_negative {
            -vc
        } else {
            vc
        });
    }
}

/// An infinite number lies above every threshold, or below every one, and what is no number
/// lies on neither side of any.
pub proof fn infinite_is_extreme(n: nat, d: nat)
    requires
        n <= u64::MAX,
        0 < d <= u64::MAX,
    ensures
        (Double::Infinite { negative: false }).spec_above(n, d),
        !(Double::Infinite { negative: false }).spec_below(n, d),
        (Double::Infinite { negative: true }).spec_below(n, d),
        !(Double::Infinite { negative: true }).spec_above(n, d),
        !Double::NotANumber.spec_above(n, d),
        !Double::NotANumber.spec_below(n, d),
{
    near_decimal(n, d);
}

/// An integer up to 2^53 is converted exactly.
pub proof fn count_is_exact(x: nat)
    requires
        x <= MANTISSA_END,
    ensures
        scaled(Double::spec_of(x as int)) == x * unit(),
        Double::spec_of(x as int).is_natural(),
        Double::spec_of(x as int).within(52),
        x > 0 ==> !Double::spec_of(x as int).is_zero(),
{
    Double::lemma_of_within(x as int);
    if x < MANTISSA_END {
        small_is_exact(x as int);
    } else {
        let y = 0x20_0000_0000_0000nat;
        assert(half_even(y, 2) == 0x10_0000_0000_0000nat);
        assert(scaled_down(false, y, 1, 0) == carried(false, half_even(y, 2), 1)) by {
            reveal_with_fuel(scaled_down, 2);
        }
        let p = pow2(2000);
        vstd::arithmetic::power2::lemma_pow2_unfold(2001);
        assert(0x10_0000_0000_0000nat * (2 * p) == 0x20_0000_0000_0000nat * p) by (nonlinear_arith);
    }
}

} // verus!
