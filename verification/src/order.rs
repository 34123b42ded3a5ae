//! The order of doubles, and the operations that keep it.
use vstd::arithmetic::power2::{
    lemma2_to64, lemma_pow2_adds, lemma_pow2_pos, lemma_pow2_unfold, pow2,
};
use vstd::prelude::*;

use crate::addition::lemma_scaled_down_to;
use crate::double::{
    carried, half_even, lemma_half_even_range, lemma_product_bounds, lemma_quotient_bounds,
    lemma_smaller, scaled_up, Double, MANTISSA_END, MANTISSA_MIN,
};

verus! {

impl Double {
    /// Whether the first number is at most the second; false when either is not a
    /// number.
    pub open spec fn spec_le(self, other: Double) -> bool {
        self.spec_lt(other) || (self == other && !(self is NotANumber))
    }
}

/// The mantissa of a finite number.
spec fn mantissa_of(a: Double) -> nat {
    a->Finite_mantissa as nat
}

/// The exponent of a finite number.
spec fn exponent_of(a: Double) -> int {
    a->Finite_exponent as int
}

/// The order of two nonnegative numbers, by their exponents and mantissas.
spec fn natural_le(a: Double, b: Double) -> bool {
    ||| mantissa_of(a) == 0
    ||| mantissa_of(b) != 0 && (exponent_of(a) < exponent_of(b) || (exponent_of(a) == exponent_of(b)
        && mantissa_of(a) <= mantissa_of(b)))
}

proof fn lemma_natural_le(a: Double, b: Double)
    requires
        a.within(10000),
        b.within(10000),
        a.is_natural(),
        b.is_natural(),
    ensures
        a.spec_le(b) <==> natural_le(a, b),
{
    lemma_smaller(
        a->Finite_mantissa,
        a->Finite_exponent as int,
        b->Finite_mantissa,
        b->Finite_exponent as int,
    );
}

/// The order of numbers is transitive.
pub proof fn lt_is_transitive(a: Double, b: Double, c: Double)
    requires
        a.within(10000),
        b.within(10000),
        c.within(10000),
        a.spec_lt(b),
        b.spec_lt(c),
    ensures
        a.spec_lt(c),
{
    match (a, b, c) {
        (
            Double::Finite { mantissa: m1, exponent: e1, .. },
            Double::Finite { mantissa: m2, exponent: e2, .. },
            Double::Finite { mantissa: m3, exponent: e3, .. },
        ) => {
            lemma_smaller(m1, e1 as int, m2, e2 as int);
            lemma_smaller(m2, e2 as int, m3, e3 as int);
            lemma_smaller(m1, e1 as int, m3, e3 as int);
            lemma_smaller(m2, e2 as int, m1, e1 as int);
            lemma_smaller(m3, e3 as int, m2, e2 as int);
            lemma_smaller(m3, e3 as int, m1, e1 as int);
        },
        _ => {},
    }
}

/// A number that is no less than one above a threshold is above it too.
pub proof fn above_is_monotone(a: Double, b: Double, n: nat, d: nat)
    requires
        a.within(10000),
        b.within(10000),
        a.spec_le(b),
        n <= u64::MAX,
        0 < d <= u64::MAX,
    ensures
        a.spec_above(n, d) ==> b.spec_above(n, d),
{
    Double::lemma_decimal_within(n, d);
    if a.spec_above(n, d) && a.spec_lt(b) {
        lt_is_transitive(Double::spec_decimal(n, d), a, b);
    }
}

/// Rounding keeps the order.
pub proof fn half_even_is_monotone(n1: nat, n2: nat, d: nat)
    requires
        d > 0,
        n1 <= n2,
    ensures
        half_even(n1, d) <= half_even(n2, d),
{
    vstd::arithmetic::div_mod::lemma_div_is_ordered(n1 as int, n2 as int, d as int);
    vstd::arithmetic::div_mod::lemma_fundamental_div_mod(n1 as int, d as int);
    vstd::arithmetic::div_mod::lemma_fundamental_div_mod(n2 as int, d as int);
}

proof fn lemma_half_even_doubled(n: nat, d: nat)
    requires
        d > 0,
    ensures
        half_even(2 * n, 2 * d) == half_even(n, d),
{
    let q = (n / d) as int;
    let r = (n % d) as int;
    vstd::arithmetic::div_mod::lemma_fundamental_div_mod(n as int, d as int);
    assert(2 * n == q * (2 * d) + 2 * r) by (nonlinear_arith)
        requires
            n == d * q + r,
    ;
    vstd::arithmetic::div_mod::lemma_fundamental_div_mod_converse(
        2 * n as int,
        2 * d as int,
        q,
        2 * r,
    );
}

proof fn lemma_carried_order(m1: nat, e1: int, m2: nat, e2: int)
    requires
        MANTISSA_MIN <= m1 <= MANTISSA_END,
        MANTISSA_MIN <= m2 <= MANTISSA_END,
        -9999 <= e1 <= 9999,
        -9999 <= e2 <= 9999,
        e1 < e2 || (e1 == e2 && m1 <= m2),
    ensures
        natural_le(carried(false, m1, e1), carried(false, m2, e2)),
{
}

/// The position of the leading bit.
pub proof fn lemma_leading_bit(x: nat) -> (k: nat)
    requires
        x > 0,
    ensures
        pow2(k) <= x < pow2(k + 1),
    decreases x,
{
    lemma2_to64();
    if x == 1 {
        0
    } else {
        let k = lemma_leading_bit(x / 2);
        lemma_pow2_unfold(k + 1);
        lemma_pow2_unfold(k + 2);
        k + 1
    }
}

pub proof fn lemma_scaled_up_to(negative: bool, m: nat, e: int, k: nat)
    requires
        k <= 52,
        pow2(k) <= m < pow2(k + 1),
    ensures
        scaled_up(negative, m, e) == (Double::Finite {
            negative,
            mantissa: (m * pow2((52 - k) as nat)) as u64,
            exponent: (e - (52 - k)) as i32,
        }),
    decreases 52 - k,
{
    lemma2_to64();
    vstd::arithmetic::power2::lemma2_to64_rest();
    lemma_pow2_pos(k);
    if k < 52 {
        if k + 1 < 52 {
            vstd::arithmetic::power2::lemma_pow2_strictly_increases(k + 1, 52);
        }
        lemma_pow2_unfold(k + 1);
        lemma_pow2_unfold(k + 2);
        lemma_pow2_unfold((52 - k) as nat);
        let p = pow2((51 - k) as nat);
        assert(m * (2 * p) == (2 * m) * p) by (nonlinear_arith);
        lemma_scaled_up_to(negative, 2 * m, e - 1, k + 1);
    } else {
        assert(m * pow2(0) == m) by (nonlinear_arith)
            requires
                pow2(0) == 1,
        ;
    }
}

/// The double nearest to an integer with its leading bit at `k`.
pub proof fn lemma_of_shape(x: nat, k: nat)
    requires
        k < 64,
        pow2(k) <= x < pow2(k + 1),
    ensures
        k <= 52 ==> Double::spec_of(x as int) == (Double::Finite {
            negative: false,
            mantissa: (x * pow2((52 - k) as nat)) as u64,
            exponent: (k - 52) as i32,
        }),
        k <= 52 ==> MANTISSA_MIN <= x * pow2((52 - k) as nat) < MANTISSA_END,
        k > 52 ==> Double::spec_of(x as int) == carried(
            false,
            half_even(x, pow2((k - 52) as nat)),
            k - 52,
        ),
        k > 52 ==> MANTISSA_MIN <= half_even(x, pow2((k - 52) as nat)) <= MANTISSA_END,
{
    lemma2_to64();
    vstd::arithmetic::power2::lemma2_to64_rest();
    lemma_pow2_pos(k);
    if k <= 52 {
        if k + 1 < 53 {
            vstd::arithmetic::power2::lemma_pow2_strictly_increases(k + 1, 53);
        }
        lemma_scaled_up_to(false, x, 0, k);
        let c = pow2((52 - k) as nat);
        lemma_pow2_adds(k, (52 - k) as nat);
        lemma_pow2_adds(k + 1, (52 - k) as nat);
        assert(pow2(k) * c <= x * c < pow2(k + 1) * c) by (nonlinear_arith)
            requires
                pow2(k) <= x < pow2(k + 1),
                c > 0,
        ;
    } else {
        let j = (k - 52) as nat;
        if k > 53 {
            vstd::arithmetic::power2::lemma_pow2_strictly_increases(53, k);
        }
        lemma_pow2_adds(53, (j - 1) as nat);
        lemma_pow2_adds(53, j);
        lemma_pow2_adds(52, j);
        lemma_scaled_down_to(false, x, 0, j, 0);
        lemma_pow2_pos(j);
        lemma_half_even_range(x, pow2(j));
    }
}

/// Conversion keeps the order.
pub proof fn of_is_monotone(x: nat, y: nat)
    requires
        x <= y <= u64::MAX,
    ensures
        Double::spec_of(x as int).spec_le(Double::spec_of(y as int)),
{
    let a = Double::spec_of(x as int);
    let b = Double::spec_of(y as int);
    Double::lemma_of_within(x as int);
    Double::lemma_of_within(y as int);
    lemma_natural_le(a, b);
    if x > 0 {
        lemma2_to64();
        vstd::arithmetic::power2::lemma2_to64_rest();
        let k = lemma_leading_bit(x);
        let l = lemma_leading_bit(y);
        if l >= 64 {
            if l > 64 {
                vstd::arithmetic::power2::lemma_pow2_strictly_increases(64, l);
            }
        }
        if k > l {
            if k > l + 1 {
                vstd::arithmetic::power2::lemma_pow2_strictly_increases(l + 1, k);
            }
        }
        assert(k <= l < 64);
        lemma_of_shape(x, k);
        lemma_of_shape(y, l);
        if k == l && k <= 52 {
            let c = pow2((52 - k) as nat);
            assert(x * c <= y * c) by (nonlinear_arith)
                requires
                    x <= y,
            ;
        } else if k == l {
            let d = pow2((k - 52) as nat);
            lemma_pow2_pos((k - 52) as nat);
            half_even_is_monotone(x, y, d);
            lemma_carried_order(half_even(x, d), k - 52, half_even(y, d), l - 52);
        } else if l > 52 && k > 52 {
            lemma_carried_order(
                half_even(x, pow2((k - 52) as nat)),
                k - 52,
                half_even(y, pow2((l - 52) as nat)),
                l - 52,
            );
        }
    }
}

/// A fraction of two integers with the same leading bit.
pub proof fn lemma_decimal_shape(n: nat, d: nat, k: nat)
    requires
        k <= 52,
        pow2(k) <= d <= n < pow2(k + 1),
    ensures
        Double::spec_decimal(n, d) == carried(
            false,
            half_even(n * pow2((52 - k) as nat) * MANTISSA_MIN as nat, d * pow2((52 - k) as nat)),
            -52,
        ),
{
    let c = pow2((52 - k) as nat);
    lemma_of_shape(n, k);
    lemma_of_shape(d, k);
    assert(d * c <= n * c) by (nonlinear_arith)
        requires
            d <= n,
    ;
}

/// Numbers with one exponent are in the order of their mantissas.
pub proof fn lemma_mantissa_order(m1: nat, m2: nat, e: int)
    requires
        MANTISSA_MIN <= m1 <= m2 < MANTISSA_END,
        -9999 <= e <= 9999,
    ensures
        carried(false, m1, e).spec_le(carried(false, m2, e)),
{
    lemma_natural_le(carried(false, m1, e), carried(false, m2, e));
}

proof fn lemma_products(m1: u64, e1: int, m2: u64, e2: int, m: u64)
    requires
        MANTISSA_MIN <= m1 < MANTISSA_END,
        MANTISSA_MIN <= m2 < MANTISSA_END,
        MANTISSA_MIN <= m < MANTISSA_END,
        e1 < e2 || (e1 == e2 && m1 <= m2),
    ensures
        e1 == e2 ==> m1 * m <= m2 * m,
        m1 * m <= 2 * (m2 * m),
        MANTISSA_MIN * MANTISSA_MIN <= m1 * m < MANTISSA_END * MANTISSA_END,
        MANTISSA_MIN * MANTISSA_MIN <= m2 * m < MANTISSA_END * MANTISSA_END,
{
    lemma_product_bounds(m1, m);
    lemma_product_bounds(m2, m);
    if e1 == e2 {
        assert(m1 * m <= m2 * m) by (nonlinear_arith)
            requires
                m1 <= m2,
        ;
    }
    assert(m1 * m <= 2 * (m2 * m)) by (nonlinear_arith)
        requires
            m1 <= 2 * m2,
            m >= 0,
    ;
}

/// The product of two mantissas, rounded to one, before a carry: the rounded mantissa
/// and the power of two that is taken out.
spec fn product_parts(p: nat) -> (nat, int) {
    if p >= MANTISSA_MIN * MANTISSA_END {
        (half_even(p, MANTISSA_END as nat), 53)
    } else {
        (half_even(p, MANTISSA_MIN as nat), 52)
    }
}

proof fn lemma_product_parts(p: nat)
    requires
        MANTISSA_MIN * MANTISSA_MIN <= p < MANTISSA_END * MANTISSA_END,
    ensures
        MANTISSA_MIN <= product_parts(p).0 <= MANTISSA_END,
{
    if p >= MANTISSA_MIN * MANTISSA_END {
        lemma_half_even_range(p, MANTISSA_END as nat);
    } else {
        lemma_half_even_range(p, MANTISSA_MIN as nat);
    }
}

/// Multiplication by a number that is not negative keeps the order.
pub proof fn mul_is_monotone(a: Double, b: Double, c: Double)
    requires
        a.within(4000),
        b.within(4000),
        c.within(4000),
        a.is_natural(),
        b.is_natural(),
        c.is_natural(),
        a.spec_le(b),
    ensures
        a.spec_mul(c).spec_le(b.spec_mul(c)),
{
    Double::lemma_mul_within(a, c, 4000, 4000);
    Double::lemma_mul_within(b, c, 4000, 4000);
    lemma_natural_le(a, b);
    lemma_natural_le(a.spec_mul(c), b.spec_mul(c));
    let m1 = a->Finite_mantissa;
    let m2 = b->Finite_mantissa;
    let m = c->Finite_mantissa;
    if m1 != 0 && m != 0 {
        let e1 = exponent_of(a);
        let e2 = exponent_of(b);
        let e = exponent_of(c);
        lemma_products(m1, e1, m2, e2, m);
        let p1 = (m1 * m) as nat;
        let p2 = (m2 * m) as nat;
        lemma_product_parts(p1);
        lemma_product_parts(p2);
        let (h1, s1) = product_parts(p1);
        let (h2, s2) = product_parts(p2);
        assert(a.spec_mul(c) == carried(false, h1, e1 + e + s1));
        assert(b.spec_mul(c) == carried(false, h2, e2 + e + s2));
        if e1 + s1 < e2 + s2 {
            lemma_carried_order(h1, e1 + e + s1, h2, e2 + e + s2);
        } else if s1 == s2 {
            half_even_is_monotone(
                p1,
                p2,
                if s1 == 53 {
                    MANTISSA_END as nat
                } else {
                    MANTISSA_MIN as nat
                },
            );
            lemma_carried_order(h1, e1 + e + s1, h2, e2 + e + s2);
        } else {
            assert(e2 == e1 + 1 && s1 == 53 && s2 == 52);
            lemma_half_even_doubled(p2, MANTISSA_MIN as nat);
            half_even_is_monotone(p1, 2 * p2, MANTISSA_END as nat);
            lemma_carried_order(h1, e1 + e + s1, h2, e2 + e + s2);
        }
    }
}

/// The order of the factors does not matter.
pub proof fn mul_commutes(a: Double, b: Double)
    ensures
        a.spec_mul(b) == b.spec_mul(a),
{
    if let (Double::Finite { mantissa: m1, .. }, Double::Finite { mantissa: m2, .. }) = (a, b) {
        assert(m1 * m2 == m2 * m1) by (nonlinear_arith);
    }
}

/// The quotient of two mantissas, rounded to one, before a carry: the rounded mantissa
/// and the power of two that is taken out.
spec fn quotient_parts(n: nat, d: nat) -> (nat, int) {
    if n >= d {
        (half_even(n * MANTISSA_MIN as nat, d), -52)
    } else {
        (half_even(n * MANTISSA_END as nat, d), -53)
    }
}

/// Division by a positive number keeps the order.
pub proof fn div_is_monotone(a: Double, b: Double, c: Double)
    requires
        a.within(4000),
        b.within(4000),
        c.within(4000),
        a.is_natural(),
        b.is_natural(),
        c.is_natural(),
        !c.is_zero(),
        a.spec_le(b),
    ensures
        a.spec_div(c).spec_le(b.spec_div(c)),
{
    Double::lemma_div_within(a, c, 4000, 4000);
    Double::lemma_div_within(b, c, 4000, 4000);
    lemma_natural_le(a, b);
    lemma_natural_le(a.spec_div(c), b.spec_div(c));
    let m1 = a->Finite_mantissa;
    let m2 = b->Finite_mantissa;
    let m = c->Finite_mantissa;
    if m1 != 0 {
        let e1 = exponent_of(a);
        let e2 = exponent_of(b);
        let e = exponent_of(c);
        lemma_quotient_bounds(m1, m);
        lemma_quotient_bounds(m2, m);
        let (h1, s1) = quotient_parts(m1 as nat, m as nat);
        let (h2, s2) = quotient_parts(m2 as nat, m as nat);
        if m1 >= m {
            lemma_half_even_range((m1 * MANTISSA_MIN) as nat, m as nat);
        } else {
            lemma_half_even_range((m1 * MANTISSA_END) as nat, m as nat);
        }
        if m2 >= m {
            lemma_half_even_range((m2 * MANTISSA_MIN) as nat, m as nat);
        } else {
            lemma_half_even_range((m2 * MANTISSA_END) as nat, m as nat);
        }
        assert(a.spec_div(c) == carried(false, h1, e1 - e + s1));
        assert(b.spec_div(c) == carried(false, h2, e2 - e + s2));
        if e1 + s1 < e2 + s2 {
        } else if s1 == s2 && s1 == -52 {
            half_even_is_monotone(
                (m1 * MANTISSA_MIN) as nat,
                (m2 * MANTISSA_MIN) as nat,
                m as nat,
            );
        } else if s1 == s2 {
            half_even_is_monotone(
                (m1 * MANTISSA_END) as nat,
                (m2 * MANTISSA_END) as nat,
                m as nat,
            );
        } else {
            assert(e2 == e1 + 1 && s1 == -52 && s2 == -53);
            half_even_is_monotone(
                (m1 * MANTISSA_MIN) as nat,
                (m2 * MANTISSA_END) as nat,
                m as nat,
            );
        }
        lemma_carried_order(h1, e1 - e + s1, h2, e2 - e + s2);
    }
}

/// The least integer that is not below `m * 2^e`.
spec fn least_above(m: nat, e: int) -> nat {
    if e >= 0 {
        m * pow2(e as nat)
    } else {
        ((m + pow2((-e) as nat) - 1) as nat) / pow2((-e) as nat)
    }
}

/// The greatest integer that is not above `m * 2^e`.
spec fn greatest_below(m: nat, e: int) -> nat {
    if e >= 0 {
        m * pow2(e as nat)
    } else {
        m / pow2((-e) as nat)
    }
}

proof fn lemma_same_exponent(m1: nat, m2: nat, e: int)
    requires
        m1 <= m2,
    ensures
        least_above(m1, e) <= least_above(m2, e),
        greatest_below(m1, e) <= greatest_below(m2, e),
{
    if e >= 0 {
        assert(m1 * pow2(e as nat) <= m2 * pow2(e as nat)) by (nonlinear_arith)
            requires
                m1 <= m2,
        ;
    } else {
        let d = pow2((-e) as nat) as int;
        lemma_pow2_pos((-e) as nat);
        vstd::arithmetic::div_mod::lemma_div_is_ordered(m1 + d - 1, m2 + d - 1, d);
        vstd::arithmetic::div_mod::lemma_div_is_ordered(m1 as int, m2 as int, d);
    }
}

proof fn lemma_doubled_mantissa(m: nat, e: int)
    ensures
        least_above(2 * m, e) == least_above(m, e + 1),
        greatest_below(2 * m, e) == greatest_below(m, e + 1),
{
    lemma2_to64();
    if e >= 0 {
        lemma_pow2_unfold((e + 1) as nat);
        assert((2 * m) * pow2(e as nat) == m * (2 * pow2(e as nat))) by (nonlinear_arith);
    } else {
        let d = pow2((-e) as nat) as int;
        let h = pow2((-e - 1) as nat) as int;
        lemma_pow2_unfold((-e) as nat);
        lemma_pow2_pos((-e - 1) as nat);
        assert(d == 2 * h);
        let q = m as int / h;
        let r = m as int % h;
        vstd::arithmetic::div_mod::lemma_fundamental_div_mod(m as int, h);
        assert(2 * m == q * d + 2 * r) by (nonlinear_arith)
            requires
                m == h * q + r,
                d == 2 * h,
        ;
        vstd::arithmetic::div_mod::lemma_fundamental_div_mod_converse(2 * m as int, d, q, 2 * r);
        if r == 0 {
            vstd::arithmetic::div_mod::lemma_fundamental_div_mod_converse(
                2 * m + d - 1,
                d,
                q,
                d - 1,
            );
            assert(m + h - 1 == q * h + (h - 1)) by (nonlinear_arith)
                requires
                    m == h * q,
            ;
            vstd::arithmetic::div_mod::lemma_fundamental_div_mod_converse(m + h - 1, h, q, h - 1);
        } else {
            assert(2 * m + d - 1 == (q + 1) * d + (2 * r - 1)) by (nonlinear_arith)
                requires
                    2 * m == q * d + 2 * r,
            ;
            vstd::arithmetic::div_mod::lemma_fundamental_div_mod_converse(
                2 * m + d - 1,
                d,
                q + 1,
                2 * r - 1,
            );
            assert(m + h - 1 == (q + 1) * h + (r - 1)) by (nonlinear_arith)
                requires
                    m == h * q + r,
            ;
            vstd::arithmetic::div_mod::lemma_fundamental_div_mod_converse(
                m + h - 1,
                h,
                q + 1,
                r - 1,
            );
        }
        if e == -1 {
            assert(h == 1);
            assert(m * pow2(0) == m) by (nonlinear_arith)
                requires
                    pow2(0) == 1,
            ;
        }
    }
}

proof fn lemma_greater_exponent(m1: nat, e1: int, m2: nat, e2: int)
    requires
        e1 < e2,
        m1 <= MANTISSA_END,
        MANTISSA_MIN <= m2,
    ensures
        least_above(m1, e1) <= least_above(m2, e2),
        greatest_below(m1, e1) <= greatest_below(m2, e2),
    decreases e2 - e1,
{
    let m = MANTISSA_MIN as nat;
    lemma_same_exponent(m1, 2 * m, e1);
    lemma_doubled_mantissa(m, e1);
    if e1 + 1 == e2 {
        lemma_same_exponent(m, m2, e2);
    } else {
        lemma_greater_exponent(m, e1 + 1, m2, e2);
    }
}

/// Rounding to an integer, upwards or downwards, keeps the order.
pub proof fn whole_part_is_monotone(a: Double, b: Double)
    requires
        a.within(10000),
        b.within(10000),
        a.is_natural(),
        b.is_natural(),
        a.spec_le(b),
    ensures
        a.spec_ceil() <= b.spec_ceil(),
        a.spec_floor() <= b.spec_floor(),
{
    lemma_natural_le(a, b);
    let m1 = mantissa_of(a);
    let m2 = mantissa_of(b);
    let e1 = exponent_of(a);
    let e2 = exponent_of(b);
    assert(a.spec_ceil() == least_above(m1, e1));
    assert(b.spec_ceil() == least_above(m2, e2));
    assert(a.spec_floor() == greatest_below(m1, e1));
    assert(b.spec_floor() == greatest_below(m2, e2));
    if m1 == 0 {
        assert(0 * pow2(0) == 0) by (nonlinear_arith);
    } else if e1 == e2 {
        lemma_same_exponent(m1, m2, e1);
    } else {
        lemma_greater_exponent(m1, e1, m2, e2);
    }
}

} // verus!
