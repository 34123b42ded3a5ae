//! Double-precision arithmetic on integers.
//!
//! The choice of an index compares quotients and products of the cost factors
//! with decimal thresholds, and the outcome near a threshold depends on how
//! each operation rounds. `Double` carries out the IEEE 754 binary64
//! operations that the choice needs, round to nearest with ties to even, on a
//! 53-bit mantissa and an exponent. Exponents stay far inside the range of the
//! format here, so that no operation overflows or loses precision to a
//! subnormal result.
use vstd::arithmetic::power2::{lemma_pow2_adds, lemma_pow2_pos, lemma_pow2_unfold, pow2};
use vstd::prelude::*;

verus! {

/// The least normalized mantissa, 2^52.
pub const MANTISSA_MIN: u64 = 0x10_0000_0000_0000;

/// The first integer past the mantissas, 2^53.
pub const MANTISSA_END: u64 = 0x20_0000_0000_0000;

/// A binary64 number. A finite one stands for `mantissa * 2^exponent`, negated
/// when `negative` is set. The sign of a zero is not kept: nothing here
/// observes it.
#[derive(Clone, Copy, Debug, PartialEq, Eq, Structural)]
pub enum Double {
    NotANumber,
    Infinite { negative: bool },
    Finite { negative: bool, mantissa: u64, exponent: i32 },
}

/// The integer nearest to `n / d`; of two equally near ones, the even one.
pub open spec fn half_even(n: nat, d: nat) -> nat {
    let q = n / d;
    let r = n % d;
    if 2 * r > d || (2 * r == d && q % 2 == 1) {
        q + 1
    } else {
        q
    }
}

/// The number `m * 2^e` for a rounded mantissa `m`, which may have reached 2^53.
pub open spec fn carried(negative: bool, m: nat, e: int) -> Double {
    if m == MANTISSA_END {
        Double::Finite { negative, mantissa: MANTISSA_MIN, exponent: (e + 1) as i32 }
    } else {
        Double::Finite { negative, mantissa: m as u64, exponent: e as i32 }
    }
}

/// `m * 2^e` with `0 < m < 2^53`, brought to a normalized mantissa.
pub open spec fn scaled_up(negative: bool, m: nat, e: int) -> Double
    decreases MANTISSA_END - m,
{
    if m == 0 || m >= MANTISSA_MIN {
        Double::Finite { negative, mantissa: m as u64, exponent: e as i32 }
    } else {
        scaled_up(negative, 2 * m, e - 1)
    }
}

/// `n / d * 2^e` with `n >= 2^52 * d`, rounded to a normalized mantissa.
pub open spec fn scaled_down(negative: bool, n: nat, d: nat, e: int) -> Double
    decreases n - d,
{
    if d == 0 || n < MANTISSA_END * d {
        carried(negative, half_even(n, d), e)
    } else {
        scaled_down(negative, n, 2 * d, e + 1)
    }
}

/// The double nearest to `x * 2^e`.
pub open spec fn nearest(x: int, e: int) -> Double {
    let negative = x < 0;
    let a: nat = if x < 0 { -x as nat } else { x as nat };
    if a == 0 {
        Double::zero()
    } else if a < MANTISSA_END {
        scaled_up(negative, a, e)
    } else {
        scaled_down(negative, a, 1, e)
    }
}

/// Whether `m1 * 2^e1 < m2 * 2^e2`.
pub open spec fn smaller(m1: nat, e1: int, m2: nat, e2: int) -> bool {
    if e1 >= e2 {
        m1 * pow2((e1 - e2) as nat) < m2
    } else {
        m1 < m2 * pow2((e2 - e1) as nat)
    }
}

/// Rounding to nearest is off by at most half a unit, and no integer is nearer.
pub proof fn half_even_is_nearest(n: nat, d: nat, k: nat)
    requires
        d > 0,
    ensures
        -(d as int) <= 2 * (n - d * half_even(n, d)) <= d,
        (if n >= d * half_even(n, d) { n - d * half_even(n, d) } else { d * half_even(n, d) - n })
            <= (if n >= d * k { n - d * k } else { d * k - n }),
{
    let q = n / d;
    let r = n % d;
    vstd::arithmetic::div_mod::lemma_fundamental_div_mod(n as int, d as int);
    assert(d * (q + 1) == d * q + d) by (nonlinear_arith);
    let h = half_even(n, d);
    if k < q {
        assert(d * k <= d * q - d) by (nonlinear_arith)
            requires
                k + 1 <= q,
        ;
    } else if k > q + 1 {
        assert(d * k >= d * q + d) by (nonlinear_arith)
            requires
                k >= q + 1,
        ;
    }
}

/// Of two integers that are equally near, rounding takes the even one.
pub proof fn ties_go_to_even(n: nat, d: nat, k: nat)
    requires
        d > 0,
        2 * n == d * (2 * k + 1),
    ensures
        half_even(n, d) % 2 == 0,
        half_even(n, d) == k || half_even(n, d) == k + 1,
{
    half_even_is_nearest(n, d, k);
    let q = n / d;
    let r = n % d;
    vstd::arithmetic::div_mod::lemma_fundamental_div_mod(n as int, d as int);
    assert(d * (2 * k + 1) == 2 * (d * k) + d) by (nonlinear_arith);
    assert(q == k) by (nonlinear_arith)
        requires
            2 * (d * q + r) == 2 * (d * k) + d,
            0 <= r < d,
    ;
}

pub proof fn lemma_half_even_range(n: nat, d: nat)
    requires
        d > 0,
        MANTISSA_MIN * d <= n < MANTISSA_END * d,
    ensures
        MANTISSA_MIN <= half_even(n, d) <= MANTISSA_END,
{
    let q = n / d;
    vstd::arithmetic::div_mod::lemma_fundamental_div_mod(n as int, d as int);
    assert(MANTISSA_MIN <= q) by (nonlinear_arith)
        requires
            n == d * q + n % d,
            n % d < d,
            MANTISSA_MIN * d <= n,
            d > 0,
    ;
    assert(q < MANTISSA_END) by (nonlinear_arith)
        requires
            n == d * q + n % d,
            0 <= n % d,
            n < MANTISSA_END * d,
            d > 0,
    ;
}

pub proof fn lemma_scaled_up_shape(negative: bool, m: nat, e: int, j: nat)
    requires
        0 < m < MANTISSA_END,
        m * pow2(j) >= MANTISSA_MIN,
        -1000000 <= e - j,
        e <= 1000000,
    ensures
        scaled_up(negative, m, e) matches Double::Finite { negative: n, mantissa, exponent } && {
            &&& n == negative
            &&& MANTISSA_MIN <= mantissa < MANTISSA_END
            &&& e - j <= exponent <= e
        },
    decreases j,
{
    if m < MANTISSA_MIN {
        if j == 0 {
            vstd::arithmetic::power2::lemma2_to64();
        } else {
            lemma_pow2_unfold(j);
            let p = pow2((j - 1) as nat);
            assert(m * (2 * p) == (2 * m) * p) by (nonlinear_arith);
            lemma_scaled_up_shape(negative, 2 * m, e - 1, (j - 1) as nat);
        }
    }
}

pub proof fn lemma_scaled_down_shape(negative: bool, n: nat, d: nat, e: int, j: nat)
    requires
        d > 0,
        MANTISSA_MIN * d <= n,
        n < MANTISSA_END * (d * pow2(j)),
        -1000000 <= e,
        e + j <= 1000000,
    ensures
        scaled_down(negative, n, d, e) matches Double::Finite { negative: g, mantissa, exponent }
            && {
            &&& g == negative
            &&& MANTISSA_MIN <= mantissa < MANTISSA_END
            &&& e <= exponent <= e + j + 1
        },
    decreases j,
{
    if n < MANTISSA_END * d {
        lemma_half_even_range(n, d);
    } else if j == 0 {
        vstd::arithmetic::power2::lemma2_to64();
    } else {
        lemma_pow2_unfold(j);
        let p = pow2((j - 1) as nat);
        assert(d * (2 * p) == (2 * d) * p) by (nonlinear_arith);
        lemma_scaled_down_shape(negative, n, 2 * d, e + 1, (j - 1) as nat);
    }
}

/// Rounds `n / d` to the nearest integer, ties to even.
fn round_half_even(n: u128, d: u128) -> (q: u64)
    requires
        0 < d <= 0x4000_0000_0000_0000_0000,
        MANTISSA_MIN * d <= n < MANTISSA_END * d,
    ensures
        q == half_even(n as nat, d as nat),
        MANTISSA_MIN <= q <= MANTISSA_END,
{
    proof {
        lemma_half_even_range(n as nat, d as nat);
        vstd::arithmetic::div_mod::lemma_fundamental_div_mod(n as int, d as int);
    }
    let q: u128 = n / d;
    let r: u128 = n % d;
    if 2 * r > d || (2 * r == d && q % 2 == 1) {
        (q + 1) as u64
    } else {
        q as u64
    }
}

fn carry(negative: bool, m: u64, e: i32) -> (r: Double)
    requires
        MANTISSA_MIN <= m <= MANTISSA_END,
        -100000 <= e <= 100000,
    ensures
        r == carried(negative, m as nat, e as int),
{
    if m == MANTISSA_END {
        Double::Finite { negative, mantissa: MANTISSA_MIN, exponent: e + 1 }
    } else {
        Double::Finite { negative, mantissa: m, exponent: e }
    }
}

/// 2^k.
fn power_of_two(k: u32) -> (p: u64)
    requires
        k < 64,
    ensures
        p == pow2(k as nat),
        0 < p <= 0x8000_0000_0000_0000,
{
    let mut p: u64 = 1;
    let mut i: u32 = 0;
    proof {
        vstd::arithmetic::power2::lemma2_to64();
    }
    while i < k
        invariant
            i <= k < 64,
            p == pow2(i as nat),
            0 < p <= 0x8000_0000_0000_0000,
        decreases k - i,
    {
        proof {
            lemma_pow2_unfold((i + 1) as nat);
            vstd::arithmetic::power2::lemma2_to64();
            vstd::arithmetic::power2::lemma2_to64_rest();
            if i + 1 < 63 {
                vstd::arithmetic::power2::lemma_pow2_strictly_increases((i + 1) as nat, 63);
            }
        }
        p = 2 * p;
        i = i + 1;
    }
    p
}

/// `n`, or the largest `u64` where `n` does not fit.
pub open spec fn saturated(n: nat) -> u64 {
    if n <= u64::MAX {
        n as u64
    } else {
        u64::MAX
    }
}

/// `m * 2^e`, saturating.
fn whole(m: u64, e: i32) -> (r: u64)
    requires
        (m == 0 && e == 0) || MANTISSA_MIN <= m < MANTISSA_END,
        0 <= e,
    ensures
        r == saturated(m as nat * pow2(e as nat)),
{
    proof {
        vstd::arithmetic::power2::lemma2_to64();
    }
    if e >= 12 {
        proof {
            if e > 12 {
                vstd::arithmetic::power2::lemma_pow2_strictly_increases(12, e as nat);
            }
            assert(m * pow2(e as nat) >= 0x10_0000_0000_0000 * 4096) by (nonlinear_arith)
                requires
                    m >= 0x10_0000_0000_0000,
                    pow2(e as nat) >= 4096,
            ;
        }
        u64::MAX
    } else {
        let p = power_of_two(e as u32);
        proof {
            if e < 12 {
                vstd::arithmetic::power2::lemma_pow2_strictly_increases(e as nat, 12);
            }
            assert(m * p < 0x20_0000_0000_0000 * 4096) by (nonlinear_arith)
                requires
                    m < 0x20_0000_0000_0000,
                    p < 4096,
            ;
        }
        let w: u128 = m as u128 * p as u128;
        if w > u64::MAX as u128 {
            u64::MAX
        } else {
            w as u64
        }
    }
}

proof fn lemma_pow2_above_64(k: nat)
    requires
        k >= 64,
    ensures
        pow2(k) >= 0x1_0000_0000_0000_0000,
{
    vstd::arithmetic::power2::lemma2_to64_rest();
    if k > 64 {
        vstd::arithmetic::power2::lemma_pow2_strictly_increases(64, k);
    }
}

proof fn lemma_div_no_larger(n: nat, d: nat)
    requires
        d > 0,
    ensures
        n / d <= n,
{
    vstd::arithmetic::div_mod::lemma_div_is_ordered_by_denominator(n as int, 1, d as int);
}

pub proof fn lemma_scaled_up_sign(negative: bool, m: nat, e: int)
    ensures
        scaled_up(negative, m, e) matches Double::Finite { negative: n, .. } && n == negative,
    decreases MANTISSA_END - m,
{
    if m != 0 && m < MANTISSA_MIN {
        lemma_scaled_up_sign(negative, 2 * m, e - 1);
    }
}

pub proof fn lemma_scaled_down_sign(negative: bool, n: nat, d: nat, e: int)
    ensures
        scaled_down(negative, n, d, e) matches Double::Finite { negative: g, .. } && g == negative,
    decreases n - d,
{
    if d != 0 && n >= MANTISSA_END * d {
        lemma_scaled_down_sign(negative, n, 2 * d, e + 1);
    }
}

impl Double {
    pub open spec fn zero() -> Double {
        Double::Finite { negative: false, mantissa: 0, exponent: 0 }
    }

    /// A number in canonical form, whose exponent, if it is finite, is at most
    /// `bound` away from zero.
    pub open spec fn within(self, bound: int) -> bool {
        match self {
            Double::Finite { negative, mantissa, exponent } => {
                ||| self == Double::zero() && bound >= 0
                ||| MANTISSA_MIN <= mantissa < MANTISSA_END && -bound <= exponent <= bound
            },
            _ => true,
        }
    }

    /// The double nearest to the integer `x`.
    pub open spec fn spec_of(x: int) -> Double {
        nearest(x, 0)
    }

    /// The double nearest to the decimal fraction `n / d`.
    pub open spec fn spec_decimal(n: nat, d: nat) -> Double {
        Double::spec_of(n as int).spec_div(Double::spec_of(d as int))
    }

    pub open spec fn is_zero(self) -> bool {
        self matches Double::Finite { mantissa, .. } && mantissa == 0
    }

    /// The quotient, rounded.
    pub open spec fn spec_div(self, other: Double) -> Double {
        match (self, other) {
            (
                Double::Finite { negative: n1, mantissa: m1, exponent: e1 },
                Double::Finite { negative: n2, mantissa: m2, exponent: e2 },
            ) => {
                if m2 == 0 {
                    if m1 == 0 {
                        Double::NotANumber
                    } else {
                        Double::Infinite { negative: n1 }
                    }
                } else if m1 == 0 {
                    Double::zero()
                } else if m1 >= m2 {
                    carried(
                        n1 != n2,
                        half_even((m1 * MANTISSA_MIN) as nat, m2 as nat),
                        e1 - e2 - 52,
                    )
                } else {
                    carried(
                        n1 != n2,
                        half_even((m1 * MANTISSA_END) as nat, m2 as nat),
                        e1 - e2 - 53,
                    )
                }
            },
            (Double::Infinite { negative: n1 }, Double::Finite { negative: n2, .. }) => {
                Double::Infinite { negative: n1 != n2 }
            },
            (Double::Finite { .. }, Double::Infinite { .. }) => Double::zero(),
            _ => Double::NotANumber,
        }
    }

    /// The product, rounded.
    pub open spec fn spec_mul(self, other: Double) -> Double {
        match (self, other) {
            (
                Double::Finite { negative: n1, mantissa: m1, exponent: e1 },
                Double::Finite { negative: n2, mantissa: m2, exponent: e2 },
            ) => {
                if m1 == 0 || m2 == 0 {
                    Double::zero()
                } else if m1 * m2 >= MANTISSA_MIN * MANTISSA_END {
                    carried(
                        n1 != n2,
                        half_even((m1 * m2) as nat, MANTISSA_END as nat),
                        e1 + e2 + 53,
                    )
                } else {
                    carried(
                        n1 != n2,
                        half_even((m1 * m2) as nat, MANTISSA_MIN as nat),
                        e1 + e2 + 52,
                    )
                }
            },
            (Double::Infinite { negative: n1 }, Double::Infinite { negative: n2 }) => {
                Double::Infinite { negative: n1 != n2 }
            },
            (Double::Infinite { negative: n1 }, Double::Finite { negative: n2, mantissa, .. }) => {
                if mantissa == 0 {
                    Double::NotANumber
                } else {
                    Double::Infinite { negative: n1 != n2 }
                }
            },
            (Double::Finite { negative: n1, mantissa, .. }, Double::Infinite { negative: n2 }) => {
                if mantissa == 0 {
                    Double::NotANumber
                } else {
                    Double::Infinite { negative: n1 != n2 }
                }
            },
            _ => Double::NotANumber,
        }
    }

    /// Whether the first number is less than the second; false when either is
    /// not a number.
    pub open spec fn spec_lt(self, other: Double) -> bool {
        match (self, other) {
            (
                Double::Finite { negative: n1, mantissa: m1, exponent: e1 },
                Double::Finite { negative: n2, mantissa: m2, exponent: e2 },
            ) => {
                if n1 && n2 {
                    smaller(m2 as nat, e2 as int, m1 as nat, e1 as int)
                } else if n1 {
                    true
                } else if n2 {
                    false
                } else {
                    smaller(m1 as nat, e1 as int, m2 as nat, e2 as int)
                }
            },
            (Double::Infinite { negative: n1 }, Double::Infinite { negative: n2 }) => n1 && !n2,
            (Double::Infinite { negative: n1 }, Double::Finite { .. }) => n1,
            (Double::Finite { .. }, Double::Infinite { negative: n2 }) => !n2,
            _ => false,
        }
    }

    pub open spec fn spec_gt(self, other: Double) -> bool {
        other.spec_lt(self)
    }

    /// Whether this number lies below the decimal literal `n / d`.
    pub open spec fn spec_below(self, n: nat, d: nat) -> bool {
        self.spec_lt(Double::spec_decimal(n, d))
    }

    /// Whether this number lies above the decimal literal `n / d`.
    pub open spec fn spec_above(self, n: nat, d: nat) -> bool {
        self.spec_gt(Double::spec_decimal(n, d))
    }

    /// A finite number that is not below zero.
    pub open spec fn is_natural(self) -> bool {
        self matches Double::Finite { negative, .. } && !negative
    }

    /// The least integer that is not below this nonnegative number.
    pub open spec fn spec_ceil(self) -> nat {
        match self {
            Double::Finite { mantissa, exponent, .. } => {
                if exponent >= 0 {
                    mantissa as nat * pow2(exponent as nat)
                } else {
                    let d = pow2((-exponent) as nat);
                    ((mantissa + d - 1) as nat) / d
                }
            },
            _ => 0,
        }
    }

    /// The greatest integer that is not above this nonnegative number.
    pub open spec fn spec_floor(self) -> nat {
        match self {
            Double::Finite { mantissa, exponent, .. } => {
                if exponent >= 0 {
                    mantissa as nat * pow2(exponent as nat)
                } else {
                    mantissa as nat / pow2((-exponent) as nat)
                }
            },
            _ => 0,
        }
    }

    /// The integer nearest to this nonnegative number, ties upwards.
    pub open spec fn spec_round(self) -> nat {
        match self {
            Double::Finite { mantissa, exponent, .. } => {
                if exponent >= 0 {
                    mantissa as nat * pow2(exponent as nat)
                } else {
                    let d = pow2((-exponent) as nat);
                    (2 * mantissa as nat + d) / (2 * d)
                }
            },
            _ => 0,
        }
    }

    pub proof fn lemma_of_within(x: int)
        requires
            -0x1_0000_0000_0000_0000 < x < 0x1_0000_0000_0000_0000,
        ensures
            Double::spec_of(x).within(52),
            x >= 0 ==> Double::spec_of(x).is_natural(),
            x == 0 <==> Double::spec_of(x).is_zero(),
            Double::spec_of(x) is Finite,
    {
        let a: nat = if x < 0 { -x as nat } else { x as nat };
        vstd::arithmetic::power2::lemma2_to64();
        vstd::arithmetic::power2::lemma2_to64_rest();
        if a == 0 {
        } else if a < MANTISSA_END {
            assert(a * pow2(52) >= MANTISSA_MIN) by (nonlinear_arith)
                requires
                    a >= 1,
                    pow2(52) == MANTISSA_MIN,
            ;
            lemma_scaled_up_shape(x < 0, a, 0, 52);
        } else {
            lemma_scaled_down_shape(x < 0, a, 1, 0, 11);
        }
    }

    /// A fraction of two naturals is not negative.
    pub proof fn lemma_decimal_sign(n: nat, d: nat)
        ensures
            match Double::spec_decimal(n, d) {
                Double::Finite { negative, .. } => !negative,
                Double::Infinite { negative } => !negative,
                Double::NotANumber => true,
            },
    {
        lemma_scaled_up_sign(false, n, 0);
        lemma_scaled_up_sign(false, d, 0);
        lemma_scaled_down_sign(false, n, 1, 0);
        lemma_scaled_down_sign(false, d, 1, 0);
    }

    pub proof fn lemma_div_within(a: Double, b: Double, i: int, j: int)
        requires
            a.within(i),
            b.within(j),
            0 <= i <= 10000,
            0 <= j <= 10000,
        ensures
            a.spec_div(b).within(i + j + 53),
            a.is_natural() && b.is_natural() && !b.is_zero() ==> a.spec_div(b).is_natural(),
            a.is_natural() && b.is_natural() && !b.is_zero() && !a.is_zero() ==> !a.spec_div(
                b,
            ).is_zero(),
    {
        if let (
            Double::Finite { mantissa: m1, .. },
            Double::Finite { mantissa: m2, .. },
        ) = (a, b) {
            if m1 != 0 && m2 != 0 {
                lemma_quotient_bounds(m1, m2);
                if m1 >= m2 {
                    lemma_half_even_range((m1 * MANTISSA_MIN) as nat, m2 as nat);
                } else {
                    lemma_half_even_range((m1 * MANTISSA_END) as nat, m2 as nat);
                }
            }
        }
    }

    pub proof fn lemma_decimal_within(n: nat, d: nat)
        requires
            n <= u64::MAX,
            0 < d <= u64::MAX,
        ensures
            Double::spec_decimal(n, d).within(157),
            Double::spec_decimal(n, d).is_natural(),
            n > 0 ==> !Double::spec_decimal(n, d).is_zero(),
    {
        Double::lemma_of_within(n as int);
        Double::lemma_of_within(d as int);
        Double::lemma_div_within(Double::spec_of(n as int), Double::spec_of(d as int), 52, 52);
    }

    pub proof fn lemma_mul_within(a: Double, b: Double, i: int, j: int)
        requires
            a.within(i),
            b.within(j),
            0 <= i <= 10000,
            0 <= j <= 10000,
        ensures
            a.spec_mul(b).within(i + j + 54),
            a.is_natural() && b.is_natural() ==> a.spec_mul(b).is_natural(),
    {
        if let (
            Double::Finite { mantissa: m1, .. },
            Double::Finite { mantissa: m2, .. },
        ) = (a, b) {
            if m1 != 0 && m2 != 0 {
                lemma_product_bounds(m1, m2);
                if m1 * m2 >= MANTISSA_MIN * MANTISSA_END {
                    lemma_half_even_range((m1 * m2) as nat, MANTISSA_END as nat);
                } else {
                    lemma_half_even_range((m1 * m2) as nat, MANTISSA_MIN as nat);
                }
            }
        }
    }

    /// Rounds `a * 2^exponent`, negated when `negative` is set.
    pub fn nearest_to(negative: bool, a: u128, exponent: i32) -> (r: Double)
        requires
            a < 0x40_0000_0000_0000_0000_0000_0000_0000,
            -20000 <= exponent <= 20000,
        ensures
            negative ==> r == nearest(-(a as int), exponent as int),
            !negative ==> r == nearest(a as int, exponent as int),
    {
        if a == 0 {
            return Double::Finite { negative: false, mantissa: 0, exponent: 0 };
        }
        if a < 0x20_0000_0000_0000 {
            let mut m: u64 = a as u64;
            let mut e: i32 = 0;
            proof {
                vstd::arithmetic::power2::lemma2_to64();
            }
            while m < MANTISSA_MIN
                invariant
                    0 < m < MANTISSA_END,
                    scaled_up(negative, a as nat, exponent as int) == scaled_up(
                        negative,
                        m as nat,
                        exponent + e,
                    ),
                    -60 <= e <= 0,
                    m >= pow2((-e) as nat),
                    -20000 <= exponent <= 20000,
                decreases MANTISSA_END - m,
            {
                proof {
                    lemma_pow2_unfold((1 - e) as nat);
                    vstd::arithmetic::power2::lemma2_to64_rest();
                    if -e > 52 {
                        vstd::arithmetic::power2::lemma_pow2_strictly_increases(52, (-e) as nat);
                    }
                }
                m = 2 * m;
                e = e - 1;
            }
            Double::Finite { negative, mantissa: m, exponent: exponent + e }
        } else {
            let mut d: u128 = 1;
            let mut e: i32 = 0;
            proof {
                vstd::arithmetic::power2::lemma2_to64();
            }
            while a >= 0x20_0000_0000_0000u128 * d
                invariant
                    0x10_0000_0000_0000 * d <= a,
                    a < 0x40_0000_0000_0000_0000_0000_0000_0000,
                    1 <= d,
                    0 <= e <= 70,
                    d == pow2(e as nat),
                    -20000 <= exponent <= 20000,
                    scaled_down(negative, a as nat, 1, exponent as int) == scaled_down(
                        negative,
                        a as nat,
                        d as nat,
                        exponent + e,
                    ),
                decreases a - d,
            {
                proof {
                    lemma_pow2_unfold((e + 1) as nat);
                    if e > 64 {
                        lemma_pow2_above_64(e as nat);
                        lemma_pow2_adds(64, (e - 64) as nat);
                        vstd::arithmetic::power2::lemma2_to64();
                        if e >= 70 {
                            vstd::arithmetic::power2::lemma2_to64_rest();
                            assert(pow2(6) == 64);
                            assert(pow2(64) * pow2(6) == 0x1_0000_0000_0000_0000 * 64);
                        }
                    }
                }
                d = 2 * d;
                e = e + 1;
            }
            let m = round_half_even(a, d);
            carry(negative, m, exponent + e)
        }
    }

    /// Converts a signed integer.
    pub fn of_i64(x: i64) -> (r: Double)
        ensures
            r == Double::spec_of(x as int),
            r.within(52),
    {
        proof {
            Double::lemma_of_within(x as int);
        }
        if x < 0 {
            Double::nearest_to(true, (-(x as i128)) as u128, 0)
        } else {
            Double::nearest_to(false, x as u128, 0)
        }
    }

    /// Converts an unsigned integer.
    pub fn of_u64(x: u64) -> (r: Double)
        ensures
            r == Double::spec_of(x as int),
            r.within(52),
            r.is_natural(),
            x == 0 <==> r.is_zero(),
    {
        proof {
            Double::lemma_of_within(x as int);
        }
        Double::nearest_to(false, x as u128, 0)
    }

    /// The value of a decimal literal that is written as the fraction `n / d`.
    pub fn decimal(n: u64, d: u64) -> (r: Double)
        requires
            d > 0,
        ensures
            r == Double::spec_decimal(n as nat, d as nat),
            r.within(157),
            r.is_natural(),
            n > 0 ==> !r.is_zero(),
    {
        proof {
            Double::lemma_decimal_within(n as nat, d as nat);
        }
        Double::of_u64(n).div(Double::of_u64(d))
    }

    /// Divides.
    pub fn div(self, other: Double) -> (r: Double)
        requires
            self.within(10000),
            other.within(10000),
        ensures
            r == self.spec_div(other),
    {
        match (self, other) {
            (
                Double::Finite { negative: n1, mantissa: m1, exponent: e1 },
                Double::Finite { negative: n2, mantissa: m2, exponent: e2 },
            ) => {
                if m2 == 0 {
                    if m1 == 0 {
                        Double::NotANumber
                    } else {
                        Double::Infinite { negative: n1 }
                    }
                } else if m1 == 0 {
                    Double::Finite { negative: false, mantissa: 0, exponent: 0 }
                } else {
                    proof {
                        lemma_quotient_bounds(m1, m2);
                    }
                    if m1 >= m2 {
                        let q = round_half_even(m1 as u128 * MANTISSA_MIN as u128, m2 as u128);
                        carry(n1 != n2, q, e1 - e2 - 52)
                    } else {
                        let q = round_half_even(m1 as u128 * MANTISSA_END as u128, m2 as u128);
                        carry(n1 != n2, q, e1 - e2 - 53)
                    }
                }
            },
            (Double::Infinite { negative: n1 }, Double::Finite { negative: n2, .. }) => {
                Double::Infinite { negative: n1 != n2 }
            },
            (Double::Finite { .. }, Double::Infinite { .. }) => {
                Double::Finite { negative: false, mantissa: 0, exponent: 0 }
            },
            _ => Double::NotANumber,
        }
    }

    /// Multiplies.
    pub fn mul(self, other: Double) -> (r: Double)
        requires
            self.within(10000),
            other.within(10000),
        ensures
            r == self.spec_mul(other),
    {
        match (self, other) {
            (
                Double::Finite { negative: n1, mantissa: m1, exponent: e1 },
                Double::Finite { negative: n2, mantissa: m2, exponent: e2 },
            ) => {
                if m1 == 0 || m2 == 0 {
                    Double::Finite { negative: false, mantissa: 0, exponent: 0 }
                } else {
                    proof {
                        lemma_product_bounds(m1, m2);
                    }
                    let p: u128 = m1 as u128 * m2 as u128;
                    if p >= MANTISSA_MIN as u128 * MANTISSA_END as u128 {
                        let q = round_half_even(p, MANTISSA_END as u128);
                        carry(n1 != n2, q, e1 + e2 + 53)
                    } else {
                        let q = round_half_even(p, MANTISSA_MIN as u128);
                        carry(n1 != n2, q, e1 + e2 + 52)
                    }
                }
            },
            (Double::Infinite { negative: n1 }, Double::Infinite { negative: n2 }) => {
                Double::Infinite { negative: n1 != n2 }
            },
            (Double::Infinite { negative: n1 }, Double::Finite { negative: n2, mantissa, .. }) => {
                if mantissa == 0 {
                    Double::NotANumber
                } else {
                    Double::Infinite { negative: n1 != n2 }
                }
            },
            (Double::Finite { negative: n1, mantissa, .. }, Double::Infinite { negative: n2 }) => {
                if mantissa == 0 {
                    Double::NotANumber
                } else {
                    Double::Infinite { negative: n1 != n2 }
                }
            },
            _ => Double::NotANumber,
        }
    }

    fn magnitude_lt(m1: u64, e1: i32, m2: u64, e2: i32) -> (r: bool)
        requires
            (m1 == 0 && e1 == 0) || MANTISSA_MIN <= m1 < MANTISSA_END,
            (m2 == 0 && e2 == 0) || MANTISSA_MIN <= m2 < MANTISSA_END,
        ensures
            r == smaller(m1 as nat, e1 as int, m2 as nat, e2 as int),
    {
        proof {
            lemma_smaller(m1, e1 as int, m2, e2 as int);
        }
        if m1 == 0 || m2 == 0 {
            m1 < m2
        } else if e1 == e2 {
            m1 < m2
        } else {
            e1 < e2
        }
    }

    /// Compares with `<`.
    pub fn lt(self, other: Double) -> (r: bool)
        requires
            self.within(10000),
            other.within(10000),
        ensures
            r == self.spec_lt(other),
    {
        match (self, other) {
            (
                Double::Finite { negative: n1, mantissa: m1, exponent: e1 },
                Double::Finite { negative: n2, mantissa: m2, exponent: e2 },
            ) => {
                if n1 && n2 {
                    Double::magnitude_lt(m2, e2, m1, e1)
                } else if n1 {
                    true
                } else if n2 {
                    false
                } else {
                    Double::magnitude_lt(m1, e1, m2, e2)
                }
            },
            (Double::Infinite { negative: n1 }, Double::Infinite { negative: n2 }) => n1 && !n2,
            (Double::Infinite { negative: n1 }, Double::Finite { .. }) => n1,
            (Double::Finite { .. }, Double::Infinite { negative: n2 }) => !n2,
            _ => false,
        }
    }

    /// Compares with `>`.
    pub fn gt(self, other: Double) -> (r: bool)
        requires
            self.within(10000),
            other.within(10000),
        ensures
            r == self.spec_gt(other),
    {
        other.lt(self)
    }

    /// Rounds a nonnegative number up to an integer, saturating at `u64::MAX`.
    pub fn ceil(self) -> (r: u64)
        requires
            self.is_natural(),
            self.within(10000),
        ensures
            r == saturated(self.spec_ceil()),
    {
        match self {
            Double::Finite { mantissa, exponent, .. } => {
                if exponent >= 0 {
                    whole(mantissa, exponent)
                } else if exponent <= -64 {
                    proof {
                        lemma_pow2_above_64((-exponent) as nat);
                        let d = pow2((-exponent) as nat) as int;
                        vstd::arithmetic::div_mod::lemma_fundamental_div_mod_converse(
                            mantissa + d - 1,
                            d,
                            1,
                            mantissa - 1,
                        );
                    }
                    1
                } else {
                    let d = power_of_two((-exponent) as u32);
                    proof {
                        lemma_div_no_larger((mantissa + d - 1) as nat, d as nat);
                    }
                    ((mantissa as u128 + d as u128 - 1) / d as u128) as u64
                }
            },
            _ => 0,
        }
    }

    /// Rounds a nonnegative number down to an integer, saturating at `u64::MAX`.
    pub fn floor(self) -> (r: u64)
        requires
            self.is_natural(),
            self.within(10000),
        ensures
            r == saturated(self.spec_floor()),
    {
        match self {
            Double::Finite { mantissa, exponent, .. } => {
                if exponent >= 0 {
                    whole(mantissa, exponent)
                } else if exponent <= -64 {
                    proof {
                        lemma_pow2_above_64((-exponent) as nat);
                        vstd::arithmetic::div_mod::lemma_basic_div(
                            mantissa as int,
                            pow2((-exponent) as nat) as int,
                        );
                    }
                    0
                } else {
                    let d = power_of_two((-exponent) as u32);
                    proof {
                        lemma_div_no_larger(mantissa as nat, d as nat);
                    }
                    mantissa / d
                }
            },
            _ => 0,
        }
    }

    /// Rounds a nonnegative number to the nearest integer, ties upwards,
    /// saturating at `u64::MAX`.
    pub fn round(self) -> (r: u64)
        requires
            self.is_natural(),
            self.within(10000),
        ensures
            r == saturated(self.spec_round()),
    {
        match self {
            Double::Finite { mantissa, exponent, .. } => {
                if exponent >= 0 {
                    whole(mantissa, exponent)
                } else if exponent <= -64 {
                    proof {
                        lemma_pow2_above_64((-exponent) as nat);
                        let d = pow2((-exponent) as nat) as int;
                        vstd::arithmetic::div_mod::lemma_basic_div(2 * mantissa + d, 2 * d);
                    }
                    0
                } else {
                    let d = power_of_two((-exponent) as u32);
                    proof {
                        lemma_div_no_larger((2 * mantissa + d) as nat, (2 * d) as nat);
                    }
                    ((2 * mantissa as u128 + d as u128) / (2 * d as u128)) as u64
                }
            },
            _ => 0,
        }
    }

    /// Whether this number lies below the decimal literal `n / d`.
    pub fn below(self, n: u64, d: u64) -> (r: bool)
        requires
            self.within(10000),
            d > 0,
        ensures
            r == self.spec_below(n as nat, d as nat),
    {
        self.lt(Double::decimal(n, d))
    }

    /// Whether this number lies above the decimal literal `n / d`.
    pub fn above(self, n: u64, d: u64) -> (r: bool)
        requires
            self.within(10000),
            d > 0,
        ensures
            r == self.spec_above(n as nat, d as nat),
    {
        self.gt(Double::decimal(n, d))
    }
}

pub proof fn lemma_quotient_bounds(m1: u64, m2: u64)
    requires
        MANTISSA_MIN <= m1 < MANTISSA_END,
        MANTISSA_MIN <= m2 < MANTISSA_END,
    ensures
        m1 >= m2 ==> MANTISSA_MIN * m2 <= m1 * MANTISSA_MIN < MANTISSA_END * m2,
        m1 < m2 ==> MANTISSA_MIN * m2 <= m1 * MANTISSA_END < MANTISSA_END * m2,
{
}

pub proof fn lemma_product_bounds(m1: u64, m2: u64)
    requires
        MANTISSA_MIN <= m1 < MANTISSA_END,
        MANTISSA_MIN <= m2 < MANTISSA_END,
    ensures
        MANTISSA_MIN * MANTISSA_MIN <= m1 * m2 < MANTISSA_END * MANTISSA_END,
{
    assert(MANTISSA_MIN * MANTISSA_MIN <= m1 * m2) by (nonlinear_arith)
        requires
            MANTISSA_MIN <= m1,
            MANTISSA_MIN <= m2,
    ;
    assert(m1 * m2 < MANTISSA_END * MANTISSA_END) by (nonlinear_arith)
        requires
            m1 < MANTISSA_END,
            m2 < MANTISSA_END,
    ;
}

pub proof fn lemma_smaller(m1: u64, e1: int, m2: u64, e2: int)
    requires
        m1 == 0 || MANTISSA_MIN <= m1 < MANTISSA_END,
        m2 == 0 || MANTISSA_MIN <= m2 < MANTISSA_END,
    ensures
        m1 == 0 || m2 == 0 || e1 == e2 ==> smaller(m1 as nat, e1, m2 as nat, e2) == (m1 < m2),
        m1 != 0 && m2 != 0 && e1 != e2 ==> smaller(m1 as nat, e1, m2 as nat, e2) == (e1 < e2),
{
    vstd::arithmetic::power2::lemma2_to64();
    if e1 > e2 {
        let p = pow2((e1 - e2) as nat);
        lemma_pow2_unfold((e1 - e2) as nat);
        lemma_pow2_pos((e1 - e2 - 1) as nat);
        assert(m1 * p >= 2 * m1) by (nonlinear_arith)
            requires
                p >= 2,
        ;
        if m1 == 0 {
            assert(m1 * p == 0) by (nonlinear_arith)
                requires
                    m1 == 0,
            ;
        }
    } else if e1 < e2 {
        let p = pow2((e2 - e1) as nat);
        lemma_pow2_unfold((e2 - e1) as nat);
        lemma_pow2_pos((e2 - e1 - 1) as nat);
        assert(m2 * p >= 2 * m2) by (nonlinear_arith)
            requires
                p >= 2,
        ;
        if m2 == 0 {
            assert(m2 * p == 0) by (nonlinear_arith)
                requires
                    m2 == 0,
            ;
        }
    } else {
        assert(m1 * pow2(0) == m1) by (nonlinear_arith)
            requires
                pow2(0) == 1,
        ;
    }
}

} // verus!
