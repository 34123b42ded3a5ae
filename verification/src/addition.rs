//! Sums and differences in double precision.
use vstd::arithmetic::power2::{lemma_pow2_pos, lemma_pow2_unfold, pow2};
use vstd::prelude::*;

use crate::double::{
    carried, half_even, lemma_scaled_down_shape, lemma_scaled_up_shape, nearest, scaled_down,
    Double, MANTISSA_END, MANTISSA_MIN,
};

verus! {

/// `m`, negated when `negative` is set.
pub open spec fn signed(negative: bool, m: nat) -> int {
    if negative {
        -(m as int)
    } else {
        m as int
    }
}

/// The sum of `m1 * 2^e1` and `m2 * 2^e2`, as a multiple of the smaller power of two.
pub open spec fn exact_sum(n1: bool, m1: nat, e1: int, n2: bool, m2: nat, e2: int) -> int {
    if e1 >= e2 {
        signed(n1, m1 * pow2((e1 - e2) as nat)) + signed(n2, m2)
    } else {
        signed(n1, m1) + signed(n2, m2 * pow2((e2 - e1) as nat))
    }
}

impl Double {
    /// The sum, rounded.
    pub open spec fn spec_add(self, other: Double) -> Double {
        match (self, other) {
            (
                Double::Finite { negative: n1, mantissa: m1, exponent: e1 },
                Double::Finite { negative: n2, mantissa: m2, exponent: e2 },
            ) => {
                if m1 == 0 {
                    other
                } else if m2 == 0 {
                    self
                } else {
                    nearest(
                        exact_sum(n1, m1 as nat, e1 as int, n2, m2 as nat, e2 as int),
                        if e1 >= e2 {
                            e2 as int
                        } else {
                            e1 as int
                        },
                    )
                }
            },
            (Double::Infinite { negative: n1 }, Double::Infinite { negative: n2 }) => {
                if n1 == n2 {
                    self
                } else {
                    Double::NotANumber
                }
            },
            (Double::Infinite { .. }, Double::Finite { .. }) => self,
            (Double::Finite { .. }, Double::Infinite { .. }) => other,
            _ => Double::NotANumber,
        }
    }

    /// The number with the other sign.
    pub open spec fn spec_negated(self) -> Double {
        match self {
            Double::Finite { negative, mantissa, exponent } => {
                if mantissa == 0 {
                    self
                } else {
                    Double::Finite { negative: !negative, mantissa, exponent }
                }
            },
            Double::Infinite { negative } => Double::Infinite { negative: !negative },
            Double::NotANumber => Double::NotANumber,
        }
    }

    /// The difference, rounded.
    pub open spec fn spec_sub(self, other: Double) -> Double {
        self.spec_add(other.spec_negated())
    }

    pub proof fn lemma_add_within(a: Double, b: Double, i: int)
        requires
            a.within(i),
            b.within(i),
            0 <= i <= 10000,
        ensures
            a.spec_add(b).within(i + 54),
    {
        if let (
            Double::Finite { negative: n1, mantissa: m1, exponent: e1 },
            Double::Finite { negative: n2, mantissa: m2, exponent: e2 },
        ) = (a, b) {
            if m1 != 0 && m2 != 0 {
                if e1 >= e2 {
                    lemma_aligned_within(n1, m1 as nat, e1 as int, n2, m2 as nat, e2 as int, i);
                } else {
                    lemma_aligned_within(n2, m2 as nat, e2 as int, n1, m1 as nat, e1 as int, i);
                }
            }
        }
    }

    /// The number with the other sign.
    pub fn negated(self) -> (r: Double)
        ensures
            r == self.spec_negated(),
            forall|bound: int| self.within(bound) ==> #[trigger] r.within(bound),
    {
        match self {
            Double::Finite { negative, mantissa, exponent } => {
                if mantissa == 0 {
                    self
                } else {
                    Double::Finite { negative: !negative, mantissa, exponent }
                }
            },
            Double::Infinite { negative } => Double::Infinite { negative: !negative },
            Double::NotANumber => Double::NotANumber,
        }
    }

    /// Adds.
    pub fn plus(self, other: Double) -> (r: Double)
        requires
            self.within(10000),
            other.within(10000),
        ensures
            r == self.spec_add(other),
    {
        match (self, other) {
            (
                Double::Finite { negative: n1, mantissa: m1, exponent: e1 },
                Double::Finite { negative: n2, mantissa: m2, exponent: e2 },
            ) => {
                if m1 == 0 {
                    other
                } else if m2 == 0 {
                    self
                } else if e1 >= e2 {
                    add_aligned(n1, m1, e1, n2, m2, e2)
                } else {
                    add_aligned(n2, m2, e2, n1, m1, e1)
                }
            },
            (Double::Infinite { negative: n1 }, Double::Infinite { negative: n2 }) => {
                if n1 == n2 {
                    self
                } else {
                    Double::NotANumber
                }
            },
            (Double::Infinite { .. }, Double::Finite { .. }) => self,
            (Double::Finite { .. }, Double::Infinite { .. }) => other,
            _ => Double::NotANumber,
        }
    }

    /// Subtracts.
    pub fn minus(self, other: Double) -> (r: Double)
        requires
            self.within(10000),
            other.within(10000),
        ensures
            r == self.spec_sub(other),
    {
        let opposite = other.negated();
        self.plus(opposite)
    }
}

proof fn lemma_aligned_within(
    nh: bool,
    mh: nat,
    eh: int,
    nl: bool,
    ml: nat,
    el: int,
    bound: int,
)
    requires
        MANTISSA_MIN <= mh < MANTISSA_END,
        MANTISSA_MIN <= ml < MANTISSA_END,
        el <= eh,
        -bound <= el,
        eh <= bound,
        0 <= bound <= 10000,
    ensures
        nearest(signed(nh, mh * pow2((eh - el) as nat)) + signed(nl, ml), el).within(bound + 54),
{
    let d = (eh - el) as nat;
    let p = pow2(d);
    lemma_pow2_pos(d);
    let x = signed(nh, mh * p) + signed(nl, ml);
    let a: nat = if x < 0 { -x as nat } else { x as nat };
    vstd::arithmetic::power2::lemma2_to64();
    vstd::arithmetic::power2::lemma2_to64_rest();
    assert(mh * p <= (MANTISSA_END - 1) * p) by (nonlinear_arith)
        requires
            mh <= MANTISSA_END - 1,
    ;
    if a == 0 {
    } else if a < MANTISSA_END {
        assert(a * pow2(52) >= MANTISSA_MIN) by (nonlinear_arith)
            requires
                a >= 1,
                pow2(52) == MANTISSA_MIN,
        ;
        lemma_scaled_up_shape(x < 0, a, el, 52);
    } else {
        lemma_pow2_unfold(d + 1);
        assert(a < MANTISSA_END * (1 * pow2(d + 1)));
        lemma_scaled_down_shape(x < 0, a, 1, el, d + 1);
    }
}

pub proof fn lemma_scaled_down_to(negative: bool, n: nat, i: nat, j: nat, e: int)
    requires
        i <= j,
        j > 0 ==> n >= MANTISSA_END * pow2((j - 1) as nat),
        n < MANTISSA_END * pow2(j),
    ensures
        scaled_down(negative, n, pow2(i), e + i) == carried(
            negative,
            half_even(n, pow2(j)),
            e + j,
        ),
    decreases j - i,
{
    lemma_pow2_pos(i);
    if i < j {
        lemma_pow2_unfold(i + 1);
        if i < j - 1 {
            vstd::arithmetic::power2::lemma_pow2_strictly_increases(i, (j - 1) as nat);
        }
        assert(MANTISSA_END * pow2((j - 1) as nat) >= MANTISSA_END * pow2(i));
        lemma_scaled_down_to(negative, n, i + 1, j, e);
    }
}

pub proof fn lemma_half_even_is(n: nat, d: nat, q: nat)
    requires
        d > 0,
        d * q <= n && 2 * (n - d * q) < d || n < d * q && 2 * (d * q - n) < d,
    ensures
        half_even(n, d) == q,
{
    if d * q <= n {
        vstd::arithmetic::div_mod::lemma_fundamental_div_mod_converse(
            n as int,
            d as int,
            q as int,
            n - d * q,
        );
    } else {
        assert(q > 0) by (nonlinear_arith)
            requires
                n < d * q,
                n >= 0,
        ;
        assert(d * (q - 1) == d * q - d) by (nonlinear_arith);
        vstd::arithmetic::div_mod::lemma_fundamental_div_mod_converse(
            n as int,
            d as int,
            q - 1,
            n - (d * q - d),
        );
    }
}

/// A number that is more than 2^64 times greater does not change.
proof fn lemma_absorbed(nh: bool, mh: nat, eh: int, nl: bool, ml: nat, el: int)
    requires
        MANTISSA_MIN <= mh < MANTISSA_END,
        MANTISSA_MIN <= ml < MANTISSA_END,
        eh - el > 64,
    ensures
        nearest(signed(nh, mh * pow2((eh - el) as nat)) + signed(nl, ml), el) == carried(
            nh,
            mh,
            eh,
        ),
{
    let d = (eh - el) as nat;
    let p = pow2(d);
    let half = pow2((d - 1) as nat);
    vstd::arithmetic::power2::lemma2_to64();
    vstd::arithmetic::power2::lemma2_to64_rest();
    lemma_pow2_unfold(d);
    if d - 1 > 64 {
        vstd::arithmetic::power2::lemma_pow2_strictly_increases(64, (d - 1) as nat);
    }
    assert(half >= 0x1_0000_0000_0000_0000);
    assert(mh * p >= MANTISSA_MIN * p) by (nonlinear_arith)
        requires
            mh >= MANTISSA_MIN,
    ;
    assert(mh * p <= (MANTISSA_END - 1) * p) by (nonlinear_arith)
        requires
            mh <= MANTISSA_END - 1,
    ;
    let big = mh * p;
    let x = signed(nh, big) + signed(nl, ml);
    let a: nat = if nh == nl { big + ml } else { (big - ml) as nat };
    assert(x == signed(nh, a));
    assert(pow2(0) == 1);
    if a >= MANTISSA_MIN * p {
        assert(MANTISSA_END * half == MANTISSA_MIN * p) by (nonlinear_arith)
            requires
                p == 2 * half,
                MANTISSA_END == 2 * MANTISSA_MIN,
        ;
        lemma_scaled_down_to(nh, a, 0, d, el);
        assert(p * mh == mh * p) by (nonlinear_arith);
        lemma_half_even_is(a, p, mh);
    } else {
        assert(mh == MANTISSA_MIN) by (nonlinear_arith)
            requires
                mh >= MANTISSA_MIN,
                mh * p - ml < MANTISSA_MIN * p,
                ml < MANTISSA_END,
                p >= 0x1_0000_0000_0000_0000,
        ;
        let j = (d - 1) as nat;
        let quarter = pow2((d - 2) as nat);
        lemma_pow2_unfold(j);
        assert(MANTISSA_END * half == MANTISSA_MIN * p) by (nonlinear_arith)
            requires
                p == 2 * half,
                MANTISSA_END == 2 * MANTISSA_MIN,
        ;
        assert(MANTISSA_END * quarter == MANTISSA_MIN * half) by (nonlinear_arith)
            requires
                half == 2 * quarter,
                MANTISSA_END == 2 * MANTISSA_MIN,
        ;
        lemma_scaled_down_to(nh, a, 0, j, el);
        assert(half * MANTISSA_END == MANTISSA_MIN * p) by (nonlinear_arith)
            requires
                p == 2 * half,
                MANTISSA_END == 2 * MANTISSA_MIN,
        ;
        lemma_half_even_is(a, half, MANTISSA_END as nat);
    }
}

/// 2^k.
fn wide_power_of_two(k: u32) -> (p: u128)
    requires
        k <= 64,
    ensures
        p == pow2(k as nat),
        0 < p <= 0x1_0000_0000_0000_0000,
{
    let mut p: u128 = 1;
    let mut i: u32 = 0;
    proof {
        vstd::arithmetic::power2::lemma2_to64();
    }
    while i < k
        invariant
            i <= k <= 64,
            p == pow2(i as nat),
            0 < p <= 0x1_0000_0000_0000_0000,
        decreases k - i,
    {
        proof {
            lemma_pow2_unfold((i + 1) as nat);
            vstd::arithmetic::power2::lemma2_to64_rest();
            if i + 1 < 64 {
                vstd::arithmetic::power2::lemma_pow2_strictly_increases((i + 1) as nat, 64);
            }
        }
        p = 2 * p;
        i = i + 1;
    }
    p
}

/// Adds a number to one with a smaller exponent.
fn add_aligned(nh: bool, mh: u64, eh: i32, nl: bool, ml: u64, el: i32) -> (r: Double)
    requires
        MANTISSA_MIN <= mh < MANTISSA_END,
        MANTISSA_MIN <= ml < MANTISSA_END,
        -10000 <= el <= eh <= 10000,
    ensures
        r == nearest(
            signed(nh, mh as nat * pow2((eh - el) as nat)) + signed(nl, ml as nat),
            el as int,
        ),
{
    let d: i32 = eh - el;
    if d > 64 {
        proof {
            lemma_absorbed(nh, mh as nat, eh as int, nl, ml as nat, el as int);
        }
        return Double::Finite { negative: nh, mantissa: mh, exponent: eh };
    }
    let p = wide_power_of_two(d as u32);
    assert(mh * p <= 0x20_0000_0000_0000 * 0x1_0000_0000_0000_0000) by (nonlinear_arith)
        requires
            mh < 0x20_0000_0000_0000,
            p <= 0x1_0000_0000_0000_0000,
    ;
    let big: u128 = mh as u128 * p;
    if nh == nl {
        Double::nearest_to(nh, big + ml as u128, el)
    } else if big >= ml as u128 {
        Double::nearest_to(nh, big - ml as u128, el)
    } else {
        Double::nearest_to(nl, ml as u128 - big, el)
    }
}

} // verus!
