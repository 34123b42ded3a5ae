//! The cost factors that steer the choice of an index.
use vstd::prelude::*;

use crate::double::{lemma_scaled_down_sign, lemma_scaled_up_sign, Double, MANTISSA_END};
use crate::exact::{
    decimals_compare, lemma_unit, near, near_decimal, nearest_is_close, quotient_is_close, scaled,
    size_of, unit,
};

verus! {

/// The weights of a run: `factor_size` is the price of a kilobyte of index,
/// `factor_skip` is the reward for a block whose scan an index saves.
#[derive(Clone, Copy, Debug)]
pub struct Parameter {
    pub factor_size: i64,
    pub factor_skip: i64,
}

impl Parameter {
    /// `factor_skip / factor_size` in double precision: both factors are
    /// converted first, and the quotient is rounded once more.
    pub open spec fn spec_ratio(self) -> Double {
        Double::spec_of(self.factor_skip as int).spec_div(Double::spec_of(self.factor_size as int))
    }

    /// The reward for a skip measured in kilobytes of index.
    pub fn ratio(&self) -> (r: Double)
        ensures
            r == self.spec_ratio(),
            r.within(157),
    {
        proof {
            Double::lemma_of_within(self.factor_skip as int);
            Double::lemma_of_within(self.factor_size as int);
            Double::lemma_div_within(
                Double::spec_of(self.factor_skip as int),
                Double::spec_of(self.factor_size as int),
                52,
                52,
            );
        }
        Double::of_i64(self.factor_skip).div(Double::of_i64(self.factor_size))
    }
}

pub proof fn lemma_ratio_within(parameter: Parameter)
    ensures
        parameter.spec_ratio().within(157),
{
    Double::lemma_of_within(parameter.factor_skip as int);
    Double::lemma_of_within(parameter.factor_size as int);
    Double::lemma_div_within(
        Double::spec_of(parameter.factor_skip as int),
        Double::spec_of(parameter.factor_size as int),
        52,
        52,
    );
}

/// For a price, the ratio is the quotient of the factors, off by at most four parts in 2^52,
/// and negative where a skip costs. Without a price it is infinite, or nothing where there
/// is no reward either.
pub proof fn ratio_is_the_quotient(parameter: Parameter)
    ensures
        parameter.factor_size > 0 && parameter.factor_skip >= 0 ==> near(
            parameter.spec_ratio(),
            parameter.factor_skip as nat,
            parameter.factor_size as nat,
            4,
        ),
        parameter.factor_size > 0 && parameter.factor_skip < 0 ==> parameter.spec_ratio().spec_lt(
            Double::zero(),
        ),
        parameter.factor_size == 0 && parameter.factor_skip != 0 ==> parameter.spec_ratio() == (
        Double::Infinite { negative: parameter.factor_skip < 0 }),
        parameter.factor_size == 0 && parameter.factor_skip == 0 ==> parameter.spec_ratio()
            == Double::NotANumber,
{
    let skip = Double::spec_of(parameter.factor_skip as int);
    let size = Double::spec_of(parameter.factor_size as int);
    Double::lemma_of_within(parameter.factor_skip as int);
    Double::lemma_of_within(parameter.factor_size as int);
    lemma_of_sign(parameter.factor_skip as int);
    if parameter.factor_size > 0 && parameter.factor_skip >= 0 {
        near_decimal(parameter.factor_skip as nat, parameter.factor_size as nat);
    }
    Double::lemma_div_within(skip, size, 52, 52);
}

proof fn lemma_quotient_error(u: int, skip: int, size: int, a: int, b: int, q: int)
    requires
        u > 0,
        0x20_0000_0000_0000 * size_of(skip * u - a) <= size_of(a),
        0x20_0000_0000_0000 * size_of(size * u - b) <= size_of(b),
        0x20_0000_0000_0000 * size_of(a * u - q * b) <= size_of(q * b),
    ensures
        0x4_0000_0000_0000 * size_of(q * size - skip * u) <= size_of(skip * u),
{
    let x = (skip * u) * u;
    let y = q * (size * u);
    let au = a * u;
    let qb = q * b;
    assert(size_of((skip * u - a) * u) == size_of(skip * u - a) * u && size_of(a * u) == size_of(a)
        * u) by (nonlinear_arith)
        requires
            u > 0,
    ;
    let e = size_of(skip * u - a) as int;
    let f = size_of(a) as int;
    assert(0x20_0000_0000_0000 * (e * u) <= f * u) by (nonlinear_arith)
        requires
            0x20_0000_0000_0000 * e <= f,
            u > 0,
    ;
    assert((skip * u - a) * u == x - au) by (nonlinear_arith)
        requires
            x == (skip * u) * u,
            au == a * u,
    ;
    assert(0x20_0000_0000_0000 * size_of(x - au) <= size_of(au));
    assert(size_of(q * (size * u - b)) == size_of(q) * size_of(size * u - b) && size_of(q * b)
        == size_of(q) * size_of(b)) by (nonlinear_arith);
    let g = size_of(size * u - b) as int;
    let h = size_of(b) as int;
    let k = size_of(q) as int;
    assert(0x20_0000_0000_0000 * (k * g) <= k * h) by (nonlinear_arith)
        requires
            0x20_0000_0000_0000 * g <= h,
            k >= 0,
    ;
    assert(q * (size * u - b) == y - qb) by (nonlinear_arith)
        requires
            y == q * (size * u),
            qb == q * b,
    ;
    assert(0x20_0000_0000_0000 * size_of(y - qb) <= size_of(qb));
    lemma_errors_add_up(x, y, au, qb);
    assert((q * size - skip * u) * u == y - x) by (nonlinear_arith)
        requires
            y == q * (size * u),
            x == (skip * u) * u,
    ;
    let d = q * size - skip * u;
    let w = skip * u;
    assert(size_of(d * u) == size_of(d) * u && size_of(w * u) == size_of(w) * u)
        by (nonlinear_arith)
        requires
            u > 0,
    ;
    let m = size_of(d) as int;
    let n = size_of(w) as int;
    assert(0x4_0000_0000_0000 * m <= n) by (nonlinear_arith)
        requires
            0x4_0000_0000_0000 * (m * u) <= n * u,
            u > 0,
    ;
}

proof fn lemma_errors_add_up(x: int, y: int, au: int, qb: int)
    requires
        0x20_0000_0000_0000 * size_of(x - au) <= size_of(au),
        0x20_0000_0000_0000 * size_of(y - qb) <= size_of(qb),
        0x20_0000_0000_0000 * size_of(au - qb) <= size_of(qb),
    ensures
        0x4_0000_0000_0000 * size_of(y - x) <= size_of(x),
{
    let s = size_of(x) as int;
    assert(size_of(au) <= 2 * s);
    assert(size_of(qb) <= 4 * s);
    assert(0x20_0000_0000_0000 * size_of(y - x) <= 10 * s);
}

/// For every price but zero, the ratio times the price is the reward, up to eight parts in
/// 2^53, whatever the signs.
pub proof fn ratio_times_the_price(parameter: Parameter)
    requires
        parameter.factor_size != 0,
    ensures
        parameter.spec_ratio() is Finite,
        0x4_0000_0000_0000 * size_of(
            scaled(parameter.spec_ratio()) * parameter.factor_size - parameter.factor_skip * unit(),
        ) <= size_of(parameter.factor_skip * unit()),
{
    let skip = parameter.factor_skip as int;
    let size = parameter.factor_size as int;
    lemma_unit();
    vstd::arithmetic::power2::lemma2_to64();
    vstd::arithmetic::power2::lemma2_to64_rest();
    Double::lemma_of_within(skip);
    Double::lemma_of_within(size);
    nearest_is_close(skip, 0, 63);
    nearest_is_close(size, 0, 63);
    quotient_is_close(Double::spec_of(skip), Double::spec_of(size));
    lemma_quotient_error(
        unit() as int,
        skip,
        size,
        scaled(Double::spec_of(skip)),
        scaled(Double::spec_of(size)),
        scaled(parameter.spec_ratio()),
    );
}

proof fn lemma_of_sign(x: int)
    ensures
        x != 0 ==> (Double::spec_of(x) matches Double::Finite { negative, .. } && negative == (x
            < 0)),
{
    let a: nat = if x < 0 { -x as nat } else { x as nat };
    lemma_scaled_up_sign(x < 0, a, 0);
    lemma_scaled_down_sign(x < 0, a, 1, 0);
}

/// For factors of moderate size, the ratio lies above or below a threshold just when the
/// factors do.
pub proof fn ratio_compares(parameter: Parameter, n: nat, d: nat)
    requires
        0 < parameter.factor_size < MANTISSA_END,
        -(MANTISSA_END as int) < parameter.factor_skip < MANTISSA_END,
        n < MANTISSA_END,
        0 < d < MANTISSA_END,
        n * parameter.factor_size <= 0x1000_0000_0000,
    ensures
        parameter.spec_ratio().spec_above(n, d) <==> n * parameter.factor_size
            < parameter.factor_skip * d,
        n > 0 ==> (parameter.spec_ratio().spec_below(n, d) <==> parameter.factor_skip * d < n
            * parameter.factor_size),
{
    let skip = parameter.factor_skip as int;
    let size = parameter.factor_size as int;
    if skip >= 0 {
        decimals_compare(skip as nat, size as nat, n, d);
    } else {
        Double::lemma_of_within(skip);
        Double::lemma_of_within(size);
        lemma_of_sign(skip);
        lemma_of_sign(size);
        Double::lemma_decimal_within(n, d);
        assert(skip * d < 0 && n * size >= 0) by (nonlinear_arith)
            requires
                skip < 0,
                d > 0,
                size > 0,
        ;
        assert(parameter.spec_ratio() matches Double::Finite { negative, .. } && negative);
    }
}

} // verus!
