//! The sizes of Bloom filters.
use vstd::prelude::*;

use crate::double::Double;
use crate::exact::{
    lemma_unit, near_decimal, near_div, near_mul, near_of, scaled, unit, whole_parts_are_next,
};
use crate::order::{div_is_monotone, mul_is_monotone, of_is_monotone, whole_part_is_monotone};

verus! {

/// `n`, moved into the range from `lo` to `hi`.
pub open spec fn clamped(n: nat, lo: nat, hi: nat) -> nat {
    if n < lo {
        lo
    } else if n > hi {
        hi
    } else {
        n
    }
}

/// A number in the range stays, and any other becomes the nearest one in it.
pub proof fn clamped_is_nearest(n: nat, lo: nat, hi: nat, other: nat)
    requires
        lo <= other <= hi,
    ensures
        lo <= clamped(n, lo, hi) <= hi,
        (if n < clamped(n, lo, hi) { clamped(n, lo, hi) - n } else { n - clamped(n, lo, hi) })
            <= (if n < other { other - n } else { n - other }),
{
}

/// The natural logarithm of two.
pub open spec fn ln_2() -> Double {
    Double::spec_decimal(6931471805599453, 10_000_000_000_000_000)
}

/// The square of the natural logarithm of two.
pub open spec fn ln_2_squared() -> Double {
    Double::spec_decimal(4804530139182014, 10_000_000_000_000_000)
}

/// The bytes of the best filter for so many values, where `exponent` is the negated
/// natural logarithm of the rate of false positives that it aims at.
pub open spec fn optimal_bytes(exponent: Double, count: nat) -> nat {
    (Double::spec_of(count as int).spec_mul(exponent).spec_div(ln_2_squared()).spec_ceil() + 7) / 8
}

/// The best number of probes into a filter of so many bytes for so many values,
/// before it is rounded to an integer.
pub open spec fn optimal_probes(bloom_size: nat, count: nat) -> Double {
    Double::spec_decimal(8 * bloom_size, count).spec_mul(ln_2())
}

/// More values take no smaller filter, and no value takes none.
pub proof fn optimal_bytes_grow(exponent: Double, n1: nat, n2: nat)
    requires
        exponent.within(157),
        exponent.is_natural(),
        n1 <= n2 <= u64::MAX,
    ensures
        optimal_bytes(exponent, n1) <= optimal_bytes(exponent, n2),
        optimal_bytes(exponent, 0) == 0,
{
    let a = Double::spec_of(n1 as int);
    let b = Double::spec_of(n2 as int);
    let square = ln_2_squared();
    Double::lemma_of_within(n1 as int);
    Double::lemma_of_within(n2 as int);
    Double::lemma_decimal_within(4804530139182014, 10_000_000_000_000_000);
    Double::lemma_mul_within(a, exponent, 157, 157);
    Double::lemma_mul_within(b, exponent, 157, 157);
    Double::lemma_div_within(a.spec_mul(exponent), square, 368, 157);
    Double::lemma_div_within(b.spec_mul(exponent), square, 368, 157);
    of_is_monotone(n1, n2);
    mul_is_monotone(a, b, exponent);
    div_is_monotone(a.spec_mul(exponent), b.spec_mul(exponent), square);
    whole_part_is_monotone(
        a.spec_mul(exponent).spec_div(square),
        b.spec_mul(exponent).spec_div(square),
    );
    lemma_zero_bytes(exponent);
}

proof fn lemma_zero_bytes(exponent: Double)
    requires
        exponent.is_natural(),
    ensures
        optimal_bytes(exponent, 0) == 0,
{
    let square = ln_2_squared();
    Double::lemma_decimal_within(4804530139182014, 10_000_000_000_000_000);
    assert(Double::spec_of(0) == Double::zero());
    assert(Double::zero().spec_mul(exponent) == Double::zero());
    assert(Double::zero().spec_div(square) == Double::zero());
    assert(Double::zero().spec_ceil() == 0) by {
        assert(0 * vstd::arithmetic::power2::pow2(0) == 0) by (nonlinear_arith);
    }
}

/// The bytes of the best filter hold the bits that the exponent asks for, and no whole byte
/// more. Rounding leaves open thirteen parts in 2^52.
pub proof fn optimal_bytes_hold_the_bits(n: nat, d: nat, count: nat)
    requires
        n <= u64::MAX,
        0 < d <= u64::MAX,
        count <= u64::MAX,
    ensures
        ({
            let bytes = optimal_bytes(Double::spec_decimal(n, d), count) as int;
            let wanted = count * n * 10_000_000_000_000_000;
            let scale = d * 4804530139182014;
            &&& wanted * 0xf_ffff_ffff_fff3 <= 8 * bytes * scale * 0x10_0000_0000_0000
            &&& count > 0 && n > 0 ==> (8 * bytes - 8) * scale * 0x10_0000_0000_0000 < wanted
                * 0x10_0000_0000_000d
        }),
{
    let c = Double::spec_of(count as int);
    let e = Double::spec_decimal(n, d);
    let l = ln_2_squared();
    near_of(count);
    near_decimal(n, d);
    near_decimal(4804530139182014, 10_000_000_000_000_000);
    Double::lemma_of_within(count as int);
    Double::lemma_decimal_within(4804530139182014, 10_000_000_000_000_000);
    Double::lemma_mul_within(c, e, 157, 157);
    near_mul(c, count, 1, 1, e, n, d, 4);
    assert(1 * d == d) by (nonlinear_arith);
    near_div(c.spec_mul(e), count * n, d, 7, l, 4804530139182014, 10_000_000_000_000_000, 4);
    let x = c.spec_mul(e).spec_div(l);
    Double::lemma_div_within(c.spec_mul(e), l, 368, 157);
    whole_parts_are_next(x);
    lemma_unit();
    let u = unit() as int;
    let v = scaled(x);
    let bits = x.spec_ceil() as int;
    let bytes = (bits + 7) / 8;
    let p = 0x10_0000_0000_0000int;
    let wanted = (count * n * 10_000_000_000_000_000) as int;
    let scale = (d * 4804530139182014) as int;
    assert(8 * bytes - 8 <= bits - 1 && bits <= 8 * bytes);
    assert(v <= 8 * bytes * u) by (nonlinear_arith)
        requires
            v <= bits * u,
            bits <= 8 * bytes,
            u > 0,
    ;
    assert((8 * bytes - 8) * u < v) by (nonlinear_arith)
        requires
            (bits - 1) * u < v,
            8 * bytes - 8 <= bits - 1,
            u > 0,
    ;
    assert(wanted * 0xf_ffff_ffff_fff3 <= 8 * bytes * scale * p) by {
        lemma_bits_below(wanted, u, v, scale, p, 8 * bytes, 0xf_ffff_ffff_fff3);
    }
    assert((8 * bytes - 8) * scale * p < wanted * 0x10_0000_0000_000d || wanted == 0) by {
        lemma_bits_above(wanted, u, v, scale, p, 8 * bytes - 8, 0x10_0000_0000_000d);
    }
    if count > 0 && n > 0 {
        assert(wanted > 0) by (nonlinear_arith)
            requires
                wanted == count * n * 10_000_000_000_000_000,
                count > 0,
                n > 0,
        ;
    }
}

proof fn lemma_bits_below(w: int, u: int, v: int, s: int, p: int, b: int, f: int)
    requires
        (w * u) * f <= (v * s) * p,
        v <= b * u,
        u > 0,
        s > 0,
        p > 0,
    ensures
        w * f <= b * s * p,
{
    assert((v * s) * p <= ((b * u) * s) * p) by (nonlinear_arith)
        requires
            v <= b * u,
            s > 0,
            p > 0,
    ;
    assert((w * u) * f == (w * f) * u && ((b * u) * s) * p == (b * s * p) * u) by (nonlinear_arith);
    assert(w * f <= b * s * p) by (nonlinear_arith)
        requires
            (w * f) * u <= (b * s * p) * u,
            u > 0,
    ;
}

proof fn lemma_bits_above(w: int, u: int, v: int, s: int, p: int, b: int, f: int)
    requires
        (v * s) * p <= (w * u) * f,
        b * u < v,
        u > 0,
        s > 0,
        p > 0,
    ensures
        b * s * p < w * f,
{
    assert(((b * u) * s) * p < (v * s) * p) by (nonlinear_arith)
        requires
            b * u < v,
            s > 0,
            p > 0,
    ;
    assert((w * u) * f == (w * f) * u && ((b * u) * s) * p == (b * s * p) * u) by (nonlinear_arith);
    assert(b * s * p < w * f) by (nonlinear_arith)
        requires
            (b * s * p) * u < (w * f) * u,
            u > 0,
    ;
}

/// A filter takes `bits` thousandths of a bit for a value, up to a thousandth, where that
/// is the measure of the exponent `n / d`.
pub proof fn filters_take_bits_for_values(
    n: nat,
    d: nat,
    bits: nat,
    count: nat,
    lo: nat,
    hi: nat,
)
    requires
        0 < n <= u64::MAX,
        0 < d <= u64::MAX,
        count <= u64::MAX,
        0 < bits,
        lo <= hi,
        (bits - 1) * (d * 4804530139182014) * 0x10_0000_0000_0000 <= 1000 * (n
            * 10_000_000_000_000_000) * 0xf_ffff_ffff_fff3,
        1000 * (n * 10_000_000_000_000_000) * 0x10_0000_0000_000d <= (bits + 1) * (d
            * 4804530139182014) * 0x10_0000_0000_0000,
    ensures
        ({
            let size = clamped(optimal_bytes(Double::spec_decimal(n, d), count), lo, hi);
            &&& size < hi ==> bits * count <= 8000 * size + count
            &&& size > lo ==> 8000 * size <= bits * count + count + 8000
        }),
{
    let exponent = Double::spec_decimal(n, d);
    let bytes = optimal_bytes(exponent, count) as int;
    let scale = (d * 4804530139182014) as int;
    let m = (n * 10_000_000_000_000_000) as int;
    let p = 0x10_0000_0000_0000int;
    Double::lemma_decimal_within(n, d);
    optimal_bytes_hold_the_bits(n, d, count);
    optimal_bytes_grow(exponent, 0, count);
    assert(count * n * 10_000_000_000_000_000 == count * m) by (nonlinear_arith)
        requires
            m == n * 10_000_000_000_000_000,
    ;
    lemma_bits_per_value(count as int, m, scale, p, bytes, bits as int);
    if count > 0 {
        lemma_bytes_per_value(count as int, m, scale, p, bytes, bits as int);
    }
}

proof fn lemma_bits_per_value(c: int, m: int, s: int, p: int, b: int, k: int)
    requires
        c >= 0,
        s > 0,
        p == 0x10_0000_0000_0000,
        (c * m) * 0xf_ffff_ffff_fff3 <= 8 * b * s * p,
        (k - 1) * s * p <= 1000 * m * 0xf_ffff_ffff_fff3,
    ensures
        k * c <= 8000 * b + c,
{
    assert(((k - 1) * s * p) * c <= (1000 * m * 0xf_ffff_ffff_fff3) * c) by (nonlinear_arith)
        requires
            (k - 1) * s * p <= 1000 * m * 0xf_ffff_ffff_fff3,
            c >= 0,
    ;
    assert((1000 * m * 0xf_ffff_ffff_fff3) * c == 1000 * ((c * m) * 0xf_ffff_ffff_fff3))
        by (nonlinear_arith);
    let q = s * p;
    assert(((k - 1) * s * p) * c == ((k - 1) * c) * q && 8 * b * s * p == (8 * b) * q)
        by (nonlinear_arith)
        requires
            q == s * p,
    ;
    assert(q > 0) by (nonlinear_arith)
        requires
            q == s * p,
            s > 0,
            p > 0,
    ;
    assert((k - 1) * c <= 8000 * b) by (nonlinear_arith)
        requires
            ((k - 1) * c) * q <= 1000 * ((8 * b) * q),
            q > 0,
    ;
    assert((k - 1) * c == k * c - c) by (nonlinear_arith);
}

proof fn lemma_bytes_per_value(c: int, m: int, s: int, p: int, b: int, k: int)
    requires
        c > 0,
        s > 0,
        p == 0x10_0000_0000_0000,
        (8 * b - 8) * s * p < (c * m) * 0x10_0000_0000_000d,
        1000 * m * 0x10_0000_0000_000d <= (k + 1) * s * p,
    ensures
        8000 * b <= k * c + c + 8000,
{
    assert((1000 * m * 0x10_0000_0000_000d) * c <= ((k + 1) * s * p) * c) by (nonlinear_arith)
        requires
            1000 * m * 0x10_0000_0000_000d <= (k + 1) * s * p,
            c > 0,
    ;
    assert((1000 * m * 0x10_0000_0000_000d) * c == 1000 * ((c * m) * 0x10_0000_0000_000d))
        by (nonlinear_arith);
    let q = s * p;
    assert(((k + 1) * s * p) * c == ((k + 1) * c) * q && (8 * b - 8) * s * p == (8 * b - 8) * q)
        by (nonlinear_arith)
        requires
            q == s * p,
    ;
    assert(q > 0) by (nonlinear_arith)
        requires
            q == s * p,
            s > 0,
            p > 0,
    ;
    assert(1000 * (8 * b - 8) <= (k + 1) * c) by (nonlinear_arith)
        requires
            1000 * ((8 * b - 8) * q) <= ((k + 1) * c) * q,
            q > 0,
    ;
    assert((k + 1) * c == k * c + c) by (nonlinear_arith);
}

/// The best number of probes is 0.693 times the bits for a value, rounded up or to the
/// nearest integer.
pub proof fn probes_follow_the_load(bloom_size: nat, count: nat)
    requires
        8 * bloom_size <= u64::MAX,
        0 < count <= u64::MAX,
    ensures
        ({
            let x = optimal_probes(bloom_size, count);
            let up = x.spec_ceil() as int;
            let round = x.spec_round() as int;
            let bits = 8 * bloom_size;
            &&& bits * 6931 <= 10000 * up * count
            &&& 10000 * (up - 1) * count <= bits * 6932
            &&& bits * 6931 <= 5000 * (2 * round + 1) * count
            &&& 5000 * (2 * round - 1) * count <= bits * 6932
        }),
{
    let bits = 8 * bloom_size;
    let load = Double::spec_decimal(bits, count);
    let l = ln_2();
    near_decimal(bits, count);
    near_decimal(6931471805599453, 10_000_000_000_000_000);
    near_mul(load, bits, count, 4, l, 6931471805599453, 10_000_000_000_000_000, 4);
    Double::lemma_mul_within(load, l, 157, 157);
    let x = load.spec_mul(l);
    whole_parts_are_next(x);
    lemma_unit();
    let u = unit() as int;
    let v = scaled(x);
    let p = 0x10_0000_0000_0000int;
    let c = count as int;
    let b = bits as int;
    // 10000 v c lies between 6931 b u and 6932 b u
    lemma_load(b, c, u, v);
    let up = x.spec_ceil() as int;
    let round = x.spec_round() as int;
    lemma_load_bound(b, c, u, v, up, 10000, 6931, 6932);
    lemma_load_round(b, c, u, v, round);
}

proof fn lemma_load(b: int, c: int, u: int, v: int)
    requires
        b >= 0,
        c > 0,
        u > 0,
        (v * (c * 10_000_000_000_000_000)) * 0x10_0000_0000_0000 <= ((b * 6931471805599453) * u)
            * 0x10_0000_0000_000a,
        ((b * 6931471805599453) * u) * 0xf_ffff_ffff_fff6 <= (v * (c * 10_000_000_000_000_000))
            * 0x10_0000_0000_0000,
    ensures
        6931 * (b * u) <= 10000 * (v * c) <= 6932 * (b * u),
{
    let w = v * c;
    let z = b * u;
    assert(v * (c * 10_000_000_000_000_000) == w * 10_000_000_000_000_000) by (nonlinear_arith)
        requires
            w == v * c,
    ;
    assert((b * 6931471805599453) * u == z * 6931471805599453) by (nonlinear_arith)
        requires
            z == b * u,
    ;
    assert(z >= 0) by (nonlinear_arith)
        requires
            z == b * u,
            b >= 0,
            u > 0,
    ;
}

proof fn lemma_load_bound(b: int, c: int, u: int, v: int, k: int, t: int, lo: int, hi: int)
    requires
        c > 0,
        u > 0,
        t > 0,
        lo * (b * u) <= t * (v * c) <= hi * (b * u),
        (k - 1) * u < v <= k * u,
    ensures
        b * lo <= t * k * c,
        t * (k - 1) * c <= b * hi,
{
    assert(v * c <= (k * u) * c && ((k - 1) * u) * c <= v * c) by (nonlinear_arith)
        requires
            (k - 1) * u < v <= k * u,
            c > 0,
    ;
    assert(t * (v * c) <= t * ((k * u) * c) && t * (((k - 1) * u) * c) <= t * (v * c))
        by (nonlinear_arith)
        requires
            v * c <= (k * u) * c,
            ((k - 1) * u) * c <= v * c,
            t > 0,
    ;
    assert(t * ((k * u) * c) == (t * k * c) * u && t * (((k - 1) * u) * c) == (t * (k - 1) * c) * u
        && lo * (b * u) == (b * lo) * u && hi * (b * u) == (b * hi) * u) by (nonlinear_arith);
    assert(b * lo <= t * k * c) by (nonlinear_arith)
        requires
            (b * lo) * u <= (t * k * c) * u,
            u > 0,
    ;
    assert(t * (k - 1) * c <= b * hi) by (nonlinear_arith)
        requires
            (t * (k - 1) * c) * u <= (b * hi) * u,
            u > 0,
    ;
}

proof fn lemma_load_round(b: int, c: int, u: int, v: int, k: int)
    requires
        c > 0,
        u > 0,
        6931 * (b * u) <= 10000 * (v * c) <= 6932 * (b * u),
        (2 * k - 1) * u <= 2 * v < (2 * k + 1) * u,
    ensures
        b * 6931 <= 5000 * (2 * k + 1) * c,
        5000 * (2 * k - 1) * c <= b * 6932,
{
    let g = 2 * k + 1;
    let h = 2 * k - 1;
    assert(2 * (v * c) <= (g * u) * c && (h * u) * c <= 2 * (v * c)) by (nonlinear_arith)
        requires
            h * u <= 2 * v < g * u,
            c > 0,
    ;
    assert((g * u) * c == (g * c) * u && (h * u) * c == (h * c) * u) by (nonlinear_arith);
    assert(b * 6931 <= 5000 * (g * c)) by (nonlinear_arith)
        requires
            6931 * (b * u) <= 5000 * ((g * c) * u),
            u > 0,
    ;
    assert(5000 * (h * c) <= b * 6932) by (nonlinear_arith)
        requires
            5000 * ((h * c) * u) <= 6932 * (b * u),
            u > 0,
    ;
    assert(5000 * (g * c) == 5000 * g * c && 5000 * (h * c) == 5000 * h * c) by (nonlinear_arith);
}

/// The bytes of the best filter, moved into a range.
pub fn bloom_bytes(exponent: Double, count: usize, lo: usize, hi: usize) -> (size: usize)
    requires
        exponent.within(157),
        exponent.is_natural(),
        lo <= hi,
        8 * hi <= usize::MAX,
    ensures
        size == clamped(optimal_bytes(exponent, count as nat), lo as nat, hi as nat),
        lo <= size <= hi,
{
    let square = Double::decimal(4804530139182014, 10_000_000_000_000_000);
    let n = Double::of_u64(count as u64);
    proof {
        Double::lemma_mul_within(n, exponent, 157, 157);
        Double::lemma_div_within(n.spec_mul(exponent), square, 368, 157);
    }
    let bits = n.mul(exponent).div(square).ceil();
    if bits > 8 * hi as u64 {
        return hi;
    }
    let bytes: usize = ((bits + 7) / 8) as usize;
    if bytes < lo {
        lo
    } else if bytes > hi {
        hi
    } else {
        bytes
    }
}

/// The best number of probes.
pub fn probes(bloom_size: usize, count: usize) -> (r: Double)
    requires
        8 * bloom_size <= usize::MAX,
        count > 0,
    ensures
        r == optimal_probes(bloom_size as nat, count as nat),
        r.within(368),
        r.is_natural(),
{
    let load = Double::decimal(8 * bloom_size as u64, count as u64);
    let ln = Double::decimal(6931471805599453, 10_000_000_000_000_000);
    proof {
        Double::lemma_mul_within(load, ln, 157, 157);
    }
    load.mul(ln)
}

} // verus!
