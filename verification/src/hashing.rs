//! The hash functions of the Bloom filters. Each maps a value and a seed to 64
//! bits; the seed tells the probes of one value apart.
use vstd::arithmetic::div_mod::{lemma_mul_mod_noop_left, lemma_mul_mod_noop_right, lemma_small_mod};
use vstd::prelude::*;

use crate::bytes::{i32_bytes, pattern, pattern_of};

verus! {

/// A family of hash functions, one for each seed.
pub trait HashFamily {
    spec fn hash(value: i32, seed: u32) -> u64;

    fn hash_value(value: i32, seed: u32) -> (h: u64)
        ensures
            h == Self::hash(value, seed),
    ;
}

/// The value sign-extended to 64 bits.
pub open spec fn extended(value: i32) -> u64 {
    if value < 0 {
        (value + 0x1_0000_0000_0000_0000) as u64
    } else {
        value as u64
    }
}

fn extend(value: i32) -> (x: u64)
    ensures
        x == extended(value),
{
    if value < 0 {
        (value as i128 + 0x1_0000_0000_0000_0000) as u64
    } else {
        value as u64
    }
}

/// The product modulo 2^64.
pub open spec fn times(a: u64, b: u64) -> u64 {
    ((a * b) % 0x1_0000_0000_0000_0000) as u64
}

/// FNV-1a over the four bytes of the value, with the seed mixed into the offset.
pub struct Fnv;

pub open spec fn fnv_step(hash: u64, byte: u8) -> u64 {
    times(hash ^ (byte as u64), 0x100000001b3)
}

impl HashFamily for Fnv {
    open spec fn hash(value: i32, seed: u32) -> u64 {
        let x = pattern(value);
        let h0 = 0xcbf29ce484222325u64 ^ (seed as u64);
        let h1 = fnv_step(h0, (x % 256) as u8);
        let h2 = fnv_step(h1, (x / 0x100 % 256) as u8);
        let h3 = fnv_step(h2, (x / 0x1_0000 % 256) as u8);
        fnv_step(h3, (x / 0x100_0000) as u8)
    }

    fn hash_value(value: i32, seed: u32) -> (h: u64) {
        let x = pattern_of(value);
        let mut h: u64 = 0xcbf29ce484222325u64 ^ (seed as u64);
        h = (h ^ ((x % 256) as u8 as u64)).wrapping_mul(0x100000001b3);
        h = (h ^ ((x / 0x100 % 256) as u8 as u64)).wrapping_mul(0x100000001b3);
        h = (h ^ ((x / 0x1_0000 % 256) as u8 as u64)).wrapping_mul(0x100000001b3);
        (h ^ ((x / 0x100_0000) as u8 as u64)).wrapping_mul(0x100000001b3)
    }
}

/// A multiplication followed by the finalizer of SplitMix64.
pub struct SplitMix;

impl HashFamily for SplitMix {
    open spec fn hash(value: i32, seed: u32) -> u64 {
        let x0 = times(extended(value) ^ (seed as u64), 0x9E3779B97F4A7C15);
        let x1 = times(x0 ^ (x0 >> 30), 0xBF58476D1CE4E5B9);
        let x2 = times(x1 ^ (x1 >> 27), 0x94D049BB133111EB);
        x2 ^ (x2 >> 31)
    }

    fn hash_value(value: i32, seed: u32) -> (h: u64) {
        let mut x: u64 = extend(value);
        x = x ^ (seed as u64);
        x = x.wrapping_mul(0x9E3779B97F4A7C15u64);
        x = x ^ (x >> 30);
        x = x.wrapping_mul(0xBF58476D1CE4E5B9u64);
        x = x ^ (x >> 27);
        x = x.wrapping_mul(0x94D049BB133111EBu64);
        x ^ (x >> 31)
    }
}

/// The finalizer of MurmurHash3.
pub struct Murmur;

impl HashFamily for Murmur {
    open spec fn hash(value: i32, seed: u32) -> u64 {
        let h0 = extended(value) ^ (seed as u64);
        let h1 = times(h0 ^ (h0 >> 33), 0xff51afd7ed558ccd);
        let h2 = times(h1 ^ (h1 >> 33), 0xc4ceb9fe1a85ec53);
        h2 ^ (h2 >> 33)
    }

    fn hash_value(value: i32, seed: u32) -> (h: u64) {
        let mut h: u64 = extend(value);
        h = h ^ (seed as u64);
        h = h ^ (h >> 33);
        h = h.wrapping_mul(0xff51afd7ed558ccdu64);
        h = h ^ (h >> 33);
        h = h.wrapping_mul(0xc4ceb9fe1a85ec53u64);
        h ^ (h >> 33)
    }
}

proof fn lemma_times_undone(a: u64, p: u64, q: u64)
    requires
        (p * q) % 0x1_0000_0000_0000_0000 == 1,
    ensures
        (times(a, p) * q) % 0x1_0000_0000_0000_0000 == a,
{
    let m = 0x1_0000_0000_0000_0000int;
    lemma_mul_mod_noop_left(a * p, q as int, m);
    assert((a * p) * q == a * (p * q)) by (nonlinear_arith);
    lemma_mul_mod_noop_right(a as int, p * q, m);
    lemma_small_mod(a as nat, m as nat);
}

proof fn lemma_xor_undone(a: u64, b: u64)
    ensures
        (a ^ b) ^ b == a,
{
    assert((a ^ b) ^ b == a) by (bit_vector);
}

/// A step of FNV-1a is undone by the inverse of the prime.
proof fn lemma_fnv_undone(hash: u64, byte: u8)
    ensures
        (((fnv_step(hash, byte) * 0xce965057aff6957bu64) % 0x1_0000_0000_0000_0000) as u64) ^ (
        byte as u64) == hash,
{
    assert((0x100000001b3u64 * 0xce965057aff6957bu64) % 0x1_0000_0000_0000_0000 == 1);
    lemma_times_undone(hash ^ (byte as u64), 0x100000001b3, 0xce965057aff6957b);
    lemma_xor_undone(hash, byte as u64);
}

/// Undoing the four steps of FNV-1a, from the highest byte of the value to the lowest, leads
/// back to the offset basis and the seed.
pub proof fn fnv_is_undone(value: i32, seed: u32)
    ensures
        ({
            let inverse = 0xce965057aff6957bu64;
            let m = 0x1_0000_0000_0000_0000int;
            let bytes = i32_bytes(value);
            let h4 = Fnv::hash(value, seed);
            let h3 = ((h4 * inverse) % m) as u64 ^ (bytes[3] as u64);
            let h2 = ((h3 * inverse) % m) as u64 ^ (bytes[2] as u64);
            let h1 = ((h2 * inverse) % m) as u64 ^ (bytes[1] as u64);
            let h0 = ((h1 * inverse) % m) as u64 ^ (bytes[0] as u64);
            h0 == 0xcbf29ce484222325u64 ^ (seed as u64)
        }),
{
    let bytes = i32_bytes(value);
    let h0 = 0xcbf29ce484222325u64 ^ (seed as u64);
    let h1 = fnv_step(h0, bytes[0]);
    let h2 = fnv_step(h1, bytes[1]);
    let h3 = fnv_step(h2, bytes[2]);
    lemma_fnv_undone(h0, bytes[0]);
    lemma_fnv_undone(h1, bytes[1]);
    lemma_fnv_undone(h2, bytes[2]);
    lemma_fnv_undone(h3, bytes[3]);
}

/// The finalizer of SplitMix64 is undone by the shifts and the inverses of the factors, the
/// last one first, which leads back to the value and the seed.
pub proof fn split_mix_is_undone(value: i32, seed: u32)
    ensures
        ({
            let m = 0x1_0000_0000_0000_0000int;
            let h = SplitMix::hash(value, seed);
            let a = h ^ (h >> 31) ^ (h >> 62);
            let b = ((a * 0x319642b2d24d8ec3u64) % m) as u64;
            let c = b ^ (b >> 27) ^ (b >> 54);
            let d = ((c * 0x96de1b173f119089u64) % m) as u64;
            let e = d ^ (d >> 30) ^ (d >> 60);
            let f = ((e * 0xf1de83e19937733du64) % m) as u64;
            f == (if value < 0 {
                (value + m) as u64
            } else {
                value as u64
            }) ^ (seed as u64)
        }),
{
    let start = extended(value) ^ (seed as u64);
    let x0 = times(start, 0x9E3779B97F4A7C15);
    let y0 = x0 ^ (x0 >> 30);
    let x1 = times(y0, 0xBF58476D1CE4E5B9);
    let y1 = x1 ^ (x1 >> 27);
    let x2 = times(y1, 0x94D049BB133111EB);
    let y2 = x2 ^ (x2 >> 31);
    assert(y2 ^ (y2 >> 31) ^ (y2 >> 62) == x2) by (bit_vector)
        requires
            y2 == x2 ^ (x2 >> 31),
    ;
    assert(y1 ^ (y1 >> 27) ^ (y1 >> 54) == x1) by (bit_vector)
        requires
            y1 == x1 ^ (x1 >> 27),
    ;
    assert(y0 ^ (y0 >> 30) ^ (y0 >> 60) == x0) by (bit_vector)
        requires
            y0 == x0 ^ (x0 >> 30),
    ;
    assert((0x94D049BB133111EBu64 * 0x319642b2d24d8ec3u64) % 0x1_0000_0000_0000_0000 == 1);
    assert((0xBF58476D1CE4E5B9u64 * 0x96de1b173f119089u64) % 0x1_0000_0000_0000_0000 == 1);
    assert((0x9E3779B97F4A7C15u64 * 0xf1de83e19937733du64) % 0x1_0000_0000_0000_0000 == 1);
    lemma_times_undone(y1, 0x94D049BB133111EB, 0x319642b2d24d8ec3);
    lemma_times_undone(y0, 0xBF58476D1CE4E5B9, 0x96de1b173f119089);
    lemma_times_undone(start, 0x9E3779B97F4A7C15, 0xf1de83e19937733d);
}

/// The finalizer of MurmurHash3 is undone by the shifts and the inverses of the factors, the
/// last one first, which leads back to the value and the seed.
pub proof fn murmur_is_undone(value: i32, seed: u32)
    ensures
        ({
            let m = 0x1_0000_0000_0000_0000int;
            let h = Murmur::hash(value, seed);
            let a = h ^ (h >> 33);
            let b = ((a * 0x9cb4b2f8129337dbu64) % m) as u64;
            let c = b ^ (b >> 33);
            let d = ((c * 0x4f74430c22a54005u64) % m) as u64;
            let e = d ^ (d >> 33);
            e == (if value < 0 {
                (value + m) as u64
            } else {
                value as u64
            }) ^ (seed as u64)
        }),
{
    let h0 = extended(value) ^ (seed as u64);
    let y0 = h0 ^ (h0 >> 33);
    let h1 = times(y0, 0xff51afd7ed558ccd);
    let y1 = h1 ^ (h1 >> 33);
    let h2 = times(y1, 0xc4ceb9fe1a85ec53);
    lemma_shift_undone(h0);
    lemma_shift_undone(h1);
    lemma_shift_undone(h2);
    assert((0xc4ceb9fe1a85ec53u64 * 0x9cb4b2f8129337dbu64) % 0x1_0000_0000_0000_0000 == 1);
    assert((0xff51afd7ed558ccdu64 * 0x4f74430c22a54005u64) % 0x1_0000_0000_0000_0000 == 1);
    lemma_times_undone(y1, 0xc4ceb9fe1a85ec53, 0x9cb4b2f8129337db);
    lemma_times_undone(y0, 0xff51afd7ed558ccd, 0x4f74430c22a54005);
}

proof fn lemma_shift_undone(x: u64)
    ensures
        (x ^ (x >> 33)) ^ ((x ^ (x >> 33)) >> 33) == x,
{
    assert((x ^ (x >> 33)) ^ ((x ^ (x >> 33)) >> 33) == x) by (bit_vector);
}

} // verus!
