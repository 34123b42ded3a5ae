//! Bitmaps: bit `p` is the bit of weight `2^(p % 8)` of byte `p / 8`.
use std::collections::HashMap;
use vstd::prelude::*;

use crate::bytes::holds;
use crate::tally::{entries_of, has_key, keys_in_range, lists};

verus! {

/// Bit `p` of the bitmap that starts at position `base`.
pub open spec fn bit_at(s: Seq<u8>, base: int, p: int) -> bool {
    s[base + p / 8] & (1u8 << ((p % 8) as u8)) != 0
}

/// The number of values from `min_val` to `max_val`.
pub open spec fn span(min_val: i32, max_val: i32) -> int {
    max_val - min_val + 1
}

/// The number of bytes that hold this many bits.
pub open spec fn bytes_for(bits: int) -> int {
    (bits + 7) / 8
}

/// Whether the bitmap has a bit for each value from `min_val` to `max_val`, of
/// which exactly those of the values in the set are set.
pub open spec fn is_bitmap(bitmap: Seq<u8>, min_val: i32, max_val: i32, values: Set<i32>) -> bool {
    &&& bitmap.len() == bytes_for(span(min_val, max_val))
    &&& forall|p: int|
        0 <= p < 8 * bitmap.len() ==> (#[trigger] bit_at(bitmap, 0, p) <==> p < span(
            min_val,
            max_val,
        ) && values.contains((min_val + p) as i32))
}

/// The bits of a byte count from the lowest.
pub proof fn lowest_bit_first(s: Seq<u8>, base: int, p: int)
    requires
        0 <= p,
    ensures
        p % 8 == 0 ==> bit_at(s, base, p) == (s[base + p / 8] % 2 == 1),
        p % 8 == 1 ==> bit_at(s, base, p) == (s[base + p / 8] / 2 % 2 == 1),
        p % 8 == 2 ==> bit_at(s, base, p) == (s[base + p / 8] / 4 % 2 == 1),
        p % 8 == 3 ==> bit_at(s, base, p) == (s[base + p / 8] / 8 % 2 == 1),
        p % 8 == 4 ==> bit_at(s, base, p) == (s[base + p / 8] / 16 % 2 == 1),
        p % 8 == 5 ==> bit_at(s, base, p) == (s[base + p / 8] / 32 % 2 == 1),
        p % 8 == 6 ==> bit_at(s, base, p) == (s[base + p / 8] / 64 % 2 == 1),
        p % 8 == 7 ==> bit_at(s, base, p) == (s[base + p / 8] / 128 == 1),
{
    let byte = s[base + p / 8];
    assert((byte & (1u8 << 0u8) != 0) == (byte % 2 == 1) && (byte & (1u8 << 1u8) != 0) == (byte / 2
        % 2 == 1) && (byte & (1u8 << 2u8) != 0) == (byte / 4 % 2 == 1) && (byte & (1u8 << 3u8) != 0)
        == (byte / 8 % 2 == 1) && (byte & (1u8 << 4u8) != 0) == (byte / 16 % 2 == 1) && (byte & (1u8
        << 5u8) != 0) == (byte / 32 % 2 == 1) && (byte & (1u8 << 6u8) != 0) == (byte / 64 % 2 == 1)
        && (byte & (1u8 << 7u8) != 0) == (byte / 128 == 1)) by (bit_vector);
}

/// A bitmap has a bit for each value of its range, eight to a byte.
pub proof fn bitmaps_are_packed(bitmap: Seq<u8>, min_val: i32, max_val: i32, values: Set<i32>)
    requires
        is_bitmap(bitmap, min_val, max_val, values),
        min_val <= max_val,
    ensures
        max_val - min_val < 8 * bitmap.len() <= max_val - min_val + 8,
        forall|v: i32|
            min_val <= v <= max_val ==> (#[trigger] values.contains(v) <==> bit_at(
                bitmap,
                0,
                v - min_val,
            )),
{
    assert forall|v: i32| min_val <= v <= max_val implies (#[trigger] values.contains(v)
        <==> bit_at(
        bitmap,
        0,
        v - min_val,
    )) by {
        let p = v - min_val;
        assert((min_val + p) as i32 == v);
    }
}

pub proof fn lemma_bit_set(byte: u8, b: u8, c: u8)
    requires
        b < 8,
        c < 8,
    ensures
        ((byte | (1u8 << b)) & (1u8 << c) != 0) == (b == c || byte & (1u8 << c) != 0),
{
    assert(((byte | (1u8 << b)) & (1u8 << c) != 0) == (b == c || byte & (1u8 << c) != 0))
        by (bit_vector)
        requires
            b < 8,
            c < 8,
    ;
}

pub proof fn lemma_bit_clear(c: u8)
    ensures
        0u8 & (1u8 << c) == 0,
{
    assert(0u8 & (1u8 << c) == 0) by (bit_vector);
}

/// The bits of a stored bitmap are those of the bitmap.
pub proof fn lemma_bits_held(s: Seq<u8>, base: int, bitmap: Seq<u8>, p: int)
    requires
        holds(s, base, bitmap),
        0 <= p < 8 * bitmap.len(),
    ensures
        bit_at(s, base, p) == bit_at(bitmap, 0, p),
{
    assert(s.subrange(base, base + bitmap.len())[p / 8] == s[base + p / 8]);
}

proof fn lemma_byte_of_bits(x: u8, y: u8)
    requires
        forall|c: u8| c < 8 ==> (#[trigger] (x & (1u8 << c)) != 0) == (y & (1u8 << c) != 0),
    ensures
        x == y,
{
    assert((x & (1u8 << 0u8) != 0) == (y & (1u8 << 0u8) != 0));
    assert((x & (1u8 << 1u8) != 0) == (y & (1u8 << 1u8) != 0));
    assert((x & (1u8 << 2u8) != 0) == (y & (1u8 << 2u8) != 0));
    assert((x & (1u8 << 3u8) != 0) == (y & (1u8 << 3u8) != 0));
    assert((x & (1u8 << 4u8) != 0) == (y & (1u8 << 4u8) != 0));
    assert((x & (1u8 << 5u8) != 0) == (y & (1u8 << 5u8) != 0));
    assert((x & (1u8 << 6u8) != 0) == (y & (1u8 << 6u8) != 0));
    assert((x & (1u8 << 7u8) != 0) == (y & (1u8 << 7u8) != 0));
    assert(x == y) by (bit_vector)
        requires
            (x & (1u8 << 0u8) != 0) == (y & (1u8 << 0u8) != 0),
            (x & (1u8 << 1u8) != 0) == (y & (1u8 << 1u8) != 0),
            (x & (1u8 << 2u8) != 0) == (y & (1u8 << 2u8) != 0),
            (x & (1u8 << 3u8) != 0) == (y & (1u8 << 3u8) != 0),
            (x & (1u8 << 4u8) != 0) == (y & (1u8 << 4u8) != 0),
            (x & (1u8 << 5u8) != 0) == (y & (1u8 << 5u8) != 0),
            (x & (1u8 << 6u8) != 0) == (y & (1u8 << 6u8) != 0),
            (x & (1u8 << 7u8) != 0) == (y & (1u8 << 7u8) != 0),
    ;
}

/// A set of values has one bitmap.
pub proof fn bitmap_is_unique(
    a: Seq<u8>,
    b: Seq<u8>,
    min_val: i32,
    max_val: i32,
    values: Set<i32>,
)
    requires
        is_bitmap(a, min_val, max_val, values),
        is_bitmap(b, min_val, max_val, values),
    ensures
        a == b,
{
    assert forall|i: int| 0 <= i < a.len() implies a[i] == b[i] by {
        assert forall|c: u8| c < 8 implies (#[trigger] (a[i] & (1u8 << c)) != 0) == (b[i] & (1u8
            << c) != 0) by {
            let p = 8 * i + c;
            assert(p / 8 == i && p % 8 == c);
            assert(bit_at(a, 0, p) == bit_at(b, 0, p));
        }
        lemma_byte_of_bits(a[i], b[i]);
    }
    assert(a =~= b);
}

/// Sets bit `p`.
pub fn set_bit(bitmap: &mut Vec<u8>, p: usize)
    requires
        p < 8 * old(bitmap)@.len(),
    ensures
        final(bitmap)@.len() == old(bitmap)@.len(),
        forall|q: int|
            0 <= q < 8 * old(bitmap)@.len() ==> #[trigger] bit_at(final(bitmap)@, 0, q) == (q == p
                || bit_at(old(bitmap)@, 0, q)),
{
    let byte = p / 8;
    let shift = (p % 8) as u8;
    let ghost before = bitmap@;
    let old_byte = bitmap[byte];
    bitmap.set(byte, old_byte | (1u8 << shift));
    proof {
        assert forall|q: int| 0 <= q < 8 * before.len() implies #[trigger] bit_at(bitmap@, 0, q)
            == (q == p || bit_at(before, 0, q)) by {
            if q / 8 == byte {
                lemma_bit_set(old_byte, shift, (q % 8) as u8);
            }
        }
    }
}

/// Reads bit `p` of the bitmap that starts at `base`.
pub fn read_bit(s: &[u8], base: usize, p: usize) -> (r: bool)
    requires
        base + p / 8 < s@.len(),
    ensures
        r == bit_at(s@, base as int, p as int),
{
    let shift = (p % 8) as u8;
    assert(s@.len() == s.len());
    s[base + p / 8] & (1u8 << shift) != 0
}

/// The bitmap of the values that have a count.
pub fn bitmap_of(min_val: i32, max_val: i32, counts: &HashMap<i32, u64>) -> (bitmap: Vec<u8>)
    requires
        min_val <= max_val,
        span(min_val, max_val) + 7 <= usize::MAX,
        keys_in_range(counts@, min_val, max_val),
    ensures
        is_bitmap(bitmap@, min_val, max_val, counts@.dom()),
{
    let range: usize = (max_val as i64 - min_val as i64 + 1) as usize;
    let bitmap_bytes = (range + 7) / 8;
    let mut bitmap: Vec<u8> = vec![0u8;bitmap_bytes];
    let entries = entries_of(counts);
    let mut k: usize = 0;
    proof {
        assert forall|p: int| 0 <= p < 8 * bitmap@.len() implies !#[trigger] bit_at(
            bitmap@,
            0,
            p,
        ) by {
            lemma_bit_clear((p % 8) as u8);
        }
    }
    while k < entries.len()
        invariant
            min_val <= max_val,
            k <= entries@.len(),
            bitmap@.len() == bitmap_bytes,
            bitmap_bytes == bytes_for(span(min_val, max_val)),
            span(min_val, max_val) + 7 <= usize::MAX,
            lists(entries@, counts@),
            keys_in_range(counts@, min_val, max_val),
            forall|p: int|
                0 <= p < 8 * bitmap@.len() ==> (#[trigger] bit_at(bitmap@, 0, p) <==> exists|i: int|
                    0 <= i < k && (#[trigger] entries@[i]).0 == min_val + p),
        decreases entries@.len() - k,
    {
        let val = entries[k].0;
        assert(counts@.contains_key(entries@[k as int].0));
        let offset: usize = (val as i64 - min_val as i64) as usize;
        let ghost before = bitmap@;
        set_bit(&mut bitmap, offset);
        proof {
            assert forall|p: int| 0 <= p < 8 * bitmap@.len() implies (#[trigger] bit_at(
                bitmap@,
                0,
                p,
            ) <==> exists|i: int| 0 <= i < k + 1 && (#[trigger] entries@[i]).0 == min_val + p) by {
                assert(bit_at(bitmap@, 0, p) == (p == offset || bit_at(before, 0, p)));
                if bit_at(before, 0, p) {
                    let i = choose|i: int| 0 <= i < k && (#[trigger] entries@[i]).0 == min_val + p;
                    assert(entries@[i].0 == min_val + p);
                }
                if p == offset {
                    assert(entries@[k as int].0 == min_val + p);
                }
            }
        }
        k = k + 1;
    }
    proof {
        assert forall|p: int| 0 <= p < 8 * bitmap@.len() implies (#[trigger] bit_at(bitmap@, 0, p)
            <==> p < span(min_val, max_val) && counts@.dom().contains((min_val + p) as i32)) by {
            if bit_at(bitmap@, 0, p) {
                let i = choose|i: int|
                    0 <= i < entries@.len() && (#[trigger] entries@[i]).0 == min_val + p;
                assert(counts@.contains_key(entries@[i].0));
            }
            if p < span(min_val, max_val) && counts@.dom().contains((min_val + p) as i32) {
                assert(counts@.contains_key((min_val + p) as i32));
                assert(has_key(entries@, (min_val + p) as i32));
            }
        }
    }
    bitmap
}

} // verus!
