//! A bitmap with the counts for a block whose values lie close together, a complete
//! list for one with few different values, otherwise the most frequent values and
//! a Bloom filter of the others. The sizes follow the cost factors and how far the
//! counts concentrate on a few values.
use std::collections::HashMap;
use vstd::arithmetic::power2::{lemma2_to64, lemma2_to64_rest};
use vstd::prelude::*;

use crate::bitmap::{bit_at, bitmap_of, bytes_for, is_bitmap, lemma_bits_held, read_bit, span};
use crate::bytes::{
    holds, i32_at, into_boxed_slice, lemma_holds_split, lemma_holds_whole, push_all, read_i32,
};
use crate::compressed::{
    build_exact_compressed, build_hybrid_index, compressed_answer, compressed_answers,
    compressed_index, hybrid_answer, hybrid_answers, hybrid_parts, hybrid_says, is_hybrid_index,
    left_out, query_exact_compressed, query_hybrid_index, rounded_probes,
};
use crate::deltas::delta_bytes;
use crate::double::{carried, half_even, Double, MANTISSA_END};
use crate::exact::{
    decimals_compare, lemma_unit, near_decimal, near_mul, near_of, scaled, unit,
    whole_parts_are_next,
};
use crate::hashing::Murmur;
use crate::minmax::{lemma_range_header, out_of_range, push_range_header, range_header};
use crate::order::{
    above_is_monotone, lemma_decimal_shape, lemma_mantissa_order, lemma_of_shape, mul_commutes,
    mul_is_monotone, of_is_monotone, whole_part_is_monotone,
};
use crate::parameter::Parameter;
use crate::sizing::{
    bloom_bytes, clamped, filters_take_bits_for_values, optimal_bytes, optimal_bytes_grow,
};
use crate::tally::{
    ascending, ascending_entries, count_in, count_values, counts_add_up, distinct,
    distinct_fits_range, entries_by_count, has_key, highest, histogram, in_order, is_count_map,
    is_tally, is_top, keys_in_range, lemma_in_order, lemma_lists_tally, lemma_tally_lists, lists,
    lowest, max_value, min_value, most_frequent_first, occurrences, range_covers, sum_counts,
    tally_has_distinct_entries, top_sum, top_sum_of_tally,
};
use crate::topk::{filtered_lists_tell_the_listed, topk_says};
use crate::varint::{
    decode_varint, encode_varint, lemma_varint_len, u64_varint_at, u64_varint_round_trip,
    varint_bytes,
};

verus! {

pub const INDEX_EMPTY: u8 = 0;

pub const INDEX_EXACT_COMPRESSED: u8 = 1;

pub const INDEX_HYBRID: u8 = 2;

pub const INDEX_DENSE_BITMAP: u8 = 3;

/// The least number of probes of a value.
pub const MIN_HASHES: u8 = 6;

/// The greatest number of probes of a value.
pub const MAX_HASHES: u8 = 11;

/// The layouts of the index of a nonempty block.
#[derive(Clone, Copy, Debug, PartialEq, Eq, Structural)]
pub enum Layout {
    DenseBitmap,
    Exact,
    Hybrid,
}

/// The layout for a block with this many different values in a range of this many
/// places.
pub open spec fn layout(ratio: Double, distinct: nat, range: nat) -> Layout {
    if range <= 262144 && Double::spec_decimal(distinct, range).spec_above(1, 10) && bytes_for(
        range as int,
    ) < 32768 && ratio.spec_above(3, 1) {
        Layout::DenseBitmap
    } else if distinct <= 200 || (distinct <= 600 && ratio.spec_above(10, 1)) || (distinct <= 1200
        && ratio.spec_above(25, 1)) {
        Layout::Exact
    } else {
        Layout::Hybrid
    }
}

/// The layout for a block.
pub open spec fn layout_of(parameter: Parameter, data: Seq<i32>) -> Layout {
    layout(parameter.spec_ratio(), distinct(data), span(lowest(data), highest(data)) as nat)
}

/// The share of the block that the most frequent tenth of its values takes, of
/// which at least ten and at most a hundred count.
pub open spec fn concentration(data: Seq<i32>) -> Double {
    Double::spec_decimal(top_sum(data, clamped(distinct(data) / 10, 10, 100)), data.len())
}

/// The number of values to list before the concentration is taken into account.
pub open spec fn base_k(ratio: Double) -> nat {
    if ratio.spec_above(25, 1) {
        200
    } else if ratio.spec_above(15, 1) {
        150
    } else if ratio.spec_above(8, 1) {
        100
    } else if ratio.spec_above(4, 1) {
        60
    } else if ratio.spec_above(2, 1) {
        30
    } else {
        15
    }
}

/// The factor by which a concentrated block lists more.
pub open spec fn concentration_multiplier(concentration: Double) -> Double {
    if concentration.spec_above(5, 10) {
        Double::spec_decimal(15, 10)
    } else if concentration.spec_above(3, 10) {
        Double::spec_decimal(13, 10)
    } else if concentration.spec_above(15, 100) {
        Double::spec_decimal(115, 100)
    } else {
        Double::spec_decimal(1, 1)
    }
}

/// The number of values to list: at least ten, and beyond that no more than half.
pub open spec fn adaptive_top_k(ratio: Double, distinct: nat, concentration: Double) -> nat {
    let adjusted = Double::spec_of(base_k(ratio) as int).spec_mul(
        concentration_multiplier(concentration),
    ).spec_floor();
    let halved = if adjusted < distinct / 2 {
        adjusted
    } else {
        distinct / 2
    };
    if halved < 10 {
        10
    } else {
        halved
    }
}

/// The negated natural logarithm of the rate of false positives that a filter aims
/// at: 0.015 for a concentrated block, otherwise 0.003, 0.007, 0.015, 0.04 or 0.08.
pub open spec fn fpr_exponent(ratio: Double, concentration: Double) -> Double {
    if concentration.spec_above(4, 10) {
        Double::spec_decimal(4199705077879927, 1_000_000_000_000_000)
    } else if ratio.spec_above(20, 1) {
        Double::spec_decimal(5809142990314028, 1_000_000_000_000_000)
    } else if ratio.spec_above(10, 1) {
        Double::spec_decimal(4961845129926823, 1_000_000_000_000_000)
    } else if ratio.spec_above(5, 1) {
        Double::spec_decimal(4199705077879927, 1_000_000_000_000_000)
    } else if ratio.spec_above(25, 10) {
        Double::spec_decimal(6437751649736401, 2_000_000_000_000_000)
    } else {
        Double::spec_decimal(5051457288616511, 2_000_000_000_000_000)
    }
}

/// The least and the greatest number of bytes of a filter.
pub open spec fn bloom_limits(ratio: Double) -> (nat, nat) {
    (
        if ratio.spec_above(15, 1) {
            768
        } else {
            512
        },
        if ratio.spec_above(20, 1) {
            6144
        } else if ratio.spec_above(10, 1) {
            4096
        } else {
            3072
        },
    )
}

/// The bytes of the filter.
pub open spec fn adaptive_bloom_size(ratio: Double, distinct: nat, concentration: Double) -> nat {
    let (lo, hi) = bloom_limits(ratio);
    clamped(optimal_bytes(fpr_exponent(ratio, concentration), distinct), lo, hi)
}

/// The number of values to list of a block.
pub open spec fn top_k(parameter: Parameter, data: Seq<i32>) -> nat {
    adaptive_top_k(parameter.spec_ratio(), distinct(data), concentration(data))
}

/// The bytes of the filter of a block.
pub open spec fn bloom_size(parameter: Parameter, data: Seq<i32>) -> nat {
    adaptive_bloom_size(parameter.spec_ratio(), distinct(data), concentration(data))
}

/// The number of probes into the filter of a block.
pub open spec fn num_hashes(parameter: Parameter, data: Seq<i32>) -> nat {
    rounded_probes(
        bloom_size(parameter, data),
        left_out(data, top_k(parameter, data)),
        MIN_HASHES as nat,
        MAX_HASHES as nat,
    )
}

/// The counts one after the other.
pub open spec fn count_bytes(entries: Seq<(i32, u64)>) -> Seq<u8>
    decreases entries.len(),
{
    if entries.len() == 0 {
        Seq::empty()
    } else {
        count_bytes(entries.drop_last()) + varint_bytes(entries.last().1 as nat)
    }
}

/// The tag, the range, the bitmap, and the counts in the order of the values.
pub open spec fn dense_index(
    min_val: i32,
    max_val: i32,
    bitmap: Seq<u8>,
    entries: Seq<(i32, u64)>,
) -> Seq<u8> {
    range_header(INDEX_DENSE_BITMAP, min_val, max_val) + bitmap + count_bytes(entries)
}

/// Whether `index` holds the bitmap of the keys of a map and the counts.
pub open spec fn is_dense_index(
    m: Map<i32, u64>,
    min_val: i32,
    max_val: i32,
    index: Seq<u8>,
) -> bool {
    exists|bitmap: Seq<u8>, entries: Seq<(i32, u64)>|
        #![trigger dense_index(min_val, max_val, bitmap, entries)]
        lists(entries, m) && ascending(entries) && is_bitmap(bitmap, min_val, max_val, m.dom())
            && index == dense_index(min_val, max_val, bitmap, entries)
}

/// Whether `index` is an index of `data`. It is open which of equally frequent values
/// are listed.
pub open spec fn is_index(parameter: Parameter, data: Seq<i32>, index: Seq<u8>) -> bool {
    if data.len() == 0 {
        index == seq![INDEX_EMPTY]
    } else {
        match layout_of(parameter, data) {
            Layout::DenseBitmap => exists|bitmap: Seq<u8>, entries: Seq<(i32, u64)>|
                #![trigger dense_index(lowest(data), highest(data), bitmap, entries)]
                is_tally(entries, data) && ascending(entries) && is_bitmap(
                    bitmap,
                    lowest(data),
                    highest(data),
                    data.to_set(),
                ) && index == dense_index(lowest(data), highest(data), bitmap, entries),
            Layout::Exact => exists|entries: Seq<(i32, u64)>| #[trigger]
                is_tally(entries, data) && ascending(entries) && index == compressed_index(
                    INDEX_EXACT_COMPRESSED,
                    lowest(data),
                    highest(data),
                    entries,
                ),
            Layout::Hybrid => exists|top: Seq<(i32, u64)>, bloom: Seq<u8>| #[trigger]
                is_hybrid_index(
                    INDEX_HYBRID,
                    data,
                    lowest(data),
                    highest(data),
                    top_k(parameter, data),
                    num_hashes(parameter, data),
                    top,
                    bloom,
                    index,
                ) && bloom.len() == bloom_size(parameter, data),
        }
    }
}

/// The number of bits below `p` that are set.
pub open spec fn bits_before(s: Seq<u8>, base: int, p: nat) -> nat
    decreases p,
{
    if p == 0 {
        0
    } else {
        bits_before(s, base, (p - 1) as nat) + (if bit_at(s, base, p - 1) {
            1nat
        } else {
            0nat
        })
    }
}

/// The number behind `n` others.
pub open spec fn nth_varint(s: Seq<u8>, pos: int, n: nat) -> Option<u64>
    decreases n,
{
    let (value, end) = u64_varint_at(s, pos);
    if n == 0 || value is None {
        value
    } else {
        nth_varint(s, end, (n - 1) as nat)
    }
}

/// The answer of a bitmap with counts: the count of a value stands behind as many
/// others as there are smaller values.
pub open spec fn dense_answer(index: Seq<u8>, query: i32) -> Option<u64> {
    if index.len() < 9 {
        None
    } else if out_of_range(index, query) {
        Some(0)
    } else {
        let min_val = i32_at(index, 1);
        let counts = 9 + bytes_for(span(min_val, i32_at(index, 5)));
        let p = query - min_val;
        if index.len() < counts {
            None
        } else if !bit_at(index, 9, p) {
            Some(0)
        } else {
            nth_varint(index, counts, bits_before(index, 9, p as nat))
        }
    }
}

/// The answer that the bytes of an index give.
pub open spec fn answer(index: Seq<u8>, query: i32) -> Option<u64> {
    if index.len() == 0 {
        None
    } else if index[0] == INDEX_DENSE_BITMAP {
        dense_answer(index, query)
    } else if index[0] == INDEX_EXACT_COMPRESSED {
        compressed_answer(index, query)
    } else if index[0] == INDEX_HYBRID {
        hybrid_answer(index, query)
    } else {
        None
    }
}

/// The counts read back as they were written.
proof fn lemma_nth_count(s: Seq<u8>, base: int, entries: Seq<(i32, u64)>, i: int)
    requires
        holds(s, base, count_bytes(entries)),
        0 <= i < entries.len(),
    ensures
        u64_varint_at(s, base + count_bytes(entries.take(i)).len()) == (
            Some(entries[i].1),
            base + count_bytes(entries.take(i + 1)).len(),
        ),
    decreases entries.len(),
{
    let front = entries.drop_last();
    let last = entries.last();
    lemma_holds_split(s, base, count_bytes(front), varint_bytes(last.1 as nat));
    if i < entries.len() - 1 {
        lemma_nth_count(s, base, front, i);
        assert(front.take(i) =~= entries.take(i));
        assert(front.take(i + 1) =~= entries.take(i + 1));
    } else {
        assert(entries.take(i) =~= front);
        assert(entries.take(i + 1) =~= entries);
        u64_varint_round_trip(s, base + count_bytes(front).len(), last.1);
    }
}

proof fn lemma_nth_varint(s: Seq<u8>, base: int, entries: Seq<(i32, u64)>, from: nat, n: nat)
    requires
        holds(s, base, count_bytes(entries)),
        from + n < entries.len(),
    ensures
        nth_varint(s, base + count_bytes(entries.take(from as int)).len(), n) == Some(
            entries[(from + n) as int].1,
        ),
    decreases n,
{
    lemma_nth_count(s, base, entries, from as int);
    if n > 0 {
        lemma_nth_varint(s, base, entries, from + 1, (n - 1) as nat);
    }
}

/// The set bits below a value number the entries below it.
proof fn lemma_bits_before(
    s: Seq<u8>,
    bitmap: Seq<u8>,
    entries: Seq<(i32, u64)>,
    m: Map<i32, u64>,
    min_val: i32,
    max_val: i32,
    p: nat,
)
    requires
        min_val <= max_val,
        keys_in_range(m, min_val, max_val),
        lists(entries, m),
        ascending(entries),
        is_bitmap(bitmap, min_val, max_val, m.dom()),
        holds(s, 9, bitmap),
        p <= span(min_val, max_val),
    ensures
        bits_before(s, 9, p) <= entries.len(),
        forall|i: int| 0 <= i < bits_before(s, 9, p) ==> (#[trigger] entries[i]).0 < min_val + p,
        forall|i: int|
            bits_before(s, 9, p) <= i < entries.len() ==> (#[trigger] entries[i]).0 >= min_val + p,
    decreases p,
{
    if p == 0 {
        assert forall|i: int| 0 <= i < entries.len() implies (#[trigger] entries[i]).0
            >= min_val by {
            assert(m.contains_key(entries[i].0));
        }
    } else {
        let q = (p - 1) as nat;
        lemma_bits_before(s, bitmap, entries, m, min_val, max_val, q);
        let r = bits_before(s, 9, q) as int;
        let v = (min_val + q) as i32;
        lemma_bits_held(s, 9, bitmap, q as int);
        assert(bit_at(s, 9, q as int) <==> m.contains_key(v));
        if m.contains_key(v) {
            assert(has_key(entries, v));
            let j = choose|j: int| 0 <= j < entries.len() && (#[trigger] entries[j]).0 == v;
            if j < r {
                assert(entries[j].0 < min_val + q);
            }
            assert(entries[r].0 >= min_val + q);
            if r < j {
                assert(entries[r].0 < entries[j].0);
            }
            assert(j == r);
            assert forall|i: int| r + 1 <= i < entries.len() implies (#[trigger] entries[i]).0
                >= min_val + p by {
                assert(entries[r].0 < entries[i].0);
            }
        } else {
            assert forall|i: int| r <= i < entries.len() implies (#[trigger] entries[i]).0
                >= min_val + p by {
                assert(entries[i].0 >= min_val + q);
                assert(m.contains_key(entries[i].0));
            }
        }
    }
}

proof fn lemma_dense_layout(
    index: Seq<u8>,
    min_val: i32,
    max_val: i32,
    bitmap: Seq<u8>,
    entries: Seq<(i32, u64)>,
)
    requires
        index == dense_index(min_val, max_val, bitmap, entries),
    ensures
        index.len() >= 9 + bitmap.len(),
        index[0] == INDEX_DENSE_BITMAP,
        i32_at(index, 1) == min_val,
        i32_at(index, 5) == max_val,
        holds(index, 9, bitmap),
        holds(index, 9 + bitmap.len() as int, count_bytes(entries)),
{
    let header = range_header(INDEX_DENSE_BITMAP, min_val, max_val);
    lemma_holds_whole(index);
    lemma_holds_split(index, 0, header + bitmap, count_bytes(entries));
    lemma_holds_split(index, 0, header, bitmap);
    lemma_range_header(index, INDEX_DENSE_BITMAP, min_val, max_val);
}

proof fn lemma_dense_parts(
    m: Map<i32, u64>,
    min_val: i32,
    max_val: i32,
    index: Seq<u8>,
    bitmap: Seq<u8>,
    entries: Seq<(i32, u64)>,
    query: i32,
)
    requires
        min_val <= max_val,
        keys_in_range(m, min_val, max_val),
        lists(entries, m),
        ascending(entries),
        is_bitmap(bitmap, min_val, max_val, m.dom()),
        index.len() >= 9 + bitmap.len(),
        i32_at(index, 1) == min_val,
        i32_at(index, 5) == max_val,
        holds(index, 9, bitmap),
        holds(index, 9 + bitmap.len() as int, count_bytes(entries)),
    ensures
        dense_answer(index, query) == Some(count_in(m, query)),
{
    if query < min_val || query > max_val {
    } else {
        let p = (query - min_val) as nat;
        lemma_bits_held(index, 9, bitmap, p as int);
        assert((min_val + p) as i32 == query);
        if m.contains_key(query) {
            lemma_bits_before(index, bitmap, entries, m, min_val, max_val, p);
            let r = bits_before(index, 9, p);
            assert(has_key(entries, query));
            let j = choose|j: int| 0 <= j < entries.len() && (#[trigger] entries[j]).0 == query;
            if j < r {
                assert(entries[j].0 < min_val + p);
            }
            assert(entries[r as int].0 >= min_val + p);
            if r < j {
                assert(entries[r as int].0 < entries[j].0);
            }
            assert(entries.take(0) =~= Seq::empty());
            lemma_nth_varint(index, 9 + bitmap.len() as int, entries, 0, r);
        }
    }
}

/// A bitmap with counts answers every query with the count of its map, zero where it has
/// none.
pub proof fn dense_answers(
    m: Map<i32, u64>,
    min_val: i32,
    max_val: i32,
    index: Seq<u8>,
    query: i32,
)
    requires
        min_val <= max_val,
        keys_in_range(m, min_val, max_val),
        is_dense_index(m, min_val, max_val, index),
    ensures
        answer(index, query) == Some(count_in(m, query)),
{
    let (bitmap, entries) = choose|bitmap: Seq<u8>, entries: Seq<(i32, u64)>|
        #![trigger dense_index(min_val, max_val, bitmap, entries)]
        lists(entries, m) && ascending(entries) && is_bitmap(bitmap, min_val, max_val, m.dom())
            && index == dense_index(min_val, max_val, bitmap, entries);
    lemma_dense_layout(index, min_val, max_val, bitmap, entries);
    lemma_dense_parts(m, min_val, max_val, index, bitmap, entries, query);
}

/// An answer is the number of occurrences. An empty block gives none, a bitmap with
/// counts and a complete list give one to every query, and a list with a filter
/// gives one to the values outside the range, to the listed ones, and to those that
/// do not pass the filter of the others.
pub proof fn answers_are_counts(parameter: Parameter, data: Seq<i32>, index: Seq<u8>, query: i32)
    requires
        is_index(parameter, data, index),
    ensures
        answer(index, query) matches Some(count) ==> count == occurrences(data, query),
        data.len() == 0 ==> answer(index, query) is None,
        data.len() > 0 ==> match layout_of(parameter, data) {
            Layout::Hybrid => exists|top: Seq<(i32, u64)>| #[trigger]
                is_top(top, top_k(parameter, data), data) && answer(index, query) == hybrid_says(
                    data,
                    top,
                    num_hashes(parameter, data) as u32,
                    8 * bloom_size(parameter, data),
                    query,
                ),
            _ => answer(index, query) is Some,
        },
{
    if data.len() > 0 {
        match layout_of(parameter, data) {
            Layout::DenseBitmap => {
                let lo = lowest(data);
                let hi = highest(data);
                let m = histogram(data);
                let (bitmap, entries) = choose|bitmap: Seq<u8>, entries: Seq<(i32, u64)>|
                    #![trigger dense_index(lo, hi, bitmap, entries)]
                    is_tally(entries, data) && ascending(entries) && is_bitmap(
                        bitmap,
                        lo,
                        hi,
                        data.to_set(),
                    ) && index == dense_index(lo, hi, bitmap, entries);
                lemma_tally_lists(entries, data);
                assert(m.dom() =~= data.to_set());
                assert(is_dense_index(m, lo, hi, index));
                range_covers(data);
                dense_answers(m, lo, hi, index, query);
                assert(count_in(m, query) == occurrences(data, query));
            },
            Layout::Exact => {
                let entries = choose|entries: Seq<(i32, u64)>| #[trigger]
                    is_tally(entries, data) && ascending(entries) && index == compressed_index(
                        INDEX_EXACT_COMPRESSED,
                        lowest(data),
                        highest(data),
                        entries,
                    );
                tally_has_distinct_entries(entries, data);
                compressed_answers(index, INDEX_EXACT_COMPRESSED, entries, data, query);
            },
            Layout::Hybrid => {
                let (top, bloom) = choose|top: Seq<(i32, u64)>, bloom: Seq<u8>| #[trigger]
                    is_hybrid_index(
                        INDEX_HYBRID,
                        data,
                        lowest(data),
                        highest(data),
                        top_k(parameter, data),
                        num_hashes(parameter, data),
                        top,
                        bloom,
                        index,
                    ) && bloom.len() == bloom_size(parameter, data);
                distinct_fits_range(data);
                hybrid_answers(
                    index,
                    INDEX_HYBRID,
                    data,
                    top_k(parameter, data),
                    num_hashes(parameter, data),
                    top,
                    bloom,
                    query,
                );
            },
        }
    }
}

/// Picks the layout.
fn choose_layout(ratio: Double, distinct_count: usize, range: u64) -> (kind: Layout)
    requires
        ratio.within(10000),
        0 < range <= 0x1_0000_0000,
    ensures
        kind == layout(ratio, distinct_count as nat, range as nat),
{
    if range <= 262144 && Double::decimal(distinct_count as u64, range).above(1, 10) {
        let bitmap_size = (range + 7) / 8;
        if bitmap_size < 32768 && ratio.above(3, 1) {
            return Layout::DenseBitmap;
        }
    }
    if distinct_count <= 200 || (distinct_count <= 600 && ratio.above(10, 1)) || (distinct_count
        <= 1200 && ratio.above(25, 1)) {
        return Layout::Exact;
    }
    Layout::Hybrid
}

/// The number of values to list.
pub fn calculate_adaptive_top_k(ratio: Double, distinct_count: usize, concentration: Double) -> (k:
    usize)
    requires
        ratio.within(10000),
        concentration.within(10000),
    ensures
        k == adaptive_top_k(ratio, distinct_count as nat, concentration),
        10 <= k <= 300,
        k <= 10 || k <= distinct_count / 2,
{
    proof {
        adaptive_top_k_is_bounded(ratio, distinct_count as nat, concentration);
    }
    let base: u64 = if ratio.above(25, 1) {
        200
    } else if ratio.above(15, 1) {
        150
    } else if ratio.above(8, 1) {
        100
    } else if ratio.above(4, 1) {
        60
    } else if ratio.above(2, 1) {
        30
    } else {
        15
    };
    let multiplier = if concentration.above(5, 10) {
        Double::decimal(15, 10)
    } else if concentration.above(3, 10) {
        Double::decimal(13, 10)
    } else if concentration.above(15, 100) {
        Double::decimal(115, 100)
    } else {
        Double::decimal(1, 1)
    };
    let base = Double::of_u64(base);
    proof {
        Double::lemma_mul_within(base, multiplier, 157, 157);
    }
    let adjusted = base.mul(multiplier).floor();
    let half: usize = distinct_count / 2;
    let k: usize = if adjusted < half as u64 {
        adjusted as usize
    } else {
        half
    };
    if k < 10 {
        10
    } else {
        k
    }
}

/// The bytes of the filter.
pub fn calculate_adaptive_bloom_size(
    ratio: Double,
    distinct_count: usize,
    concentration: Double,
) -> (size: usize)
    requires
        ratio.within(10000),
        concentration.within(10000),
    ensures
        size == adaptive_bloom_size(ratio, distinct_count as nat, concentration),
        bloom_limits(ratio).0 <= size <= bloom_limits(ratio).1,
{
    let exponent = if concentration.above(4, 10) {
        Double::decimal(4199705077879927, 1_000_000_000_000_000)
    } else if ratio.above(20, 1) {
        Double::decimal(5809142990314028, 1_000_000_000_000_000)
    } else if ratio.above(10, 1) {
        Double::decimal(4961845129926823, 1_000_000_000_000_000)
    } else if ratio.above(5, 1) {
        Double::decimal(4199705077879927, 1_000_000_000_000_000)
    } else if ratio.above(25, 10) {
        Double::decimal(6437751649736401, 2_000_000_000_000_000)
    } else {
        Double::decimal(5051457288616511, 2_000_000_000_000_000)
    };
    let min_size: usize = if ratio.above(15, 1) {
        768
    } else {
        512
    };
    let max_size: usize = if ratio.above(20, 1) {
        6144
    } else if ratio.above(10, 1) {
        4096
    } else {
        3072
    };
    bloom_bytes(exponent, distinct_count, min_size, max_size)
}

/// Appends the counts.
fn push_counts(out: &mut Vec<u8>, entries: &Vec<(i32, u64)>)
    ensures
        final(out)@ == old(out)@ + count_bytes(entries@),
{
    let mut k: usize = 0;
    while k < entries.len()
        invariant
            k <= entries@.len(),
            out@ == old(out)@ + count_bytes(entries@.take(k as int)),
        decreases entries@.len() - k,
    {
        encode_varint(entries[k].1, out);
        proof {
            let next = entries@.take(k + 1);
            assert(next.drop_last() =~= entries@.take(k as int));
            assert(next.last() == entries@[k as int]);
            assert(out@ =~= old(out)@ + count_bytes(next));
        }
        k = k + 1;
    }
    assert(entries@.take(k as int) =~= entries@);
}

/// The bitmap of the keys of a map and the counts.
pub fn build_dense_bitmap(
    counts: &HashMap<i32, u64>,
    min_val: i32,
    max_val: i32,
) -> (index: Box<[u8]>)
    requires
        min_val <= max_val,
        span(min_val, max_val) + 7 <= usize::MAX,
        keys_in_range(counts@, min_val, max_val),
    ensures
        is_dense_index(counts@, min_val, max_val, index@),
{
    let mut buffer: Vec<u8> = Vec::new();
    push_range_header(&mut buffer, INDEX_DENSE_BITMAP, min_val, max_val);
    let bitmap = bitmap_of(min_val, max_val, counts);
    push_all(&mut buffer, bitmap.as_slice());
    let entries = ascending_entries(counts);
    push_counts(&mut buffer, &entries);
    assert(buffer@ =~= dense_index(min_val, max_val, bitmap@, entries@));
    into_boxed_slice(buffer)
}

/// The list takes from ten to 300 values, beyond ten no more than half.
pub proof fn adaptive_top_k_is_bounded(ratio: Double, distinct: nat, concentration: Double)
    ensures
        10 <= adaptive_top_k(ratio, distinct, concentration) <= 300,
        adaptive_top_k(ratio, distinct, concentration) <= 10 || adaptive_top_k(
            ratio,
            distinct,
            concentration,
        ) <= distinct / 2,
{
    let multiplier = concentration_multiplier(concentration);
    let k = adjusted(base_k(ratio), multiplier);
    lemma_base_grows(ratio, ratio);
    lemma_multiplier_grows(concentration, concentration);
    lemma_adjusted_grows(base_k(ratio), 200, multiplier, Double::spec_decimal(15, 10));
    lemma_greatest_adjusted();
    lemma_capped(k, distinct, k, distinct);
    assert(adaptive_top_k(ratio, distinct, concentration) == capped(k, distinct));
}

/// A greater reward for a skip, more different values and more concentration never make
/// the list shorter.
pub proof fn adaptive_top_k_grows(
    r1: Double,
    r2: Double,
    d1: nat,
    d2: nat,
    c1: Double,
    c2: Double,
)
    requires
        r1.within(10000),
        r2.within(10000),
        c1.within(10000),
        c2.within(10000),
        r1.spec_le(r2),
        d1 <= d2,
        c1.spec_le(c2),
    ensures
        adaptive_top_k(r1, d1, c1) <= adaptive_top_k(r2, d2, c2),
{
    above_is_monotone(r1, r2, 25, 1);
    above_is_monotone(r1, r2, 15, 1);
    above_is_monotone(r1, r2, 8, 1);
    above_is_monotone(r1, r2, 4, 1);
    above_is_monotone(r1, r2, 2, 1);
    above_is_monotone(c1, c2, 5, 10);
    above_is_monotone(c1, c2, 3, 10);
    above_is_monotone(c1, c2, 15, 100);
    lemma_base_grows(r1, r2);
    lemma_multiplier_grows(c1, c2);
    let m1 = concentration_multiplier(c1);
    let m2 = concentration_multiplier(c2);
    let k1 = adjusted(base_k(r1), m1);
    let k2 = adjusted(base_k(r2), m2);
    lemma_adjusted_grows(base_k(r1), base_k(r2), m1, m2);
    lemma_adjusted_grows(base_k(r1), 200, m1, Double::spec_decimal(15, 10));
    lemma_greatest_adjusted();
    lemma_capped(k1, d1, k2, d2);
    assert(adaptive_top_k(r1, d1, c1) == capped(k1, d1));
    assert(adaptive_top_k(r2, d2, c2) == capped(k2, d2));
}

/// A base times a multiplier, rounded down.
spec fn adjusted(base: nat, multiplier: Double) -> nat {
    Double::spec_of(base as int).spec_mul(multiplier).spec_floor()
}

/// A number of values to list, kept to half of the values and to at least ten.
spec fn capped(k: nat, distinct: nat) -> nat {
    let halved = if k < distinct / 2 {
        k
    } else {
        distinct / 2
    };
    if halved < 10 {
        10
    } else {
        halved
    }
}

proof fn lemma_capped(k1: nat, d1: nat, k2: nat, d2: nat)
    requires
        k1 <= k2,
        k1 <= 300,
        d1 <= d2,
    ensures
        10 <= capped(k1, d1) <= 300,
        capped(k1, d1) <= 10 || capped(k1, d1) <= d1 / 2,
        capped(k1, d1) <= capped(k2, d2),
{
}

proof fn lemma_base_grows(r1: Double, r2: Double)
    requires
        r1.spec_above(25, 1) ==> r2.spec_above(25, 1),
        r1.spec_above(15, 1) ==> r2.spec_above(15, 1),
        r1.spec_above(8, 1) ==> r2.spec_above(8, 1),
        r1.spec_above(4, 1) ==> r2.spec_above(4, 1),
        r1.spec_above(2, 1) ==> r2.spec_above(2, 1),
    ensures
        base_k(r1) <= base_k(r2) <= 200,
        base_k(r1) <= 200,
{
}

proof fn lemma_adjusted_grows(k1: nat, k2: nat, m1: Double, m2: Double)
    requires
        k1 <= k2 <= 200,
        m1.within(157),
        m2.within(157),
        m1.is_natural(),
        m2.is_natural(),
        m1.spec_le(m2),
    ensures
        adjusted(k1, m1) <= adjusted(k2, m2),
{
    let a = Double::spec_of(k1 as int);
    let b = Double::spec_of(k2 as int);
    Double::lemma_of_within(k1 as int);
    Double::lemma_of_within(k2 as int);
    of_is_monotone(k1, k2);
    mul_is_monotone(a, b, m1);
    mul_is_monotone(m1, m2, b);
    mul_commutes(m1, b);
    mul_commutes(m2, b);
    Double::lemma_mul_within(a, m1, 157, 157);
    Double::lemma_mul_within(b, m1, 157, 157);
    Double::lemma_mul_within(b, m2, 157, 157);
    whole_part_is_monotone(a.spec_mul(m1), b.spec_mul(m1));
    whole_part_is_monotone(b.spec_mul(m1), b.spec_mul(m2));
}

proof fn lemma_multipliers()
    ensures
        Double::spec_decimal(1, 1) == carried(false, 0x10_0000_0000_0000, -52),
        Double::spec_decimal(115, 100) == carried(false, 0x12_6666_6666_6666, -52),
        Double::spec_decimal(13, 10) == carried(false, 0x14_cccc_cccc_cccd, -52),
        Double::spec_decimal(15, 10) == carried(false, 0x18_0000_0000_0000, -52),
{
    lemma2_to64();
    lemma2_to64_rest();
    lemma_decimal_shape(1, 1, 0);
    lemma_decimal_shape(115, 100, 6);
    lemma_decimal_shape(13, 10, 3);
    lemma_decimal_shape(15, 10, 3);
}

proof fn lemma_multiplier_grows(c1: Double, c2: Double)
    requires
        c1.spec_above(5, 10) ==> c2.spec_above(5, 10),
        c1.spec_above(3, 10) ==> c2.spec_above(3, 10),
        c1.spec_above(15, 100) ==> c2.spec_above(15, 100),
    ensures
        concentration_multiplier(c1).spec_le(concentration_multiplier(c2)),
        concentration_multiplier(c1).spec_le(Double::spec_decimal(15, 10)),
        concentration_multiplier(c1).within(157),
        concentration_multiplier(c1).is_natural(),
        concentration_multiplier(c2).within(157),
        concentration_multiplier(c2).is_natural(),
        Double::spec_decimal(15, 10).within(157),
        Double::spec_decimal(15, 10).is_natural(),
{
    lemma_multipliers();
    let m1: nat = mantissa_for(c1);
    let m2: nat = mantissa_for(c2);
    assert(concentration_multiplier(c1) == carried(false, m1, -52));
    assert(concentration_multiplier(c2) == carried(false, m2, -52));
    lemma_mantissa_order(m1, m2, -52);
    lemma_mantissa_order(m1, 0x18_0000_0000_0000, -52);
}

/// The mantissa of the multiplier of a concentration.
spec fn mantissa_for(concentration: Double) -> nat {
    if concentration.spec_above(5, 10) {
        0x18_0000_0000_0000
    } else if concentration.spec_above(3, 10) {
        0x14_cccc_cccc_cccd
    } else if concentration.spec_above(15, 100) {
        0x12_6666_6666_6666
    } else {
        0x10_0000_0000_0000
    }
}

proof fn lemma_greatest_adjusted()
    ensures
        adjusted(200, Double::spec_decimal(15, 10)) == 300,
{
    lemma2_to64();
    lemma2_to64_rest();
    lemma_multipliers();
    lemma_of_shape(200, 7);
    let a = Double::spec_of(200);
    let b = Double::spec_decimal(15, 10);
    assert(a == carried(false, 0x19_0000_0000_0000, -45));
    assert(b == carried(false, 0x18_0000_0000_0000, -52));
    let product: nat = 0x258_0000_0000_0000_0000_0000_0000;
    assert((0x19_0000_0000_0000u64 * 0x18_0000_0000_0000u64) as nat
        == 0x258_0000_0000_0000_0000_0000_0000nat) by (nonlinear_arith);
    assert(half_even(product, MANTISSA_END as nat) == 0x12_c000_0000_0000);
    assert(a.spec_mul(b) == carried(false, 0x12_c000_0000_0000, -44));
    assert(0x12_c000_0000_0000nat / 0x1000_0000_0000 == 300);
}

/// The filter of a block stays within its limits, takes the least of them where there is
/// nothing to filter, and does not shrink as there are more different values.
pub proof fn adaptive_bloom_size_is_bounded(
    ratio: Double,
    d1: nat,
    d2: nat,
    concentration: Double,
)
    requires
        d1 <= d2 <= u64::MAX,
    ensures
        bloom_limits(ratio).0 <= adaptive_bloom_size(ratio, d1, concentration) <= bloom_limits(
            ratio,
        ).1,
        adaptive_bloom_size(ratio, 0, concentration) == bloom_limits(ratio).0,
        adaptive_bloom_size(ratio, d1, concentration) <= adaptive_bloom_size(
            ratio,
            d2,
            concentration,
        ),
{
    lemma_exponent(ratio, concentration);
    optimal_bytes_grow(fpr_exponent(ratio, concentration), d1, d2);
}

/// A filter takes 8.741 bits for a value where more than four tenths of the block are
/// concentrated. Otherwise it takes 12.091 where the ratio is above 20, 10.327 above 10,
/// 8.741 above 5, 6.7 above 2.5, and else 5.257. The least size is 512 bytes, or 768 for a
/// ratio above 15; the greatest is 3072, or 4096 above 10, or 6144 above 20.
pub proof fn filters_take_bits(
    ratio: Double,
    concentration: Double,
    count: nat,
    bits: nat,
    lo: nat,
    hi: nat,
)
    requires
        count <= u64::MAX,
        bits == if concentration.spec_above(4, 10) {
            8741nat
        } else if ratio.spec_above(20, 1) {
            12091
        } else if ratio.spec_above(10, 1) {
            10327
        } else if ratio.spec_above(5, 1) {
            8741
        } else if ratio.spec_above(25, 10) {
            6700
        } else {
            5257
        },
        lo == if ratio.spec_above(15, 1) {
            768nat
        } else {
            512
        },
        hi == if ratio.spec_above(20, 1) {
            6144nat
        } else if ratio.spec_above(10, 1) {
            4096
        } else {
            3072
        },
    ensures
        lo <= adaptive_bloom_size(ratio, count, concentration) <= hi,
        adaptive_bloom_size(ratio, count, concentration) < hi ==> bits * count <= 8000
            * adaptive_bloom_size(ratio, count, concentration) + count,
        adaptive_bloom_size(ratio, count, concentration) > lo ==> 8000 * adaptive_bloom_size(
            ratio,
            count,
            concentration,
        ) <= bits * count + count + 8000,
{
    assert((8741 - 1) * (1_000_000_000_000_000nat * 4804530139182014nat) * 0x10_0000_0000_0000
        <= 1000 * (4199705077879927nat * 10_000_000_000_000_000nat) * 0xf_ffff_ffff_fff3)
        by (nonlinear_arith);
    assert(1000 * (4199705077879927nat * 10_000_000_000_000_000nat) * 0x10_0000_0000_000d <= (8741
        + 1) * (1_000_000_000_000_000nat * 4804530139182014nat) * 0x10_0000_0000_0000)
        by (nonlinear_arith);
    filters_take_bits_for_values(4199705077879927, 1_000_000_000_000_000, 8741, count, lo, hi);
    assert((12091 - 1) * (1_000_000_000_000_000nat * 4804530139182014nat) * 0x10_0000_0000_0000
        <= 1000 * (5809142990314028nat * 10_000_000_000_000_000nat) * 0xf_ffff_ffff_fff3)
        by (nonlinear_arith);
    assert(1000 * (5809142990314028nat * 10_000_000_000_000_000nat) * 0x10_0000_0000_000d <= (12091
        + 1) * (1_000_000_000_000_000nat * 4804530139182014nat) * 0x10_0000_0000_0000)
        by (nonlinear_arith);
    filters_take_bits_for_values(5809142990314028, 1_000_000_000_000_000, 12091, count, lo, hi);
    assert((10327 - 1) * (1_000_000_000_000_000nat * 4804530139182014nat) * 0x10_0000_0000_0000
        <= 1000 * (4961845129926823nat * 10_000_000_000_000_000nat) * 0xf_ffff_ffff_fff3)
        by (nonlinear_arith);
    assert(1000 * (4961845129926823nat * 10_000_000_000_000_000nat) * 0x10_0000_0000_000d <= (10327
        + 1) * (1_000_000_000_000_000nat * 4804530139182014nat) * 0x10_0000_0000_0000)
        by (nonlinear_arith);
    filters_take_bits_for_values(4961845129926823, 1_000_000_000_000_000, 10327, count, lo, hi);
    assert((6700 - 1) * (2_000_000_000_000_000nat * 4804530139182014nat) * 0x10_0000_0000_0000
        <= 1000 * (6437751649736401nat * 10_000_000_000_000_000nat) * 0xf_ffff_ffff_fff3)
        by (nonlinear_arith);
    assert(1000 * (6437751649736401nat * 10_000_000_000_000_000nat) * 0x10_0000_0000_000d <= (6700
        + 1) * (2_000_000_000_000_000nat * 4804530139182014nat) * 0x10_0000_0000_0000)
        by (nonlinear_arith);
    filters_take_bits_for_values(6437751649736401, 2_000_000_000_000_000, 6700, count, lo, hi);
    assert((5257 - 1) * (2_000_000_000_000_000nat * 4804530139182014nat) * 0x10_0000_0000_0000
        <= 1000 * (5051457288616511nat * 10_000_000_000_000_000nat) * 0xf_ffff_ffff_fff3)
        by (nonlinear_arith);
    assert(1000 * (5051457288616511nat * 10_000_000_000_000_000nat) * 0x10_0000_0000_000d <= (5257
        + 1) * (2_000_000_000_000_000nat * 4804530139182014nat) * 0x10_0000_0000_0000)
        by (nonlinear_arith);
    filters_take_bits_for_values(5051457288616511, 2_000_000_000_000_000, 5257, count, lo, hi);
}

/// The list takes, rounded down, 15 values, 30 where the ratio is above 2, 60 above 4, 100
/// above 8, 150 above 15, and 200 above 25; where more than 0.15 of the block are
/// concentrated it takes 1.15 times as many, above 0.3 it takes 1.3 times, and above 0.5 it
/// takes 1.5 times; then no more than half of the values, but at least ten.
pub proof fn lists_follow_the_concentration(
    ratio: Double,
    distinct: nat,
    concentration: Double,
    base: nat,
    percent: nat,
) -> (whole: nat)
    requires
        base == if ratio.spec_above(25, 1) {
            200nat
        } else if ratio.spec_above(15, 1) {
            150
        } else if ratio.spec_above(8, 1) {
            100
        } else if ratio.spec_above(4, 1) {
            60
        } else if ratio.spec_above(2, 1) {
            30
        } else {
            15
        },
        percent == if concentration.spec_above(5, 10) {
            150nat
        } else if concentration.spec_above(3, 10) {
            130
        } else if concentration.spec_above(15, 100) {
            115
        } else {
            100
        },
    ensures
        100 * whole <= base * percent <= 100 * whole + 100,
        adaptive_top_k(ratio, distinct, concentration) == clamped(
            if whole < distinct / 2 {
                whole
            } else {
                distinct / 2
            },
            10,
            300,
        ),
{
    let k = adjusted(base, concentration_multiplier(concentration));
    lemma_whole_product(base, 15, 10);
    lemma_whole_product(base, 13, 10);
    lemma_whole_product(base, 115, 100);
    lemma_whole_product(base, 1, 1);
    adaptive_top_k_is_bounded(ratio, distinct, concentration);
    assert(adaptive_top_k(ratio, distinct, concentration) == capped(k, distinct));
    k
}

proof fn lemma_whole_product(base: nat, n: nat, d: nat)
    requires
        base <= 200,
        n <= 150,
        0 < d <= 100,
    ensures
        d * adjusted(base, Double::spec_decimal(n, d)) <= base * n <= d * adjusted(
            base,
            Double::spec_decimal(n, d),
        ) + d,
{
    let a = Double::spec_of(base as int);
    let b = Double::spec_decimal(n, d);
    near_of(base);
    near_decimal(n, d);
    Double::lemma_of_within(base as int);
    near_mul(a, base, 1, 1, b, n, d, 4);
    Double::lemma_mul_within(a, b, 157, 157);
    assert(1 * d == d) by (nonlinear_arith);
    let x = a.spec_mul(b);
    whole_parts_are_next(x);
    lemma_unit();
    let u = unit() as int;
    let v = scaled(x);
    let p = 0x10_0000_0000_0000int;
    let m = (base * n) as int;
    let k = x.spec_floor() as int;
    let e = d as int;
    assert(0 <= m <= 30000) by (nonlinear_arith)
        requires
            m == base * n,
            base <= 200,
            n <= 150,
    ;
    // e k u p <= v e p <= m u (p + 7)
    assert((e * k) * p <= m * (p + 7)) by {
        lemma_bits_above_or(m, u, v, e, p, k, p + 7);
    }
    assert(m * (p - 7) <= (e * (k + 1)) * p) by {
        lemma_bits_below_or(m, u, v, e, p, k + 1, p - 7);
    }
    assert(e * k <= m) by (nonlinear_arith)
        requires
            (e * k) * p <= m * (p + 7),
            p == 0x10_0000_0000_0000,
            0 <= m <= 30000,
    ;
    assert(m <= e * (k + 1)) by (nonlinear_arith)
        requires
            m * (p - 7) <= (e * (k + 1)) * p,
            p == 0x10_0000_0000_0000,
            0 <= m <= 30000,
    ;
    assert(e * (k + 1) == e * k + e) by (nonlinear_arith);
}

proof fn lemma_bits_above_or(m: int, u: int, v: int, e: int, p: int, k: int, f: int)
    requires
        (v * e) * p <= (m * u) * f,
        k * u <= v,
        u > 0,
        e > 0,
        p > 0,
    ensures
        (e * k) * p <= m * f,
{
    assert(((k * u) * e) * p <= (v * e) * p) by (nonlinear_arith)
        requires
            k * u <= v,
            e > 0,
            p > 0,
    ;
    assert(((k * u) * e) * p == ((e * k) * p) * u && (m * u) * f == (m * f) * u)
        by (nonlinear_arith);
    assert((e * k) * p <= m * f) by (nonlinear_arith)
        requires
            ((e * k) * p) * u <= (m * f) * u,
            u > 0,
    ;
}

proof fn lemma_bits_below_or(m: int, u: int, v: int, e: int, p: int, k: int, f: int)
    requires
        (m * u) * f <= (v * e) * p,
        v <= k * u,
        u > 0,
        e > 0,
        p > 0,
    ensures
        m * f <= (e * k) * p,
{
    assert((v * e) * p <= ((k * u) * e) * p) by (nonlinear_arith)
        requires
            v <= k * u,
            e > 0,
            p > 0,
    ;
    assert(((k * u) * e) * p == ((e * k) * p) * u && (m * u) * f == (m * f) * u)
        by (nonlinear_arith);
    assert(m * f <= (e * k) * p) by (nonlinear_arith)
        requires
            (m * f) * u <= ((e * k) * p) * u,
            u > 0,
    ;
}

proof fn lemma_exponent(ratio: Double, concentration: Double)
    ensures
        fpr_exponent(ratio, concentration).within(157),
        fpr_exponent(ratio, concentration).is_natural(),
{
    Double::lemma_decimal_within(4199705077879927, 1_000_000_000_000_000);
    Double::lemma_decimal_within(5809142990314028, 1_000_000_000_000_000);
    Double::lemma_decimal_within(4961845129926823, 1_000_000_000_000_000);
    Double::lemma_decimal_within(6437751649736401, 2_000_000_000_000_000);
    Double::lemma_decimal_within(5051457288616511, 2_000_000_000_000_000);
}

/// The share of the block that its most frequent values take, given a tally.
fn calculate_concentration(data: &[i32], full: &Vec<(i32, u64)>) -> (share: Double)
    requires
        data@.len() > 0,
        is_tally(full@, data@),
        most_frequent_first(full@),
    ensures
        share == concentration(data@),
        share.within(157),
{
    let tenth: usize = full.len() / 10;
    let m: usize = if tenth < 10 {
        10
    } else if tenth > 100 {
        100
    } else {
        tenth
    };
    proof {
        tally_has_distinct_entries(full@, data@);
        counts_add_up(full@, data@, full@.len());
        top_sum_of_tally(full@, data@, m as nat);
        assert(data@.len() == data.len());
    }
    let top_concentration = sum_counts(full, m);
    Double::decimal(top_concentration, data.len() as u64)
}

/// The number of values to list of a block, and the bytes of the filter.
fn calculate_sizes(parameter: &Parameter, data: &[i32], full: &Vec<(i32, u64)>) -> (sizes: (
    usize,
    usize,
))
    requires
        data@.len() > 0,
        is_tally(full@, data@),
        most_frequent_first(full@),
    ensures
        sizes.0 == top_k(*parameter, data@),
        sizes.1 == bloom_size(*parameter, data@),
        0 < sizes.1 <= 6144,
{
    proof {
        tally_has_distinct_entries(full@, data@);
    }
    let ratio = parameter.ratio();
    let share = calculate_concentration(data, full);
    (
        calculate_adaptive_top_k(ratio, full.len(), share),
        calculate_adaptive_bloom_size(ratio, full.len(), share),
    )
}

/// The most frequent values of a block and a filter of the others.
fn build_hybrid(
    parameter: &Parameter,
    data: &[i32],
    counts: &HashMap<i32, u64>,
    min_val: i32,
    max_val: i32,
) -> (index: Box<[u8]>)
    requires
        data@.len() > 0,
        is_count_map(counts@, data@),
    ensures
        exists|top: Seq<(i32, u64)>, bloom: Seq<u8>| #[trigger]
            is_hybrid_index(
                INDEX_HYBRID,
                data@,
                min_val,
                max_val,
                top_k(*parameter, data@),
                num_hashes(*parameter, data@),
                top,
                bloom,
                index@,
            ) && bloom.len() == bloom_size(*parameter, data@),
{
    let full = entries_by_count(counts);
    proof {
        lemma_lists_tally(full@, counts@, data@);
    }
    let (k, size) = calculate_sizes(parameter, data, &full);
    assert(num_hashes(*parameter, data@) == rounded_probes(
        size as nat,
        left_out(data@, k as nat),
        MIN_HASHES as nat,
        MAX_HASHES as nat,
    ));
    build_hybrid_index(
        INDEX_HYBRID,
        data,
        &full,
        k,
        size,
        MIN_HASHES,
        MAX_HASHES,
        min_val,
        max_val,
    )
}

/// The values of a block that an index answers.
pub open spec fn answered_values(data: Seq<i32>, index: Seq<u8>) -> Set<i32> {
    Set::new(|v: i32| data.contains(v) && answer(index, v) is Some)
}

proof fn lemma_density(data: Seq<i32>)
    requires
        data.len() > 0,
        highest(data) - lowest(data) <= 262143,
    ensures
        Double::spec_decimal(
            distinct(data),
            (highest(data) - lowest(data) + 1) as nat,
        ).spec_above(1, 10) <==> distinct(data) * 10 > highest(data) - lowest(data) + 1,
{
    distinct_fits_range(data);
    range_covers(data);
    decimals_compare(distinct(data), (highest(data) - lowest(data) + 1) as nat, 1, 10);
}

/// Every query gets its answer from a bitmap with counts where the values lie at most 262143
/// apart, a bit for each place takes fewer than 32768 bytes, more than a tenth of the places
/// are taken, and the ratio is above 3.
pub proof fn dense_blocks_are_answered(
    parameter: Parameter,
    data: Seq<i32>,
    index: Seq<u8>,
    query: i32,
)
    requires
        data.len() > 0,
        is_index(parameter, data, index),
        highest(data) - lowest(data) <= 262143 && (highest(data) - lowest(data) + 8) / 8 < 32768
            && distinct(data) * 10 > highest(data) - lowest(data) + 1
            && parameter.spec_ratio().spec_above(3, 1),
    ensures
        answer(index, query) == Some(occurrences(data, query) as u64),
        index[0] == 3,
        index.len() >= 9 + (highest(data) - lowest(data) + 8) / 8 + distinct(data),
        index.len() == 9 + (highest(data) - lowest(data) + 8) / 8 + count_bytes(
            in_order(data),
        ).len(),
{
    let lo = lowest(data);
    let hi = highest(data);
    lemma_density(data);
    assert(layout_of(parameter, data) == Layout::DenseBitmap);
    lemma_dense_rule(data, index, query);
}

proof fn lemma_dense_rule(data: Seq<i32>, index: Seq<u8>, query: i32)
    requires
        data.len() > 0,
        exists|bitmap: Seq<u8>, entries: Seq<(i32, u64)>|
            #![trigger dense_index(lowest(data), highest(data), bitmap, entries)]
            is_tally(entries, data) && ascending(entries) && is_bitmap(
                bitmap,
                lowest(data),
                highest(data),
                data.to_set(),
            ) && index == dense_index(lowest(data), highest(data), bitmap, entries),
    ensures
        answer(index, query) == Some(occurrences(data, query) as u64),
        index[0] == 3,
        index.len() >= 9 + (highest(data) - lowest(data) + 8) / 8 + distinct(data),
        index.len() == 9 + (highest(data) - lowest(data) + 8) / 8 + count_bytes(
            in_order(data),
        ).len(),
{
    let lo = lowest(data);
    let hi = highest(data);
    let m = histogram(data);
    let (bitmap, entries) = choose|bitmap: Seq<u8>, entries: Seq<(i32, u64)>|
        #![trigger dense_index(lo, hi, bitmap, entries)]
        is_tally(entries, data) && ascending(entries) && is_bitmap(bitmap, lo, hi, data.to_set())
            && index == dense_index(lo, hi, bitmap, entries);
    lemma_tally_lists(entries, data);
    tally_has_distinct_entries(entries, data);
    assert(m.dom() =~= data.to_set());
    assert(is_dense_index(m, lo, hi, index));
    range_covers(data);
    dense_answers(m, lo, hi, index, query);
    assert(count_in(m, query) == occurrences(data, query));
    lemma_in_order(entries, data);
    lemma_counts_len(entries);
}

/// A count takes a byte for each seven bits.
pub proof fn counts_grow(entries: Seq<(i32, u64)>, entry: (i32, u64))
    ensures
        count_bytes(Seq::empty()).len() == 0,
        count_bytes(entries.push(entry)) == count_bytes(entries) + varint_bytes(entry.1 as nat),
{
    assert(entries.push(entry).drop_last() =~= entries);
}

proof fn lemma_counts_len(entries: Seq<(i32, u64)>)
    ensures
        count_bytes(entries).len() >= entries.len(),
    decreases entries.len(),
{
    if entries.len() > 0 {
        lemma_counts_len(entries.drop_last());
        lemma_varint_len(entries.last().1 as nat);
    }
}

proof fn lemma_exact_rule(data: Seq<i32>, index: Seq<u8>, query: i32)
    requires
        data.len() > 0,
        exists|entries: Seq<(i32, u64)>| #[trigger]
            is_tally(entries, data) && ascending(entries) && index == compressed_index(
                INDEX_EXACT_COMPRESSED,
                lowest(data),
                highest(data),
                entries,
            ),
        distinct(data) < 0x1_0000_0000,
    ensures
        index.len() > 0,
        index[0] == INDEX_EXACT_COMPRESSED,
        index.len() == 13 + delta_bytes(in_order(data)).len(),
        answer(index, query) == Some(occurrences(data, query) as u64),
{
    let entries = choose|entries: Seq<(i32, u64)>| #[trigger]
        is_tally(entries, data) && ascending(entries) && index == compressed_index(
            INDEX_EXACT_COMPRESSED,
            lowest(data),
            highest(data),
            entries,
        );
    tally_has_distinct_entries(entries, data);
    lemma_in_order(entries, data);
    compressed_answers(index, INDEX_EXACT_COMPRESSED, entries, data, query);
}

/// Otherwise every query gets its answer from a list where there are up to 200 different
/// values, up to 600 for a ratio above 10, or up to 1200 above 25.
pub proof fn few_values_are_all_answered(
    parameter: Parameter,
    data: Seq<i32>,
    index: Seq<u8>,
    query: i32,
)
    requires
        data.len() > 0,
        is_index(parameter, data, index),
        !(highest(data) - lowest(data) <= 262143 && (highest(data) - lowest(data) + 8) / 8 < 32768
            && distinct(data) * 10 > highest(data) - lowest(data) + 1
            && parameter.spec_ratio().spec_above(3, 1)),
        distinct(data) <= 200 || (distinct(data) <= 600 && parameter.spec_ratio().spec_above(10, 1))
            || (distinct(data) <= 1200 && parameter.spec_ratio().spec_above(25, 1)),
    ensures
        answer(index, query) == Some(occurrences(data, query) as u64),
        index[0] == 1,
        index.len() == 13 + delta_bytes(in_order(data)).len(),
{
    if highest(data) - lowest(data) <= 262143 {
        lemma_density(data);
    }
    assert(layout_of(parameter, data) == Layout::Exact);
    lemma_exact_rule(data, index, query);
}

proof fn lemma_hybrid_rule(
    data: Seq<i32>,
    index: Seq<u8>,
    k: nat,
    hashes: nat,
    size: nat,
    top: Seq<(i32, u64)>,
    bloom: Seq<u8>,
    query: i32,
)
    requires
        data.len() > 0,
        k < 0x1_0000_0000,
        hashes < 256,
        size > 0,
        bloom.len() == size,
        is_hybrid_index(
            INDEX_HYBRID,
            data,
            lowest(data),
            highest(data),
            k,
            hashes,
            top,
            bloom,
            index,
        ),
    ensures
        is_top(top, k, data),
        index.len() == 14 + delta_bytes(top).len() + size,
        index[9] == hashes,
        answer(index, query) == hybrid_says(data, top, hashes as u32, 8 * size, query),
        answered_values(data, index).finite(),
        answered_values(data, index).len() == if k < distinct(data) {
            k
        } else {
            distinct(data)
        },
        forall|v: i32, w: i32| #[trigger]
            answered_values(data, index).contains(v) && #[trigger] data.contains(w)
                && !answered_values(data, index).contains(w) ==> occurrences(data, w)
                <= occurrences(data, v),
{
    assert forall|q: i32| #[trigger] answer(index, q) == hybrid_says(
        data,
        top,
        hashes as u32,
        8 * size,
        q,
    ) by {
        hybrid_answers(index, INDEX_HYBRID, data, k, hashes, top, bloom, q);
    }
    hybrid_parts(index, INDEX_HYBRID, lowest(data), highest(data), hashes as u8, top, bloom);
    range_covers(data);
    let told = answered_values(data, index);
    assert forall|v: i32| #[trigger] told.contains(v) <==> data.contains(v) && topk_says::<Murmur>(
        data,
        top,
        hashes as u32,
        8 * size,
        v,
    ) is Some by {
        assert(answer(index, v) == hybrid_says(data, top, hashes as u32, 8 * size, v));
    }
    filtered_lists_tell_the_listed::<Murmur>(data, top, k, hashes as u32, 8 * size, told);
    assert(answer(index, query) == hybrid_says(data, top, hashes as u32, 8 * size, query));
}

/// Otherwise the `k` most frequent values are answered, and a filter answers for the others.
/// The sizes follow the share of the block that the most frequent tenth of the values takes,
/// at least ten of them and at most a hundred.
pub proof fn frequent_values_are_answered(
    parameter: Parameter,
    data: Seq<i32>,
    index: Seq<u8>,
    tenth: nat,
    share: Double,
    k: nat,
    query: i32,
)
    requires
        0 < data.len() <= u64::MAX,
        is_index(parameter, data, index),
        tenth == if distinct(data) / 10 < 10 {
            10
        } else if distinct(data) / 10 > 100 {
            100
        } else {
            distinct(data) / 10
        },
        share == Double::spec_decimal(top_sum(data, tenth), data.len()),
        !(highest(data) - lowest(data) <= 262143 && (highest(data) - lowest(data) + 8) / 8 < 32768
            && distinct(data) * 10 > highest(data) - lowest(data) + 1
            && parameter.spec_ratio().spec_above(3, 1)),
        !(distinct(data) <= 200 || (distinct(data) <= 600
            && parameter.spec_ratio().spec_above(10, 1))
            || (distinct(data) <= 1200 && parameter.spec_ratio().spec_above(25, 1))),
        k == adaptive_top_k(parameter.spec_ratio(), distinct(data), share),
    ensures
        index[0] == 2,
        answered_values(data, index).finite(),
        answered_values(data, index).len() == if k < distinct(data) {
            k
        } else {
            distinct(data)
        },
        forall|v: i32, w: i32| #[trigger]
            answered_values(data, index).contains(v) && #[trigger] data.contains(w)
                && !answered_values(data, index).contains(w) ==> occurrences(data, w)
                <= occurrences(data, v),
        exists|top: Seq<(i32, u64)>| #[trigger]
            is_top(top, k, data) && index.len() == 14 + delta_bytes(top).len()
                + adaptive_bloom_size(
                parameter.spec_ratio(),
                distinct(data),
                share,
            ) && answer(index, query) == hybrid_says(
                data,
                top,
                index[9] as u32,
                (8 * (index.len() - 14 - delta_bytes(top).len())) as nat,
                query,
            ),
        index[9] == rounded_probes(
            adaptive_bloom_size(parameter.spec_ratio(), distinct(data), share),
            if k < distinct(data) {
                (distinct(data) - k) as nat
            } else {
                0
            },
            6,
            11,
        ),
{
    if highest(data) - lowest(data) <= 262143 {
        lemma_density(data);
    }
    assert(layout_of(parameter, data) == Layout::Hybrid);
    let size = bloom_size(parameter, data);
    let hashes = num_hashes(parameter, data);
    let (top, bloom) = choose|top: Seq<(i32, u64)>, bloom: Seq<u8>| #[trigger]
        is_hybrid_index(
            INDEX_HYBRID,
            data,
            lowest(data),
            highest(data),
            top_k(parameter, data),
            num_hashes(parameter, data),
            top,
            bloom,
            index,
        ) && bloom.len() == bloom_size(parameter, data);
    adaptive_top_k_is_bounded(parameter.spec_ratio(), distinct(data), concentration(data));
    hybrid_answers(index, INDEX_HYBRID, data, k, hashes, top, bloom, query);
    lemma_hybrid_rule(data, index, k, hashes, size, top, bloom, query);
}

/// The index of an empty block is a single zero, and tells nothing.
pub proof fn empty_blocks_tell_nothing(
    parameter: Parameter,
    data: Seq<i32>,
    index: Seq<u8>,
    query: i32,
)
    requires
        data.len() == 0,
        is_index(parameter, data, index),
    ensures
        index == seq![0u8],
        answer(index, query) is None,
{
}

/// Bytes that are no index, or stop short of its header, tell nothing. A range tells of the
/// values outside it that they do not occur.
pub proof fn damaged_indexes_tell_nothing(index: Seq<u8>, query: i32)
    ensures
        index.len() == 0 ==> answer(index, query) is None,
        index.len() > 0 && index[0] != 1 && index[0] != 2 && index[0] != 3
            ==> answer(index, query) is None,
        0 < index.len() < 13 && index[0] == 1 ==> answer(index, query) is None,
        0 < index.len() < 14 && index[0] == 2 ==> answer(index, query) is None,
        0 < index.len() < 9 && index[0] == 3 ==> answer(index, query) is None,
        index.len() >= 13 && index[0] == 1 && (query < i32_at(index, 1) || query > i32_at(
            index,
            5,
        )) ==> answer(index, query) == Some(0u64),
        index.len() >= 14 && index[0] == 2 && (query < i32_at(index, 1) || query > i32_at(
            index,
            5,
        )) ==> answer(index, query) == Some(0u64),
        index.len() >= 9 && index[0] == 3 && (query < i32_at(index, 1) || query > i32_at(
            index,
            5,
        )) ==> answer(index, query) == Some(0u64),
{
}

/// Builds the index of a block.
pub fn build_idx(parameter: &Parameter, data: &[i32]) -> (index: Box<[u8]>)
    ensures
        is_index(*parameter, data@, index@),
{
    if data.len() == 0 {
        let mut empty: Vec<u8> = Vec::new();
        empty.push(INDEX_EMPTY);
        assert(empty@ =~= seq![INDEX_EMPTY]);
        return into_boxed_slice(empty);
    }
    let freq_map = count_values(data);
    let ratio = parameter.ratio();
    let min_val = min_value(data);
    let max_val = max_value(data);
    let range: u64 = (max_val as i64 - min_val as i64 + 1) as u64;
    proof {
        range_covers(data@);
        distinct_fits_range(data@);
    }
    match choose_layout(ratio, freq_map.len(), range) {
        Layout::DenseBitmap => {
            let index = build_dense_bitmap(&freq_map, min_val, max_val);
            proof {
                let (bitmap, entries) = choose|bitmap: Seq<u8>, entries: Seq<(i32, u64)>|
                    #![trigger dense_index(min_val, max_val, bitmap, entries)]
                    lists(entries, freq_map@) && ascending(entries) && is_bitmap(
                        bitmap,
                        min_val,
                        max_val,
                        freq_map@.dom(),
                    ) && index@ == dense_index(min_val, max_val, bitmap, entries);
                lemma_lists_tally(entries, freq_map@, data@);
                assert(freq_map@.dom() =~= data@.to_set());
            }
            index
        },
        Layout::Exact => {
            let index = build_exact_compressed(INDEX_EXACT_COMPRESSED, &freq_map, min_val, max_val);
            proof {
                let entries = choose|entries: Seq<(i32, u64)>| #[trigger]
                    lists(entries, freq_map@) && ascending(entries) && index@ == compressed_index(
                        INDEX_EXACT_COMPRESSED,
                        min_val,
                        max_val,
                        entries,
                    );
                lemma_lists_tally(entries, freq_map@, data@);
            }
            index
        },
        Layout::Hybrid => build_hybrid(parameter, data, &freq_map, min_val, max_val),
    }
}

/// Counts the set bits below `p`.
fn count_bits(index: &[u8], base: usize, p: usize) -> (n: usize)
    requires
        base + p / 8 < index@.len(),
    ensures
        n == bits_before(index@, base as int, p as nat),
        n <= p,
{
    let mut n: usize = 0;
    let mut i: usize = 0;
    while i < p
        invariant
            i <= p,
            base + p / 8 < index@.len(),
            n == bits_before(index@, base as int, i as nat),
            n <= i,
        decreases p - i,
    {
        if read_bit(index, base, i) {
            n = n + 1;
        }
        i = i + 1;
    }
    n
}

/// Reads the number behind `n` others.
fn read_nth(index: &[u8], pos: usize, n: usize) -> (r: Option<u64>)
    ensures
        r == nth_varint(index@, pos as int, n as nat),
{
    let mut offset: usize = pos;
    let mut k: usize = 0;
    while k < n
        invariant
            k <= n,
            nth_varint(index@, pos as int, n as nat) == nth_varint(
                index@,
                offset as int,
                (n - k) as nat,
            ),
        decreases n - k,
    {
        if decode_varint(index, &mut offset).is_none() {
            return None;
        }
        k = k + 1;
    }
    decode_varint(index, &mut offset)
}

/// Looks a value up in a bitmap with counts.
fn query_dense_bitmap(index: &[u8], query: &i32) -> (r: Option<u64>)
    ensures
        r == dense_answer(index@, *query),
{
    if index.len() < 9 {
        return None;
    }
    let min_val = read_i32(index, 1);
    let max_val = read_i32(index, 5);
    if *query < min_val || *query > max_val {
        return Some(0);
    }
    let range: u64 = (max_val as i64 - min_val as i64 + 1) as u64;
    let bitmap_bytes: u64 = (range + 7) / 8;
    if ((index.len() - 9) as u64) < bitmap_bytes {
        return None;
    }
    let p: usize = (*query as i64 - min_val as i64) as usize;
    if !read_bit(index, 9, p) {
        return Some(0);
    }
    let n = count_bits(index, 9, p);
    read_nth(index, 9 + bitmap_bytes as usize, n)
}

/// Answers a query from the bytes of an index, where they tell.
pub fn query_idx(_parameter: &Parameter, index: &[u8], query: &i32) -> (r: Option<u64>)
    ensures
        r == answer(index@, *query),
{
    if index.len() == 0 {
        return None;
    }
    match index[0] {
        INDEX_DENSE_BITMAP => query_dense_bitmap(index, query),
        INDEX_EXACT_COMPRESSED => query_exact_compressed(index, query),
        INDEX_HYBRID => query_hybrid_index(index, query),
        _ => None,
    }
}

} // verus!
