//! A complete list for a block with few different values, the most frequent values
//! alone where they take most of the block, otherwise the most frequent values and
//! a Bloom filter of the others.
use vstd::prelude::*;

use crate::bytes::{
    holds, i32_at, into_boxed_slice, lemma_holds_split, lemma_holds_whole, push_u16, read_i32,
    read_u16, u16_at, u16_bytes, u16_round_trip,
};
use crate::compressed::{
    ascending_top, build_exact_compressed, build_hybrid_index, compressed_answer,
    compressed_answers, compressed_index, hybrid_answer, hybrid_answers, hybrid_parts, hybrid_says,
    is_hybrid_index, left_out, query_exact_compressed, query_hybrid_index, rounded_probes,
};
use crate::deltas::{delta_bytes, delta_scan, delta_scan_finds, push_deltas, scan_deltas};
use crate::double::Double;
use crate::exact::below_is_not_above;
use crate::hashing::Murmur;
use crate::minmax::{
    lemma_outside_absent, lemma_range_header, out_of_range, push_range_header, range_header,
};
use crate::order::above_is_monotone;
use crate::parameter::Parameter;
use crate::sizing::{
    bloom_bytes, clamped, filters_take_bits_for_values, optimal_bytes, optimal_bytes_grow,
};
use crate::table::{lemma_entry_counted, partial, partial_answer};
use crate::tally::{
    ascending, count_values, counted, counts_add_up, distinct, entries_by_count, has_key, highest,
    in_order, is_tally, is_top, keys_differ, lemma_in_order, lemma_lists_tally, lemma_occurs,
    lemma_told_values, lists, lowest, max_value, min_value, most_frequent_first, occurrences,
    range_covers, sum_counts, tally_has_distinct_entries, top_sum, top_sum_of_tally,
};
use crate::topk::{filtered_lists_tell_the_listed, topk_says};

verus! {

pub const INDEX_EMPTY: u8 = 0;

pub const INDEX_EXACT_COMPRESSED: u8 = 1;

pub const INDEX_HYBRID: u8 = 2;

pub const INDEX_HEAVY_HITTER: u8 = 3;

/// The least number of probes of a value.
pub const MIN_HASHES: u8 = 3;

/// The greatest number of probes of a value.
pub const MAX_HASHES: u8 = 5;

/// The layouts of the index of a nonempty block.
#[derive(Clone, Copy, Debug, PartialEq, Eq, Structural)]
pub enum Layout {
    Exact,
    HeavyHitter { listed: usize },
    Hybrid,
}

/// The share of the block that its `n` most frequent values take.
pub open spec fn coverage(data: Seq<i32>, n: nat) -> Double {
    Double::spec_decimal(top_sum(data, n), data.len())
}

/// Whether a block with so many different values gets a complete list.
pub open spec fn is_exact(ratio: Double, distinct: nat) -> bool {
    ||| distinct <= 120
    ||| distinct <= 350 && ratio.spec_above(12, 1)
    ||| distinct <= 600 && ratio.spec_above(22, 1)
    ||| distinct <= 1000 && ratio.spec_above(40, 1)
}

/// The layout for a block.
pub open spec fn layout_of(parameter: Parameter, data: Seq<i32>) -> Layout {
    let ratio = parameter.spec_ratio();
    if is_exact(ratio, distinct(data)) {
        Layout::Exact
    } else if ratio.spec_above(15, 1) && coverage(data, 20).spec_above(7, 10) {
        Layout::HeavyHitter { listed: 20 }
    } else if ratio.spec_above(10, 1) && coverage(data, 50).spec_above(75, 100) {
        Layout::HeavyHitter { listed: 50 }
    } else if ratio.spec_above(7, 1) && coverage(data, 100).spec_above(80, 100) {
        Layout::HeavyHitter { listed: 100 }
    } else {
        Layout::Hybrid
    }
}

/// The number of values to list for these cost factors and this coverage.
pub open spec fn base_k(ratio: Double, coverage: Double) -> nat {
    if ratio.spec_above(35, 1) {
        if coverage.spec_above(5, 10) {
            250
        } else {
            180
        }
    } else if ratio.spec_above(25, 1) {
        if coverage.spec_above(5, 10) {
            200
        } else {
            140
        }
    } else if ratio.spec_above(15, 1) {
        if coverage.spec_above(4, 10) {
            150
        } else {
            100
        }
    } else if ratio.spec_above(10, 1) {
        if coverage.spec_above(4, 10) {
            110
        } else {
            75
        }
    } else if ratio.spec_above(6, 1) {
        if coverage.spec_above(3, 10) {
            70
        } else {
            50
        }
    } else if ratio.spec_above(3, 1) {
        if coverage.spec_above(25, 100) {
            40
        } else {
            25
        }
    } else {
        15
    }
}

/// The number of values to list: at least ten, and beyond that no more than a third.
pub open spec fn listed_count(ratio: Double, distinct: nat, coverage: Double) -> nat {
    let base = base_k(ratio, coverage);
    let capped = if base < distinct / 3 {
        base
    } else {
        distinct / 3
    };
    if capped < 10 {
        10
    } else {
        capped
    }
}

/// The negated natural logarithm of the rate of false positives that a filter aims
/// at: 0.025 or 0.015 for a covered block, otherwise 0.002, 0.004, 0.008, 0.018,
/// 0.035 or 0.07.
pub open spec fn fpr_exponent(ratio: Double, coverage: Double) -> Double {
    if coverage.spec_above(6, 10) {
        Double::spec_decimal(8306618067481101, 2251799813685248)
    } else if coverage.spec_above(4, 10) {
        Double::spec_decimal(4199705077879927, 1_000_000_000_000_000)
    } else if ratio.spec_above(30, 1) {
        Double::spec_decimal(6214608098422191, 1_000_000_000_000_000)
    } else if ratio.spec_above(20, 1) {
        Double::spec_decimal(5521460917862246, 1_000_000_000_000_000)
    } else if ratio.spec_above(12, 1) {
        Double::spec_decimal(48283137373023016, 10_000_000_000_000_000)
    } else if ratio.spec_above(6, 1) {
        Double::spec_decimal(4017383521085972, 1_000_000_000_000_000)
    } else if ratio.spec_above(3, 1) {
        Double::spec_decimal(6704814434985447, 2_000_000_000_000_000)
    } else {
        Double::spec_decimal(2659260036932778, 1_000_000_000_000_000)
    }
}

/// The least and the greatest number of bytes of a filter.
pub open spec fn bloom_limits(ratio: Double) -> (nat, nat) {
    if ratio.spec_above(30, 1) {
        (1024, 5120)
    } else if ratio.spec_above(20, 1) {
        (768, 4096)
    } else if ratio.spec_above(12, 1) {
        (640, 3072)
    } else if ratio.spec_above(6, 1) {
        (512, 2048)
    } else if ratio.spec_above(3, 1) {
        (384, 1280)
    } else {
        (256, 896)
    }
}

/// The bytes of the filter.
pub open spec fn filter_size(ratio: Double, distinct: nat, coverage: Double) -> nat {
    let (lo, hi) = bloom_limits(ratio);
    clamped(optimal_bytes(fpr_exponent(ratio, coverage), distinct), lo, hi)
}

/// The number of values to list of a block beside a filter.
pub open spec fn top_k(parameter: Parameter, data: Seq<i32>) -> nat {
    listed_count(parameter.spec_ratio(), distinct(data), coverage(data, 50))
}

/// The bytes of the filter of a block.
pub open spec fn bloom_size(parameter: Parameter, data: Seq<i32>) -> nat {
    filter_size(parameter.spec_ratio(), distinct(data), coverage(data, 50))
}

/// The number of probes into the filter of a block.
pub open spec fn num_hashes(parameter: Parameter, data: Seq<i32>) -> nat {
    rounded_probes(
        bloom_size(parameter, data),
        left_out(data, top_k(parameter, data)),
        MIN_HASHES as nat,
        MAX_HASHES as nat,
    )
}

/// The tag, the range, the number of entries in 16 bits, and the list.
pub open spec fn heavy_index(min_val: i32, max_val: i32, top: Seq<(i32, u64)>) -> Seq<u8> {
    range_header(INDEX_HEAVY_HITTER, min_val, max_val) + u16_bytes(
        (top.len() % 0x1_0000) as u16,
    ) + delta_bytes(top)
}

/// Whether `index` holds the range and lists `top`, the `k` most frequent values of
/// `data`.
pub open spec fn is_heavy_index(
    data: Seq<i32>,
    min_val: i32,
    max_val: i32,
    k: nat,
    top: Seq<(i32, u64)>,
    index: Seq<u8>,
) -> bool {
    &&& is_top(top, k, data)
    &&& ascending(top)
    &&& index == heavy_index(min_val, max_val, top)
}

/// Whether `index` is an index of `data`. It is open which of equally frequent values
/// are listed.
pub open spec fn is_index(parameter: Parameter, data: Seq<i32>, index: Seq<u8>) -> bool {
    if data.len() == 0 {
        index == seq![INDEX_EMPTY]
    } else {
        match layout_of(parameter, data) {
            Layout::Exact => exists|entries: Seq<(i32, u64)>| #[trigger]
                is_tally(entries, data) && ascending(entries) && index == compressed_index(
                    INDEX_EXACT_COMPRESSED,
                    lowest(data),
                    highest(data),
                    entries,
                ),
            Layout::HeavyHitter { listed } => exists|top: Seq<(i32, u64)>| #[trigger]
                is_heavy_index(data, lowest(data), highest(data), listed as nat, top, index),
            Layout::Hybrid => exists|top: Seq<(i32, u64)>, bloom: Seq<u8>| #[trigger]
                is_hybrid_index(
                    INDEX_HYBRID,
                    data,
                    lowest(data),
                    highest(data),
                    top_k(parameter, data),
                    num_hashes(parameter, data),
                    top,
                    bloom,
                    index,
                ) && bloom.len() == bloom_size(parameter, data),
        }
    }
}

/// The answer of a list of the most frequent values alone.
pub open spec fn heavy_answer(index: Seq<u8>, query: i32) -> Option<u64> {
    if index.len() < 11 {
        None
    } else if out_of_range(index, query) {
        Some(0)
    } else {
        partial_answer(delta_scan(index, 11, 0, u16_at(index, 9) as nat, query).0)
    }
}

/// The answer that the bytes of an index give.
pub open spec fn answer(index: Seq<u8>, query: i32) -> Option<u64> {
    if index.len() == 0 {
        None
    } else if index[0] == INDEX_HEAVY_HITTER {
        heavy_answer(index, query)
    } else if index[0] == INDEX_EXACT_COMPRESSED {
        compressed_answer(index, query)
    } else if index[0] == INDEX_HYBRID {
        hybrid_answer(index, query)
    } else {
        None
    }
}

proof fn lemma_heavy_layout(index: Seq<u8>, min_val: i32, max_val: i32, top: Seq<(i32, u64)>)
    requires
        top.len() < 0x1_0000,
        index == heavy_index(min_val, max_val, top),
    ensures
        index.len() >= 11,
        holds(index, 0, range_header(INDEX_HEAVY_HITTER, min_val, max_val)),
        u16_at(index, 9) == top.len(),
        holds(index, 11, delta_bytes(top)),
{
    let header = range_header(INDEX_HEAVY_HITTER, min_val, max_val);
    let n = (top.len() % 0x1_0000) as u16;
    lemma_holds_whole(index);
    lemma_holds_split(index, 0, header + u16_bytes(n), delta_bytes(top));
    lemma_holds_split(index, 0, header, u16_bytes(n));
    lemma_range_header(index, INDEX_HEAVY_HITTER, min_val, max_val);
    u16_round_trip(index, 9, n);
}

proof fn lemma_heavy_parts(index: Seq<u8>, data: Seq<i32>, top: Seq<(i32, u64)>, query: i32)
    requires
        keys_differ(top),
        counted(top, data),
        index.len() >= 11,
        u16_at(index, 9) == top.len(),
        holds(index, 11, delta_bytes(top)),
        out_of_range(index, query) ==> !data.contains(query),
    ensures
        heavy_answer(index, query) matches Some(count) ==> count == occurrences(data, query),
        heavy_answer(index, query) is Some <==> out_of_range(index, query) || has_key(top, query),
{
    assert(top.take(0) =~= Seq::empty());
    delta_scan_finds(index, 11, top, 0, query);
    lemma_entry_counted(top, data, query);
    lemma_occurs(data, query);
}

proof fn lemma_heavy_answers(
    index: Seq<u8>,
    data: Seq<i32>,
    k: nat,
    top: Seq<(i32, u64)>,
    query: i32,
)
    requires
        data.len() > 0,
        k < 0x1_0000,
        is_heavy_index(data, lowest(data), highest(data), k, top, index),
    ensures
        index.len() > 0,
        index[0] == INDEX_HEAVY_HITTER,
        heavy_answer(index, query) matches Some(count) ==> count == occurrences(data, query),
        heavy_answer(index, query) is Some <==> query < lowest(data) || query > highest(data)
            || has_key(top, query),
{
    lemma_heavy_layout(index, lowest(data), highest(data), top);
    lemma_range_header(index, INDEX_HEAVY_HITTER, lowest(data), highest(data));
    if query < lowest(data) || query > highest(data) {
        lemma_outside_absent(data, query);
    }
    lemma_occurs(data, query);
    lemma_heavy_parts(index, data, top, query);
}

/// An answer is the number of occurrences. An empty block gives none, a complete list
/// gives one to every query, a list of the most frequent values to these and to the
/// values outside the range, and a list with a filter also to those that do not pass
/// the filter of the others.
pub proof fn answers_are_counts(parameter: Parameter, data: Seq<i32>, index: Seq<u8>, query: i32)
    requires
        is_index(parameter, data, index),
    ensures
        answer(index, query) matches Some(count) ==> count == occurrences(data, query),
        data.len() == 0 ==> answer(index, query) is None,
        data.len() > 0 ==> match layout_of(parameter, data) {
            Layout::Exact => answer(index, query) is Some,
            Layout::HeavyHitter { listed } => exists|top: Seq<(i32, u64)>| #[trigger]
                is_top(top, listed as nat, data) && (answer(index, query) is Some <==> query
                    < lowest(data) || query > highest(data) || has_key(top, query)),
            Layout::Hybrid => exists|top: Seq<(i32, u64)>| #[trigger]
                is_top(top, top_k(parameter, data), data) && answer(index, query) == hybrid_says(
                    data,
                    top,
                    num_hashes(parameter, data) as u32,
                    8 * bloom_size(parameter, data),
                    query,
                ),
        },
{
    if data.len() > 0 {
        match layout_of(parameter, data) {
            Layout::Exact => {
                let entries = choose|entries: Seq<(i32, u64)>| #[trigger]
                    is_tally(entries, data) && ascending(entries) && index == compressed_index(
                        INDEX_EXACT_COMPRESSED,
                        lowest(data),
                        highest(data),
                        entries,
                    );
                tally_has_distinct_entries(entries, data);
                compressed_answers(index, INDEX_EXACT_COMPRESSED, entries, data, query);
            },
            Layout::HeavyHitter { listed } => {
                let top = choose|top: Seq<(i32, u64)>| #[trigger]
                    is_heavy_index(data, lowest(data), highest(data), listed as nat, top, index);
                lemma_heavy_answers(index, data, listed as nat, top, query);
            },
            Layout::Hybrid => {
                let (top, bloom) = choose|top: Seq<(i32, u64)>, bloom: Seq<u8>| #[trigger]
                    is_hybrid_index(
                        INDEX_HYBRID,
                        data,
                        lowest(data),
                        highest(data),
                        top_k(parameter, data),
                        num_hashes(parameter, data),
                        top,
                        bloom,
                        index,
                    ) && bloom.len() == bloom_size(parameter, data);
                hybrid_answers(
                    index,
                    INDEX_HYBRID,
                    data,
                    top_k(parameter, data),
                    num_hashes(parameter, data),
                    top,
                    bloom,
                    query,
                );
            },
        }
    }
}

/// The list takes from ten to 250 values, beyond ten no more than a third.
pub proof fn listed_count_is_bounded(ratio: Double, distinct: nat, coverage: Double)
    ensures
        10 <= listed_count(ratio, distinct, coverage) <= 250,
        listed_count(ratio, distinct, coverage) <= 10 || listed_count(ratio, distinct, coverage)
            <= distinct / 3,
{
    lemma_base_grows(ratio, coverage, coverage);
}

/// More different values and more coverage never make the list shorter.
pub proof fn listed_count_grows(ratio: Double, d1: nat, d2: nat, c1: Double, c2: Double)
    requires
        c1.within(10000),
        c2.within(10000),
        d1 <= d2,
        c1.spec_le(c2),
    ensures
        listed_count(ratio, d1, c1) <= listed_count(ratio, d2, c2),
{
    above_is_monotone(c1, c2, 5, 10);
    above_is_monotone(c1, c2, 4, 10);
    above_is_monotone(c1, c2, 3, 10);
    above_is_monotone(c1, c2, 25, 100);
    lemma_base_grows(ratio, c1, c2);
}

proof fn lemma_base_grows(ratio: Double, c1: Double, c2: Double)
    requires
        c1.spec_above(5, 10) ==> c2.spec_above(5, 10),
        c1.spec_above(4, 10) ==> c2.spec_above(4, 10),
        c1.spec_above(3, 10) ==> c2.spec_above(3, 10),
        c1.spec_above(25, 100) ==> c2.spec_above(25, 100),
    ensures
        base_k(ratio, c1) <= base_k(ratio, c2) <= 250,
{
}

/// The filter of a block stays within its limits, takes the least of them where there is
/// nothing to filter, and does not shrink as there are more different values.
pub proof fn filter_size_is_bounded(ratio: Double, d1: nat, d2: nat, coverage: Double)
    requires
        d1 <= d2 <= u64::MAX,
    ensures
        bloom_limits(ratio).0 <= filter_size(ratio, d1, coverage) <= bloom_limits(ratio).1,
        filter_size(ratio, 0, coverage) == bloom_limits(ratio).0,
        filter_size(ratio, d1, coverage) <= filter_size(ratio, d2, coverage),
{
    lemma_exponent(ratio, coverage);
    optimal_bytes_grow(fpr_exponent(ratio, coverage), d1, d2);
}

/// A filter takes 7.678 bits for a value where more than 0.6 of the block are covered, and
/// 8.741 above 0.4. Otherwise it takes 12.935 where the ratio is above 30, 11.492 above 20,
/// 10.05 above 12, 8.362 above 6, 6.978 above 3, and else 5.535. Its size lies between
/// limits that rise with the ratio.
pub proof fn filters_take_bits(
    ratio: Double,
    coverage: Double,
    count: nat,
    bits: nat,
    lo: nat,
    hi: nat,
)
    requires
        count <= u64::MAX,
        bits == if coverage.spec_above(6, 10) {
            7678nat
        } else if coverage.spec_above(4, 10) {
            8741
        } else if ratio.spec_above(30, 1) {
            12935
        } else if ratio.spec_above(20, 1) {
            11492
        } else if ratio.spec_above(12, 1) {
            10050
        } else if ratio.spec_above(6, 1) {
            8362
        } else if ratio.spec_above(3, 1) {
            6978
        } else {
            5535
        },
        lo == if ratio.spec_above(30, 1) {
            1024nat
        } else if ratio.spec_above(20, 1) {
            768
        } else if ratio.spec_above(12, 1) {
            640
        } else if ratio.spec_above(6, 1) {
            512
        } else if ratio.spec_above(3, 1) {
            384
        } else {
            256
        },
        hi == if ratio.spec_above(30, 1) {
            5120nat
        } else if ratio.spec_above(20, 1) {
            4096
        } else if ratio.spec_above(12, 1) {
            3072
        } else if ratio.spec_above(6, 1) {
            2048
        } else if ratio.spec_above(3, 1) {
            1280
        } else {
            896
        },
    ensures
        lo <= filter_size(ratio, count, coverage) <= hi,
        filter_size(ratio, count, coverage) < hi ==> bits * count <= 8000 * filter_size(
            ratio,
            count,
            coverage,
        ) + count,
        filter_size(ratio, count, coverage) > lo ==> 8000 * filter_size(ratio, count, coverage)
            <= bits * count + count + 8000,
{
    assert((7678 - 1) * (2251799813685248nat * 4804530139182014nat) * 0x10_0000_0000_0000
        <= 1000 * (8306618067481101nat * 10_000_000_000_000_000nat) * 0xf_ffff_ffff_fff3)
        by (nonlinear_arith);
    assert(1000 * (8306618067481101nat * 10_000_000_000_000_000nat) * 0x10_0000_0000_000d <= (7678
        + 1) * (2251799813685248nat * 4804530139182014nat) * 0x10_0000_0000_0000)
        by (nonlinear_arith);
    filters_take_bits_for_values(8306618067481101, 2251799813685248, 7678, count, lo, hi);
    assert((8741 - 1) * (1_000_000_000_000_000nat * 4804530139182014nat) * 0x10_0000_0000_0000
        <= 1000 * (4199705077879927nat * 10_000_000_000_000_000nat) * 0xf_ffff_ffff_fff3)
        by (nonlinear_arith);
    assert(1000 * (4199705077879927nat * 10_000_000_000_000_000nat) * 0x10_0000_0000_000d <= (8741
        + 1) * (1_000_000_000_000_000nat * 4804530139182014nat) * 0x10_0000_0000_0000)
        by (nonlinear_arith);
    filters_take_bits_for_values(4199705077879927, 1_000_000_000_000_000, 8741, count, lo, hi);
    assert((12935 - 1) * (1_000_000_000_000_000nat * 4804530139182014nat) * 0x10_0000_0000_0000
        <= 1000 * (6214608098422191nat * 10_000_000_000_000_000nat) * 0xf_ffff_ffff_fff3)
        by (nonlinear_arith);
    assert(1000 * (6214608098422191nat * 10_000_000_000_000_000nat) * 0x10_0000_0000_000d <= (12935
        + 1) * (1_000_000_000_000_000nat * 4804530139182014nat) * 0x10_0000_0000_0000)
        by (nonlinear_arith);
    filters_take_bits_for_values(6214608098422191, 1_000_000_000_000_000, 12935, count, lo, hi);
    assert((11492 - 1) * (1_000_000_000_000_000nat * 4804530139182014nat) * 0x10_0000_0000_0000
        <= 1000 * (5521460917862246nat * 10_000_000_000_000_000nat) * 0xf_ffff_ffff_fff3)
        by (nonlinear_arith);
    assert(1000 * (5521460917862246nat * 10_000_000_000_000_000nat) * 0x10_0000_0000_000d <= (11492
        + 1) * (1_000_000_000_000_000nat * 4804530139182014nat) * 0x10_0000_0000_0000)
        by (nonlinear_arith);
    filters_take_bits_for_values(5521460917862246, 1_000_000_000_000_000, 11492, count, lo, hi);
    assert((10050 - 1) * (10_000_000_000_000_000nat * 4804530139182014nat) * 0x10_0000_0000_0000
        <= 1000 * (48283137373023016nat * 10_000_000_000_000_000nat) * 0xf_ffff_ffff_fff3)
        by (nonlinear_arith);
    assert(1000 * (48283137373023016nat * 10_000_000_000_000_000nat) * 0x10_0000_0000_000d <= (10050
        + 1) * (10_000_000_000_000_000nat * 4804530139182014nat) * 0x10_0000_0000_0000)
        by (nonlinear_arith);
    filters_take_bits_for_values(48283137373023016, 10_000_000_000_000_000, 10050, count, lo, hi);
    assert((8362 - 1) * (1_000_000_000_000_000nat * 4804530139182014nat) * 0x10_0000_0000_0000
        <= 1000 * (4017383521085972nat * 10_000_000_000_000_000nat) * 0xf_ffff_ffff_fff3)
        by (nonlinear_arith);
    assert(1000 * (4017383521085972nat * 10_000_000_000_000_000nat) * 0x10_0000_0000_000d <= (8362
        + 1) * (1_000_000_000_000_000nat * 4804530139182014nat) * 0x10_0000_0000_0000)
        by (nonlinear_arith);
    filters_take_bits_for_values(4017383521085972, 1_000_000_000_000_000, 8362, count, lo, hi);
    assert((6978 - 1) * (2_000_000_000_000_000nat * 4804530139182014nat) * 0x10_0000_0000_0000
        <= 1000 * (6704814434985447nat * 10_000_000_000_000_000nat) * 0xf_ffff_ffff_fff3)
        by (nonlinear_arith);
    assert(1000 * (6704814434985447nat * 10_000_000_000_000_000nat) * 0x10_0000_0000_000d <= (6978
        + 1) * (2_000_000_000_000_000nat * 4804530139182014nat) * 0x10_0000_0000_0000)
        by (nonlinear_arith);
    filters_take_bits_for_values(6704814434985447, 2_000_000_000_000_000, 6978, count, lo, hi);
    assert((5535 - 1) * (1_000_000_000_000_000nat * 4804530139182014nat) * 0x10_0000_0000_0000
        <= 1000 * (2659260036932778nat * 10_000_000_000_000_000nat) * 0xf_ffff_ffff_fff3)
        by (nonlinear_arith);
    assert(1000 * (2659260036932778nat * 10_000_000_000_000_000nat) * 0x10_0000_0000_000d <= (5535
        + 1) * (1_000_000_000_000_000nat * 4804530139182014nat) * 0x10_0000_0000_0000)
        by (nonlinear_arith);
    filters_take_bits_for_values(2659260036932778, 1_000_000_000_000_000, 5535, count, lo, hi);
}

/// The list takes 15 values. Where the ratio is above 3 it takes 25 or 40, above 6 it takes
/// 50 or 70, above 10 it takes 75 or 110, above 15 it takes 100 or 150, above 25 it takes
/// 140 or 200, and above 35 it takes 180 or 250: the more where more than 0.25, 0.3, 0.4,
/// 0.4, 0.5 or 0.5 of the block are covered. Of the values it takes no more than a third,
/// but at least ten.
pub proof fn lists_follow_the_coverage(
    ratio: Double,
    distinct: nat,
    coverage: Double,
    plain: nat,
    covered: nat,
    base: nat,
)
    requires
        plain == if ratio.spec_above(35, 1) {
            180nat
        } else if ratio.spec_above(25, 1) {
            140
        } else if ratio.spec_above(15, 1) {
            100
        } else if ratio.spec_above(10, 1) {
            75
        } else if ratio.spec_above(6, 1) {
            50
        } else if ratio.spec_above(3, 1) {
            25
        } else {
            15
        },
        covered == if ratio.spec_above(35, 1) {
            250nat
        } else if ratio.spec_above(25, 1) {
            200
        } else if ratio.spec_above(15, 1) {
            150
        } else if ratio.spec_above(10, 1) {
            110
        } else if ratio.spec_above(6, 1) {
            70
        } else if ratio.spec_above(3, 1) {
            40
        } else {
            15
        },
        base == if (ratio.spec_above(25, 1) && coverage.spec_above(5, 10)) || (ratio.spec_above(
            10,
            1,
        ) && !ratio.spec_above(25, 1) && coverage.spec_above(4, 10)) || (ratio.spec_above(6, 1)
            && !ratio.spec_above(10, 1) && coverage.spec_above(3, 10)) || (!ratio.spec_above(6, 1)
            && coverage.spec_above(25, 100)) {
            covered
        } else {
            plain
        },
        ratio.within(10000),
    ensures
        listed_count(ratio, distinct, coverage) == clamped(
            if base < distinct / 3 {
                base
            } else {
                distinct / 3
            },
            10,
            250,
        ),
{
    below_is_not_above(ratio, 25, 1, 35, 1);
    below_is_not_above(ratio, 15, 1, 25, 1);
    below_is_not_above(ratio, 10, 1, 15, 1);
    below_is_not_above(ratio, 6, 1, 10, 1);
    listed_count_is_bounded(ratio, distinct, coverage);
    assert(base_k(ratio, coverage) == base);
}

proof fn lemma_exponent(ratio: Double, coverage: Double)
    ensures
        fpr_exponent(ratio, coverage).within(157),
        fpr_exponent(ratio, coverage).is_natural(),
{
    Double::lemma_decimal_within(8306618067481101, 2251799813685248);
    Double::lemma_decimal_within(4199705077879927, 1_000_000_000_000_000);
    Double::lemma_decimal_within(6214608098422191, 1_000_000_000_000_000);
    Double::lemma_decimal_within(5521460917862246, 1_000_000_000_000_000);
    Double::lemma_decimal_within(48283137373023016, 10_000_000_000_000_000);
    Double::lemma_decimal_within(4017383521085972, 1_000_000_000_000_000);
    Double::lemma_decimal_within(6704814434985447, 2_000_000_000_000_000);
    Double::lemma_decimal_within(2659260036932778, 1_000_000_000_000_000);
}

/// The share of the block that its `n` most frequent values take, given a tally.
fn calculate_coverage(data: &[i32], full: &Vec<(i32, u64)>, n: usize) -> (share: Double)
    requires
        data@.len() > 0,
        is_tally(full@, data@),
        most_frequent_first(full@),
    ensures
        share == coverage(data@, n as nat),
        share.within(157),
{
    proof {
        counts_add_up(full@, data@, full@.len());
        top_sum_of_tally(full@, data@, n as nat);
        assert(data@.len() == data.len());
    }
    let covered = sum_counts(full, n);
    Double::decimal(covered, data.len() as u64)
}

/// Picks the layout, given a tally of the block.
fn choose_layout(parameter: &Parameter, data: &[i32], full: &Vec<(i32, u64)>) -> (kind: Layout)
    requires
        data@.len() > 0,
        is_tally(full@, data@),
        most_frequent_first(full@),
    ensures
        kind == layout_of(*parameter, data@),
{
    proof {
        tally_has_distinct_entries(full@, data@);
    }
    let distinct_count = full.len();
    let ratio = parameter.ratio();
    if distinct_count <= 120 || (distinct_count <= 350 && ratio.above(12, 1)) || (distinct_count
        <= 600 && ratio.above(22, 1)) || (distinct_count <= 1000 && ratio.above(40, 1)) {
        return Layout::Exact;
    }
    if ratio.above(15, 1) && calculate_coverage(data, full, 20).above(7, 10) {
        return Layout::HeavyHitter { listed: 20 };
    }
    if ratio.above(10, 1) && calculate_coverage(data, full, 50).above(75, 100) {
        return Layout::HeavyHitter { listed: 50 };
    }
    if ratio.above(7, 1) && calculate_coverage(data, full, 100).above(80, 100) {
        return Layout::HeavyHitter { listed: 100 };
    }
    Layout::Hybrid
}

/// The number of values to list beside a filter.
pub fn calculate_top_k(ratio: Double, distinct_count: usize, coverage: Double) -> (k: usize)
    requires
        ratio.within(10000),
        coverage.within(10000),
    ensures
        k == listed_count(ratio, distinct_count as nat, coverage),
        10 <= k <= 250,
        k <= 10 || k <= distinct_count / 3,
{
    proof {
        listed_count_is_bounded(ratio, distinct_count as nat, coverage);
    }
    let base: usize = if ratio.above(35, 1) {
        if coverage.above(5, 10) {
            250
        } else {
            180
        }
    } else if ratio.above(25, 1) {
        if coverage.above(5, 10) {
            200
        } else {
            140
        }
    } else if ratio.above(15, 1) {
        if coverage.above(4, 10) {
            150
        } else {
            100
        }
    } else if ratio.above(10, 1) {
        if coverage.above(4, 10) {
            110
        } else {
            75
        }
    } else if ratio.above(6, 1) {
        if coverage.above(3, 10) {
            70
        } else {
            50
        }
    } else if ratio.above(3, 1) {
        if coverage.above(25, 100) {
            40
        } else {
            25
        }
    } else {
        15
    };
    let third: usize = distinct_count / 3;
    let k: usize = if base < third {
        base
    } else {
        third
    };
    if k < 10 {
        10
    } else {
        k
    }
}

/// The bytes of the filter.
pub fn calculate_bloom_size(
    ratio: Double,
    distinct_count: usize,
    coverage: Double,
) -> (size: usize)
    requires
        ratio.within(10000),
        coverage.within(10000),
    ensures
        size == filter_size(ratio, distinct_count as nat, coverage),
        bloom_limits(ratio).0 <= size <= bloom_limits(ratio).1,
{
    let exponent = if coverage.above(6, 10) {
        Double::decimal(8306618067481101, 2251799813685248)
    } else if coverage.above(4, 10) {
        Double::decimal(4199705077879927, 1_000_000_000_000_000)
    } else if ratio.above(30, 1) {
        Double::decimal(6214608098422191, 1_000_000_000_000_000)
    } else if ratio.above(20, 1) {
        Double::decimal(5521460917862246, 1_000_000_000_000_000)
    } else if ratio.above(12, 1) {
        Double::decimal(48283137373023016, 10_000_000_000_000_000)
    } else if ratio.above(6, 1) {
        Double::decimal(4017383521085972, 1_000_000_000_000_000)
    } else if ratio.above(3, 1) {
        Double::decimal(6704814434985447, 2_000_000_000_000_000)
    } else {
        Double::decimal(2659260036932778, 1_000_000_000_000_000)
    };
    let limits: (usize, usize) = if ratio.above(30, 1) {
        (1024, 5120)
    } else if ratio.above(20, 1) {
        (768, 4096)
    } else if ratio.above(12, 1) {
        (640, 3072)
    } else if ratio.above(6, 1) {
        (512, 2048)
    } else if ratio.above(3, 1) {
        (384, 1280)
    } else {
        (256, 896)
    };
    bloom_bytes(exponent, distinct_count, limits.0, limits.1)
}

/// The list of the most frequent values alone.
fn build_heavy_hitter(
    data: &[i32],
    full: &Vec<(i32, u64)>,
    top_n: usize,
    min_val: i32,
    max_val: i32,
) -> (index: Box<[u8]>)
    requires
        is_tally(full@, data@),
        most_frequent_first(full@),
    ensures
        exists|top: Seq<(i32, u64)>| #[trigger]
            is_heavy_index(data@, min_val, max_val, top_n as nat, top, index@),
{
    let top = ascending_top(full, top_n, Ghost(data@));
    let mut buffer: Vec<u8> = Vec::new();
    push_range_header(&mut buffer, INDEX_HEAVY_HITTER, min_val, max_val);
    push_u16(&mut buffer, (top.len() as u64 % 0x1_0000) as u16);
    push_deltas(&mut buffer, &top);
    assert(buffer@ =~= heavy_index(min_val, max_val, top@));
    let index = into_boxed_slice(buffer);
    assert(is_heavy_index(data@, min_val, max_val, top_n as nat, top@, index@));
    index
}

/// The number of values to list of a block, and the bytes of the filter.
fn calculate_sizes(parameter: &Parameter, data: &[i32], full: &Vec<(i32, u64)>) -> (sizes: (
    usize,
    usize,
))
    requires
        data@.len() > 0,
        is_tally(full@, data@),
        most_frequent_first(full@),
    ensures
        sizes.0 == top_k(*parameter, data@),
        sizes.1 == bloom_size(*parameter, data@),
        0 < sizes.1 <= 5120,
{
    proof {
        tally_has_distinct_entries(full@, data@);
    }
    let ratio = parameter.ratio();
    let share = calculate_coverage(data, full, 50);
    (
        calculate_top_k(ratio, full.len(), share),
        calculate_bloom_size(ratio, full.len(), share),
    )
}

/// The most frequent values of a block and a filter of the others.
fn build_hybrid(
    parameter: &Parameter,
    data: &[i32],
    full: &Vec<(i32, u64)>,
    min_val: i32,
    max_val: i32,
) -> (index: Box<[u8]>)
    requires
        data@.len() > 0,
        is_tally(full@, data@),
        most_frequent_first(full@),
    ensures
        exists|top: Seq<(i32, u64)>, bloom: Seq<u8>| #[trigger]
            is_hybrid_index(
                INDEX_HYBRID,
                data@,
                min_val,
                max_val,
                top_k(*parameter, data@),
                num_hashes(*parameter, data@),
                top,
                bloom,
                index@,
            ) && bloom.len() == bloom_size(*parameter, data@),
{
    let (k, size) = calculate_sizes(parameter, data, full);
    assert(num_hashes(*parameter, data@) == rounded_probes(
        size as nat,
        left_out(data@, k as nat),
        MIN_HASHES as nat,
        MAX_HASHES as nat,
    ));
    build_hybrid_index(
        INDEX_HYBRID,
        data,
        full,
        k,
        size,
        MIN_HASHES,
        MAX_HASHES,
        min_val,
        max_val,
    )
}

/// The values of a block that an index answers.
pub open spec fn answered_values(data: Seq<i32>, index: Seq<u8>) -> Set<i32> {
    Set::new(|v: i32| data.contains(v) && answer(index, v) is Some)
}

proof fn lemma_exact_rule(data: Seq<i32>, index: Seq<u8>, query: i32)
    requires
        data.len() > 0,
        exists|entries: Seq<(i32, u64)>| #[trigger]
            is_tally(entries, data) && ascending(entries) && index == compressed_index(
                INDEX_EXACT_COMPRESSED,
                lowest(data),
                highest(data),
                entries,
            ),
        distinct(data) < 0x1_0000_0000,
    ensures
        index.len() > 0,
        index[0] == INDEX_EXACT_COMPRESSED,
        index.len() == 13 + delta_bytes(in_order(data)).len(),
        answer(index, query) == Some(occurrences(data, query) as u64),
{
    let entries = choose|entries: Seq<(i32, u64)>| #[trigger]
        is_tally(entries, data) && ascending(entries) && index == compressed_index(
            INDEX_EXACT_COMPRESSED,
            lowest(data),
            highest(data),
            entries,
        );
    tally_has_distinct_entries(entries, data);
    lemma_in_order(entries, data);
    compressed_answers(index, INDEX_EXACT_COMPRESSED, entries, data, query);
}

/// Every query gets its answer from a list where there are up to 120 different values, up to
/// 350 for a ratio above 12, up to 600 above 22, or up to 1000 above 40.
pub proof fn few_values_are_all_answered(
    parameter: Parameter,
    data: Seq<i32>,
    index: Seq<u8>,
    query: i32,
)
    requires
        data.len() > 0,
        is_index(parameter, data, index),
        distinct(data) <= 120 || (distinct(data) <= 350 && parameter.spec_ratio().spec_above(12, 1))
            || (distinct(data) <= 600 && parameter.spec_ratio().spec_above(22, 1))
            || (distinct(data) <= 1000 && parameter.spec_ratio().spec_above(40, 1)),
    ensures
        answer(index, query) == Some(occurrences(data, query) as u64),
        index[0] == 1,
        index.len() == 13 + delta_bytes(in_order(data)).len(),
{
    assert(layout_of(parameter, data) == Layout::Exact);
    lemma_exact_rule(data, index, query);
}

proof fn lemma_heavy_rule(data: Seq<i32>, index: Seq<u8>, k: nat, query: i32)
    requires
        data.len() > 0,
        k < 0x1_0000,
        exists|top: Seq<(i32, u64)>| #[trigger]
            is_heavy_index(data, lowest(data), highest(data), k, top, index),
    ensures
        index.len() > 0,
        index[0] == INDEX_HEAVY_HITTER,
        exists|top: Seq<(i32, u64)>| #[trigger]
            is_top(top, k, data) && ascending(top) && index.len() == 11 + delta_bytes(top).len(),
        !data.contains(query) ==> (answer(index, query) is Some <==> (forall|v: i32| #[trigger]
            data.contains(v) ==> v < query) || (forall|v: i32| #[trigger]
            data.contains(v) ==> query < v)),
        answered_values(data, index).finite(),
        answered_values(data, index).len() == if k < distinct(data) {
            k
        } else {
            distinct(data)
        },
        forall|v: i32, w: i32| #[trigger]
            answered_values(data, index).contains(v) && #[trigger] data.contains(w)
                && !answered_values(data, index).contains(w) ==> occurrences(data, w)
                <= occurrences(data, v),
{
    let top = choose|top: Seq<(i32, u64)>| #[trigger]
        is_heavy_index(data, lowest(data), highest(data), k, top, index);
    range_covers(data);
    lemma_heavy_answers(index, data, k, top, query);
    let told = answered_values(data, index);
    assert forall|v: i32| #[trigger] told.contains(v) <==> data.contains(v) && has_key(top, v) by {
        lemma_heavy_answers(index, data, k, top, v);
    }
    if has_key(top, query) {
        let i = choose|i: int| 0 <= i < top.len() && (#[trigger] top[i]).0 == query;
        assert(data.contains(top[i].0));
    }
    lemma_told_values(top, k, data, told);
}

/// Otherwise the most frequent values alone are listed where they take most of the block:
/// 20 of them take more than 0.7 of it and the ratio is above 15, or 50 of them more than
/// 0.75 above 10, or 100 of them more than 0.8 above 7.
pub proof fn heavy_hitters_are_answered(
    parameter: Parameter,
    data: Seq<i32>,
    index: Seq<u8>,
    k: nat,
    query: i32,
)
    requires
        data.len() > 0,
        is_index(parameter, data, index),
        !(distinct(data) <= 120 || (distinct(data) <= 350
            && parameter.spec_ratio().spec_above(12, 1))
            || (distinct(data) <= 600 && parameter.spec_ratio().spec_above(22, 1))
            || (distinct(data) <= 1000 && parameter.spec_ratio().spec_above(40, 1))),
        (parameter.spec_ratio().spec_above(15, 1)
            && Double::spec_decimal(top_sum(data, 20), data.len()).spec_above(7, 10))
            || (parameter.spec_ratio().spec_above(10, 1)
            && Double::spec_decimal(top_sum(data, 50), data.len()).spec_above(75, 100))
            || (parameter.spec_ratio().spec_above(7, 1)
            && Double::spec_decimal(top_sum(data, 100), data.len()).spec_above(80, 100)),
        k == if parameter.spec_ratio().spec_above(15, 1)
            && Double::spec_decimal(top_sum(data, 20), data.len()).spec_above(7, 10) {
            20nat
        } else if parameter.spec_ratio().spec_above(10, 1)
            && Double::spec_decimal(top_sum(data, 50), data.len()).spec_above(75, 100) {
            50
        } else {
            100
        },
    ensures
        index[0] == 3,
        exists|top: Seq<(i32, u64)>| #[trigger]
            is_top(top, k, data) && ascending(top) && index.len() == 11 + delta_bytes(top).len(),
        !data.contains(query) ==> (answer(index, query) is Some <==> (forall|v: i32| #[trigger]
            data.contains(v) ==> v < query) || (forall|v: i32| #[trigger]
            data.contains(v) ==> query < v)),
        answered_values(data, index).finite(),
        answered_values(data, index).len() == if k < distinct(data) {
            k
        } else {
            distinct(data)
        },
        forall|v: i32, w: i32| #[trigger]
            answered_values(data, index).contains(v) && #[trigger] data.contains(w)
                && !answered_values(data, index).contains(w) ==> occurrences(data, w)
                <= occurrences(data, v),
{
    assert(layout_of(parameter, data) == (Layout::HeavyHitter { listed: k as usize }));
    lemma_heavy_rule(data, index, k, query);
}

proof fn lemma_hybrid_rule(
    data: Seq<i32>,
    index: Seq<u8>,
    k: nat,
    hashes: nat,
    size: nat,
    top: Seq<(i32, u64)>,
    bloom: Seq<u8>,
    query: i32,
)
    requires
        data.len() > 0,
        k < 0x1_0000_0000,
        hashes < 256,
        size > 0,
        bloom.len() == size,
        is_hybrid_index(
            INDEX_HYBRID,
            data,
            lowest(data),
            highest(data),
            k,
            hashes,
            top,
            bloom,
            index,
        ),
    ensures
        is_top(top, k, data),
        index.len() == 14 + delta_bytes(top).len() + size,
        index[9] == hashes,
        answer(index, query) == hybrid_says(data, top, hashes as u32, 8 * size, query),
        answered_values(data, index).finite(),
        answered_values(data, index).len() == if k < distinct(data) {
            k
        } else {
            distinct(data)
        },
        forall|v: i32, w: i32| #[trigger]
            answered_values(data, index).contains(v) && #[trigger] data.contains(w)
                && !answered_values(data, index).contains(w) ==> occurrences(data, w)
                <= occurrences(data, v),
{
    assert forall|q: i32| #[trigger] answer(index, q) == hybrid_says(
        data,
        top,
        hashes as u32,
        8 * size,
        q,
    ) by {
        hybrid_answers(index, INDEX_HYBRID, data, k, hashes, top, bloom, q);
    }
    hybrid_parts(index, INDEX_HYBRID, lowest(data), highest(data), hashes as u8, top, bloom);
    range_covers(data);
    let told = answered_values(data, index);
    assert forall|v: i32| #[trigger] told.contains(v) <==> data.contains(v) && topk_says::<Murmur>(
        data,
        top,
        hashes as u32,
        8 * size,
        v,
    ) is Some by {
        assert(answer(index, v) == hybrid_says(data, top, hashes as u32, 8 * size, v));
    }
    filtered_lists_tell_the_listed::<Murmur>(data, top, k, hashes as u32, 8 * size, told);
    assert(answer(index, query) == hybrid_says(data, top, hashes as u32, 8 * size, query));
}

/// Otherwise the `k` most frequent values are answered, and a filter answers for the others.
/// The sizes follow the share of the block that the 50 most frequent values take.
pub proof fn frequent_values_are_answered(
    parameter: Parameter,
    data: Seq<i32>,
    index: Seq<u8>,
    share: Double,
    k: nat,
    query: i32,
)
    requires
        0 < data.len() <= u64::MAX,
        is_index(parameter, data, index),
        !(distinct(data) <= 120 || (distinct(data) <= 350
            && parameter.spec_ratio().spec_above(12, 1))
            || (distinct(data) <= 600 && parameter.spec_ratio().spec_above(22, 1))
            || (distinct(data) <= 1000 && parameter.spec_ratio().spec_above(40, 1))),
        !(parameter.spec_ratio().spec_above(15, 1)
            && Double::spec_decimal(top_sum(data, 20), data.len()).spec_above(7, 10)),
        !(parameter.spec_ratio().spec_above(10, 1)
            && Double::spec_decimal(top_sum(data, 50), data.len()).spec_above(75, 100)),
        !(parameter.spec_ratio().spec_above(7, 1)
            && Double::spec_decimal(top_sum(data, 100), data.len()).spec_above(80, 100)),
        share == Double::spec_decimal(top_sum(data, 50), data.len()),
        k == listed_count(parameter.spec_ratio(), distinct(data), share),
    ensures
        index[0] == 2,
        answered_values(data, index).finite(),
        answered_values(data, index).len() == if k < distinct(data) {
            k
        } else {
            distinct(data)
        },
        forall|v: i32, w: i32| #[trigger]
            answered_values(data, index).contains(v) && #[trigger] data.contains(w)
                && !answered_values(data, index).contains(w) ==> occurrences(data, w)
                <= occurrences(data, v),
        exists|top: Seq<(i32, u64)>| #[trigger]
            is_top(top, k, data) && index.len() == 14 + delta_bytes(top).len() + filter_size(
                parameter.spec_ratio(),
                distinct(data),
                share,
            ) && answer(index, query) == hybrid_says(
                data,
                top,
                index[9] as u32,
                (8 * (index.len() - 14 - delta_bytes(top).len())) as nat,
                query,
            ),
        index[9] == rounded_probes(
            filter_size(parameter.spec_ratio(), distinct(data), share),
            if k < distinct(data) {
                (distinct(data) - k) as nat
            } else {
                0
            },
            3,
            5,
        ),
{
    assert(layout_of(parameter, data) == Layout::Hybrid);
    let size = bloom_size(parameter, data);
    let hashes = num_hashes(parameter, data);
    let (top, bloom) = choose|top: Seq<(i32, u64)>, bloom: Seq<u8>| #[trigger]
        is_hybrid_index(
            INDEX_HYBRID,
            data,
            lowest(data),
            highest(data),
            top_k(parameter, data),
            num_hashes(parameter, data),
            top,
            bloom,
            index,
        ) && bloom.len() == bloom_size(parameter, data);
    listed_count_is_bounded(parameter.spec_ratio(), distinct(data), share);
    hybrid_answers(index, INDEX_HYBRID, data, k, hashes, top, bloom, query);
    lemma_hybrid_rule(data, index, k, hashes, size, top, bloom, query);
}

/// The index of an empty block is a single zero, and tells nothing.
pub proof fn empty_blocks_tell_nothing(
    parameter: Parameter,
    data: Seq<i32>,
    index: Seq<u8>,
    query: i32,
)
    requires
        data.len() == 0,
        is_index(parameter, data, index),
    ensures
        index == seq![0u8],
        answer(index, query) is None,
{
}

/// Bytes that are no index, or stop short of its header, tell nothing. A range tells of the
/// values outside it that they do not occur.
pub proof fn damaged_indexes_tell_nothing(index: Seq<u8>, query: i32)
    ensures
        index.len() == 0 ==> answer(index, query) is None,
        index.len() > 0 && index[0] != 1 && index[0] != 2 && index[0] != 3
            ==> answer(index, query) is None,
        0 < index.len() < 13 && index[0] == 1 ==> answer(index, query) is None,
        0 < index.len() < 14 && index[0] == 2 ==> answer(index, query) is None,
        0 < index.len() < 11 && index[0] == 3 ==> answer(index, query) is None,
        index.len() >= 13 && index[0] == 1 && (query < i32_at(index, 1) || query > i32_at(
            index,
            5,
        )) ==> answer(index, query) == Some(0u64),
        index.len() >= 14 && index[0] == 2 && (query < i32_at(index, 1) || query > i32_at(
            index,
            5,
        )) ==> answer(index, query) == Some(0u64),
        index.len() >= 11 && index[0] == 3 && (query < i32_at(index, 1) || query > i32_at(
            index,
            5,
        )) ==> answer(index, query) == Some(0u64),
{
}

/// Builds the index of a block.
pub fn build_idx(parameter: &Parameter, data: &[i32]) -> (index: Box<[u8]>)
    ensures
        is_index(*parameter, data@, index@),
{
    if data.len() == 0 {
        let mut empty: Vec<u8> = Vec::new();
        empty.push(INDEX_EMPTY);
        assert(empty@ =~= seq![INDEX_EMPTY]);
        return into_boxed_slice(empty);
    }
    let freq_map = count_values(data);
    let min_val = min_value(data);
    let max_val = max_value(data);
    let full = entries_by_count(&freq_map);
    proof {
        lemma_lists_tally(full@, freq_map@, data@);
    }
    match choose_layout(parameter, data, &full) {
        Layout::Exact => {
            let index = build_exact_compressed(INDEX_EXACT_COMPRESSED, &freq_map, min_val, max_val);
            proof {
                let entries = choose|entries: Seq<(i32, u64)>| #[trigger]
                    lists(entries, freq_map@) && ascending(entries) && index@ == compressed_index(
                        INDEX_EXACT_COMPRESSED,
                        min_val,
                        max_val,
                        entries,
                    );
                lemma_lists_tally(entries, freq_map@, data@);
            }
            index
        },
        Layout::HeavyHitter { listed } => build_heavy_hitter(data, &full, listed, min_val, max_val),
        Layout::Hybrid => build_hybrid(parameter, data, &full, min_val, max_val),
    }
}

/// Goes through the list of the most frequent values.
fn query_heavy_hitter(index: &[u8], query: &i32) -> (r: Option<u64>)
    ensures
        r == heavy_answer(index@, *query),
{
    if index.len() < 11 {
        return None;
    }
    let min_val = read_i32(index, 1);
    let max_val = read_i32(index, 5);
    if *query < min_val || *query > max_val {
        return Some(0);
    }
    let n = read_u16(index, 9);
    partial(scan_deltas(index, 11, n as u32, *query).0)
}

/// Answers a query from the bytes of an index, where they tell.
pub fn query_idx(_parameter: &Parameter, index: &[u8], query: &i32) -> (r: Option<u64>)
    ensures
        r == answer(index@, *query),
{
    if index.len() == 0 {
        return None;
    }
    match index[0] {
        INDEX_HEAVY_HITTER => query_heavy_hitter(index, query),
        INDEX_EXACT_COMPRESSED => query_exact_compressed(index, query),
        INDEX_HYBRID => query_hybrid_index(index, query),
        _ => None,
    }
}

} // verus!
