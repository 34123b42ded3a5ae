//! A complete table, the range of a block, a Bloom filter, or the most frequent
//! values with a Bloom filter of the others. The sizes of the list and of the
//! filter follow the cost factors and the spread of the counts.
use vstd::prelude::*;

use crate::bloom::{
    bloom_answer, bloom_has_no_false_negatives, bloom_round_trip, build_bloom, is_bloom,
    nothing_passes_an_empty_filter, query_bloom,
};
use crate::bytes::{i32_at, into_boxed_slice, lemma_holds_split, lemma_holds_whole, push_all};
use crate::double::{lemma_smaller, Double};
use crate::exact::{
    below_is_not_above, lt_is_the_order, near_decimal, near_mul, near_of, near_order_apart,
};
use crate::hashing::SplitMix;
use crate::minmax::{
    build_minmax_index, minmax_answer, minmax_answers, query_minmax_index, range_alone,
    range_header,
};
use crate::parameter::{lemma_ratio_within, Parameter};
use crate::sizing::{
    bloom_bytes, clamped, filters_take_bits_for_values, optimal_bytes, optimal_bytes_grow,
    optimal_probes, probes, probes_follow_the_load,
};
use crate::table::{
    build_exact_index, counted_table, lemma_table_len, query_exact_index, scanned_table_answer,
    scanned_table_answers,
};
use crate::tally::{
    count_sum, count_values, counts_add_up, distinct, entries_by_count, first_entries, has_key,
    highest, is_tally, is_top, lemma_lists_tally, lemma_occurs, lemma_prefix_is_top, lists, lowest,
    most_frequent_first, occurrences, sum_counts, tally_has_distinct_entries, top_sum,
    top_sum_of_tally,
};
use crate::topk::{
    build_topk, filtered_lists_tell_the_listed, lemma_tagged_layout, query_topk, topk_answer,
    topk_answers, topk_index, topk_says,
};

verus! {

pub const INDEX_EMPTY: u8 = 0;

pub const INDEX_EXACT_COMPACT: u8 = 1;

pub const INDEX_BLOOM_ONLY: u8 = 2;

pub const INDEX_BLOOM_TOPK: u8 = 3;

pub const INDEX_MINMAX: u8 = 4;

/// The layouts of the index of a nonempty block.
#[derive(Clone, Copy, Debug, PartialEq, Eq, Structural)]
pub enum Layout {
    Exact,
    MinMax,
    BloomOnly,
    BloomTopK,
}

/// The layout for a block with this many different values.
pub open spec fn layout(ratio: Double, distinct: nat) -> Layout {
    if distinct <= 5 || (distinct <= 50 && ratio.spec_above(10, 1)) || (distinct <= 200
        && ratio.spec_above(20, 1)) {
        Layout::Exact
    } else if ratio.spec_below(5, 10) {
        Layout::MinMax
    } else if distinct <= 5000 && ratio.spec_below(2, 1) {
        Layout::BloomOnly
    } else {
        Layout::BloomTopK
    }
}

/// The negated natural logarithm of the rate of false positives that a filter
/// aims at: one in a thousand, in a hundred, or in twenty.
pub open spec fn fpr_exponent(ratio: Double) -> Double {
    if ratio.spec_above(5, 1) {
        Double::spec_decimal(6907755278982137, 1_000_000_000_000_000)
    } else if ratio.spec_above(2, 1) {
        Double::spec_decimal(4605170185988091, 1_000_000_000_000_000)
    } else {
        Double::spec_decimal(2995732273553991, 1_000_000_000_000_000)
    }
}

/// The bytes of the filter for so many values.
pub open spec fn optimal_bloom_size(ratio: Double, distinct: nat) -> nat {
    clamped(optimal_bytes(fpr_exponent(ratio), distinct), 512, 8192)
}

/// The number of probes into a filter of so many bytes for so many insertions.
pub open spec fn optimal_hash_count(bloom_size: nat, elements: nat) -> nat {
    if elements == 0 {
        7
    } else {
        clamped(optimal_probes(bloom_size, elements).spec_ceil(), 3, 15)
    }
}

/// Whether it pays to list `k + 1` values, whose counts add up to `covered` out of
/// `total`.
pub open spec fn pays(parameter: Parameter, covered: nat, total: nat, k: nat) -> bool {
    let benefit = Double::spec_decimal(covered, total).spec_mul(parameter.spec_ratio());
    let cost = Double::spec_decimal(12 * (k + 1), 1024).spec_mul(
        Double::spec_of(parameter.factor_size as int),
    );
    benefit.spec_gt(cost)
}

/// How many values in a row it pays to list, from `k` on, the most frequent first;
/// no more than 201 are tried.
pub open spec fn paying(parameter: Parameter, data: Seq<i32>, k: nat) -> nat
    decreases distinct(data) - k,
{
    if k >= distinct(data) || k > 200 || !pays(parameter, top_sum(data, k + 1), data.len(), k) {
        k
    } else {
        paying(parameter, data, k + 1)
    }
}

/// The number of values to list: as many as pay, and ten where not even one does.
pub open spec fn best_k(parameter: Parameter, data: Seq<i32>) -> nat {
    let k = paying(parameter, data, 0);
    clamped(if k == 0 { 10 } else { k }, 5, 100)
}

/// The bytes of the filter beside a list.
pub open spec fn rest_bloom_size(parameter: Parameter, data: Seq<i32>) -> nat {
    let k = best_k(parameter, data);
    optimal_bloom_size(
        parameter.spec_ratio(),
        if k < distinct(data) { (distinct(data) - k) as nat } else { 0 },
    )
}

/// The number of probes into the filter beside a list, which gets the positions of
/// `data` that the list does not cover.
pub open spec fn rest_hash_count(parameter: Parameter, data: Seq<i32>) -> nat {
    optimal_hash_count(
        rest_bloom_size(parameter, data),
        (data.len() - top_sum(data, best_k(parameter, data))) as nat,
    )
}

/// Whether `index` lists the most frequent values and filters the others.
pub open spec fn is_topk_index(
    parameter: Parameter,
    data: Seq<i32>,
    top: Seq<(i32, u64)>,
    bloom: Seq<u8>,
    index: Seq<u8>,
) -> bool {
    let hashes = rest_hash_count(parameter, data);
    &&& is_top(top, best_k(parameter, data), data)
    &&& most_frequent_first(top)
    &&& bloom.len() == rest_bloom_size(parameter, data)
    &&& is_bloom::<SplitMix>(bloom, data, top, hashes as u32)
    &&& index == topk_index(seq![INDEX_BLOOM_TOPK, hashes as u8], top, bloom)
}

/// Whether `index` is a filter of all values.
pub open spec fn is_bloom_index(data: Seq<i32>, bloom: Seq<u8>, index: Seq<u8>) -> bool {
    let hashes = optimal_hash_count(bloom.len(), data.len());
    &&& is_bloom::<SplitMix>(bloom, data, Seq::empty(), hashes as u32)
    &&& index == seq![INDEX_BLOOM_ONLY, hashes as u8] + bloom
}

/// Whether `index` is an index of `data`. The order of the entries of a complete
/// table is open, and so is which of equally frequent values are listed.
pub open spec fn is_index(parameter: Parameter, data: Seq<i32>, index: Seq<u8>) -> bool {
    let ratio = parameter.spec_ratio();
    if data.len() == 0 {
        index == seq![INDEX_EMPTY]
    } else {
        match layout(ratio, distinct(data)) {
            Layout::Exact => exists|entries: Seq<(i32, u64)>| #[trigger]
                is_tally(entries, data) && index == counted_table(INDEX_EXACT_COMPACT, entries),
            Layout::MinMax => index == range_header(INDEX_MINMAX, lowest(data), highest(data)),
            Layout::BloomOnly => exists|bloom: Seq<u8>| #[trigger]
                is_bloom_index(data, bloom, index) && bloom.len() == optimal_bloom_size(
                    ratio,
                    distinct(data),
                ),
            Layout::BloomTopK => exists|top: Seq<(i32, u64)>, bloom: Seq<u8>| #[trigger]
                is_topk_index(parameter, data, top, bloom, index),
        }
    }
}

/// The answer that the bytes of an index give.
pub open spec fn answer(index: Seq<u8>, query: i32) -> Option<u64> {
    if index.len() == 0 {
        None
    } else if index[0] == INDEX_MINMAX {
        minmax_answer(index, query)
    } else if index[0] == INDEX_EXACT_COMPACT {
        scanned_table_answer(index, query)
    } else if index[0] == INDEX_BLOOM_ONLY && index.len() >= 2 {
        bloom_answer::<SplitMix>(index, 2, query, index[1] as u32)
    } else if index[0] == INDEX_BLOOM_TOPK && index.len() >= 2 {
        topk_answer::<SplitMix>(index, 2, query, index[1] as u32)
    } else {
        None
    }
}

proof fn lemma_bloom_answers(data: Seq<i32>, bloom: Seq<u8>, index: Seq<u8>, query: i32)
    requires
        bloom.len() > 0,
        is_bloom_index(data, bloom, index),
    ensures
        answer(index, query) == topk_says::<SplitMix>(
            data,
            Seq::empty(),
            optimal_hash_count(bloom.len(), data.len()) as u32,
            8 * bloom.len(),
            query,
        ),
        answer(index, query) matches Some(count) ==> count == occurrences(data, query),
{
    let none = Seq::<(i32, u64)>::empty();
    let hashes = optimal_hash_count(bloom.len(), data.len());
    let head = seq![INDEX_BLOOM_ONLY, hashes as u8];
    lemma_holds_whole(index);
    lemma_holds_split(index, 0, head, bloom);
    assert(index[0] == head[0] && index[1] == head[1]);
    bloom_round_trip::<SplitMix>(index, 2, bloom, data, none, hashes as u32, query);
    lemma_occurs(data, query);
    assert(!has_key(none, query));
    if data.contains(query) {
        bloom_has_no_false_negatives::<SplitMix>(
            data,
            none,
            hashes as u32,
            8 * bloom.len(),
            query,
        );
    }
}

proof fn lemma_topk_answers(
    parameter: Parameter,
    data: Seq<i32>,
    top: Seq<(i32, u64)>,
    bloom: Seq<u8>,
    index: Seq<u8>,
    query: i32,
)
    requires
        is_topk_index(parameter, data, top, bloom, index),
    ensures
        answer(index, query) == topk_says::<SplitMix>(
            data,
            top,
            rest_hash_count(parameter, data) as u32,
            8 * rest_bloom_size(parameter, data),
            query,
        ),
        answer(index, query) matches Some(count) ==> count == occurrences(data, query),
{
    let hashes = rest_hash_count(parameter, data);
    lemma_tagged_layout(index, INDEX_BLOOM_TOPK, hashes as u8, top, bloom);
    topk_answers::<SplitMix>(index, 2, top, bloom, data, hashes as u32, query);
}

/// A filter of all values misses none of them: a value of the block gets no answer. The
/// filter of an empty block answers that nothing occurs.
pub proof fn filter_misses_no_value(data: Seq<i32>, bloom: Seq<u8>, index: Seq<u8>, query: i32)
    requires
        bloom.len() > 0,
        is_bloom_index(data, bloom, index),
    ensures
        data.contains(query) ==> answer(index, query) is None,
        data.len() == 0 ==> answer(index, query) == Some(0u64),
{
    let none = Seq::<(i32, u64)>::empty();
    let hashes = optimal_hash_count(bloom.len(), data.len()) as u32;
    let bits = 8 * bloom.len();
    lemma_bloom_answers(data, bloom, index, query);
    lemma_occurs(data, query);
    assert(!has_key(none, query));
    if data.contains(query) {
        bloom_has_no_false_negatives::<SplitMix>(data, none, hashes, bits, query);
    }
    if data.len() == 0 {
        nothing_passes_an_empty_filter::<SplitMix>(data, none, hashes, bits, query);
    }
}

/// The filter of all values takes from 512 to 8192 bytes, the least where there is nothing
/// to filter, and does not shrink as there are more different values.
pub proof fn optimal_bloom_size_is_bounded(ratio: Double, d1: nat, d2: nat)
    requires
        d1 <= d2 <= u64::MAX,
    ensures
        512 <= optimal_bloom_size(ratio, d1) <= 8192,
        optimal_bloom_size(ratio, 0) == 512,
        optimal_bloom_size(ratio, d1) <= optimal_bloom_size(ratio, d2),
{
    Double::lemma_decimal_within(6907755278982137, 1_000_000_000_000_000);
    Double::lemma_decimal_within(4605170185988091, 1_000_000_000_000_000);
    Double::lemma_decimal_within(2995732273553991, 1_000_000_000_000_000);
    optimal_bytes_grow(fpr_exponent(ratio), d1, d2);
}

/// The list takes from five to a hundred values, and the filter beside it, sized for the
/// values that are left, from 512 to 8192 bytes.
pub proof fn adaptive_params_are_bounded(parameter: Parameter, data: Seq<i32>)
    ensures
        5 <= best_k(parameter, data) <= 100,
        512 <= rest_bloom_size(parameter, data) <= 8192,
        best_k(parameter, data) < distinct(data) ==> rest_bloom_size(parameter, data)
            == optimal_bloom_size(
            parameter.spec_ratio(),
            (distinct(data) - best_k(parameter, data)) as nat,
        ),
        best_k(parameter, data) >= distinct(data) ==> rest_bloom_size(parameter, data)
            == optimal_bloom_size(parameter.spec_ratio(), 0),
{
}

/// Where a skip earns nothing and a kilobyte costs something, the list takes ten values.
pub proof fn worthless_skips_list_ten(parameter: Parameter, data: Seq<i32>)
    requires
        parameter.factor_size > 0,
        !parameter.spec_ratio().spec_gt(Double::zero()),
    ensures
        best_k(parameter, data) == 10,
{
    let ratio = parameter.spec_ratio();
    let skip = Double::spec_of(parameter.factor_skip as int);
    let size = Double::spec_of(parameter.factor_size as int);
    Double::lemma_of_within(parameter.factor_skip as int);
    Double::lemma_of_within(parameter.factor_size as int);
    Double::lemma_div_within(skip, size, 52, 52);
    lemma_no_gain(parameter, top_sum(data, 1), data.len());
}

proof fn lemma_no_gain(parameter: Parameter, covered: nat, total: nat)
    requires
        parameter.factor_size > 0,
        parameter.spec_ratio().within(157),
        parameter.spec_ratio() is Finite,
        !parameter.spec_ratio().spec_gt(Double::zero()),
    ensures
        !pays(parameter, covered, total, 0),
{
    let share = Double::spec_decimal(covered, total);
    let price = Double::spec_decimal(12, 1024);
    let size = Double::spec_of(parameter.factor_size as int);
    Double::lemma_decimal_sign(covered, total);
    Double::lemma_decimal_within(12, 1024);
    Double::lemma_of_within(parameter.factor_size as int);
    Double::lemma_mul_within(price, size, 157, 157);
    let ratio = parameter.spec_ratio();
    lemma_smaller(0, 0, ratio->Finite_mantissa, ratio->Finite_exponent as int);
    assert(ratio->Finite_negative || ratio.is_zero());
    let cost = price.spec_mul(size);
    assert(cost.is_natural());
    assert(price == Double::spec_decimal((12 * (0 + 1)) as nat, 1024));
}

/// An answer is the number of occurrences. An empty block gives none, a complete
/// table gives one to every query, a range to the values outside it, a filter to
/// those that do not pass it, and a list with a filter to these and to the listed
/// ones.
pub proof fn answers_are_counts(parameter: Parameter, data: Seq<i32>, index: Seq<u8>, query: i32)
    requires
        is_index(parameter, data, index),
    ensures
        answer(index, query) matches Some(count) ==> count == occurrences(data, query),
        data.len() == 0 ==> answer(index, query) is None,
        data.len() > 0 ==> match layout(parameter.spec_ratio(), distinct(data)) {
            Layout::Exact => answer(index, query) is Some,
            Layout::MinMax => answer(index, query) is Some <==> query < lowest(data) || query
                > highest(data),
            Layout::BloomOnly => answer(index, query) == topk_says::<SplitMix>(
                data,
                Seq::empty(),
                optimal_hash_count(
                    optimal_bloom_size(parameter.spec_ratio(), distinct(data)),
                    data.len(),
                ) as u32,
                8 * optimal_bloom_size(parameter.spec_ratio(), distinct(data)),
                query,
            ),
            Layout::BloomTopK => exists|top: Seq<(i32, u64)>| #[trigger]
                is_top(top, best_k(parameter, data), data) && answer(index, query) == topk_says::<
                    SplitMix,
                >(
                    data,
                    top,
                    rest_hash_count(parameter, data) as u32,
                    8 * rest_bloom_size(parameter, data),
                    query,
                ),
        },
{
    let ratio = parameter.spec_ratio();
    lemma_occurs(data, query);
    if data.len() > 0 {
        match layout(ratio, distinct(data)) {
            Layout::Exact => {
                let entries = choose|entries: Seq<(i32, u64)>| #[trigger]
                    is_tally(entries, data) && index == counted_table(INDEX_EXACT_COMPACT, entries);
                tally_has_distinct_entries(entries, data);
                scanned_table_answers(index, INDEX_EXACT_COMPACT, entries, data, query);
            },
            Layout::MinMax => {
                minmax_answers(index, INDEX_MINMAX, data, query);
            },
            Layout::BloomOnly => {
                let bloom = choose|bloom: Seq<u8>| #[trigger]
                    is_bloom_index(data, bloom, index) && bloom.len() == optimal_bloom_size(
                        ratio,
                        distinct(data),
                    );
                lemma_bloom_answers(data, bloom, index, query);
            },
            Layout::BloomTopK => {
                let (top, bloom) = choose|top: Seq<(i32, u64)>, bloom: Seq<u8>| #[trigger]
                    is_topk_index(parameter, data, top, bloom, index);
                lemma_topk_answers(parameter, data, top, bloom, index, query);
            },
        }
    }
}

/// A filter takes 14.378 bits for a value where the ratio is above 5, 9.585 above 2, and
/// otherwise 6.235, but no fewer than 512 bytes and no more than 8192.
pub proof fn filters_take_bits(ratio: Double, count: nat, bits: nat)
    requires
        count <= u64::MAX,
        bits == if ratio.spec_above(5, 1) {
            14378nat
        } else if ratio.spec_above(2, 1) {
            9585
        } else {
            6235
        },
    ensures
        512 <= optimal_bloom_size(ratio, count) <= 8192,
        optimal_bloom_size(ratio, count) < 8192 ==> bits * count <= 8000 * optimal_bloom_size(
            ratio,
            count,
        ) + count,
        optimal_bloom_size(ratio, count) > 512 ==> 8000 * optimal_bloom_size(ratio, count) <= bits
            * count + count + 8000,
{
    assert((14378 - 1) * (1_000_000_000_000_000nat * 4804530139182014nat) * 0x10_0000_0000_0000
        <= 1000 * (6907755278982137nat * 10_000_000_000_000_000nat) * 0xf_ffff_ffff_fff3)
        by (nonlinear_arith);
    assert(1000 * (6907755278982137nat * 10_000_000_000_000_000nat) * 0x10_0000_0000_000d <= (14378
        + 1) * (1_000_000_000_000_000nat * 4804530139182014nat) * 0x10_0000_0000_0000)
        by (nonlinear_arith);
    filters_take_bits_for_values(6907755278982137, 1_000_000_000_000_000, 14378, count, 512, 8192);
    assert((9585 - 1) * (1_000_000_000_000_000nat * 4804530139182014nat) * 0x10_0000_0000_0000
        <= 1000 * (4605170185988091nat * 10_000_000_000_000_000nat) * 0xf_ffff_ffff_fff3)
        by (nonlinear_arith);
    assert(1000 * (4605170185988091nat * 10_000_000_000_000_000nat) * 0x10_0000_0000_000d <= (9585
        + 1) * (1_000_000_000_000_000nat * 4804530139182014nat) * 0x10_0000_0000_0000)
        by (nonlinear_arith);
    filters_take_bits_for_values(4605170185988091, 1_000_000_000_000_000, 9585, count, 512, 8192);
    assert((6235 - 1) * (1_000_000_000_000_000nat * 4804530139182014nat) * 0x10_0000_0000_0000
        <= 1000 * (2995732273553991nat * 10_000_000_000_000_000nat) * 0xf_ffff_ffff_fff3)
        by (nonlinear_arith);
    assert(1000 * (2995732273553991nat * 10_000_000_000_000_000nat) * 0x10_0000_0000_000d <= (6235
        + 1) * (1_000_000_000_000_000nat * 4804530139182014nat) * 0x10_0000_0000_0000)
        by (nonlinear_arith);
    filters_take_bits_for_values(2995732273553991, 1_000_000_000_000_000, 6235, count, 512, 8192);
}

/// A value gets 0.693 probes for each bit that the filter has for an insertion, rounded up,
/// but no fewer than three and no more than fifteen; seven where nothing is inserted.
pub proof fn probes_follow_the_bits(bloom_size: nat, elements: nat)
    requires
        8 * bloom_size <= u64::MAX,
        elements <= u64::MAX,
    ensures
        3 <= optimal_hash_count(bloom_size, elements) <= 15,
        elements == 0 ==> optimal_hash_count(bloom_size, elements) == 7,
        elements > 0 && optimal_hash_count(bloom_size, elements) < 15 ==> 8 * bloom_size * 6931
            <= 10000 * optimal_hash_count(bloom_size, elements) * elements,
        elements > 0 && optimal_hash_count(bloom_size, elements) > 3 ==> 10000 * (
        optimal_hash_count(bloom_size, elements) - 1) * elements <= 8 * bloom_size * 6932,
{
    if elements > 0 {
        probes_follow_the_load(bloom_size, elements);
        let up = optimal_probes(bloom_size, elements).spec_ceil();
        let h = optimal_hash_count(bloom_size, elements);
        if up < h {
            assert(10000 * up * elements <= 10000 * h * elements) by (nonlinear_arith)
                requires
                    up <= h,
            ;
        }
        if h < up {
            assert(10000 * (h - 1) * elements <= 10000 * (up - 1) * elements) by (nonlinear_arith)
                requires
                    h <= up,
            ;
        }
    }
}

/// The list takes another value as long as the share of the block that it then covers,
/// times the ratio, is more than the price of its twelve bytes to an entry. Rounding leaves
/// open what is within 300 parts in 2^52.
pub proof fn lists_grow_while_it_pays(parameter: Parameter, data: Seq<i32>, n: nat)
    requires
        parameter.factor_size > 0,
        parameter.factor_skip >= 0,
        0 < data.len() <= u64::MAX,
        forall|j: nat| #[trigger] top_sum(data, j) <= data.len(),
    ensures
        n <= distinct(data) && n <= 201 && n > 0 && (forall|i: nat|
            0 < i <= n ==> 12 * i * parameter.factor_size * (data.len() * parameter.factor_size)
                * 0x10_0000_0000_012c < #[trigger] top_sum(data, i) * parameter.factor_skip * 1024
                * 0x10_0000_0000_0000) ==> best_k(parameter, data) >= clamped(n, 5, 100),
        n < distinct(data) && top_sum(data, n + 1) * parameter.factor_skip * 1024
            * 0x10_0000_0000_012c < 12 * (n + 1) * parameter.factor_size * (data.len()
            * parameter.factor_size) * 0x10_0000_0000_0000 ==> best_k(parameter, data) <= clamped(
            n,
            10,
            100,
        ),
{
    let size = parameter.factor_size as nat;
    let skip = parameter.factor_skip as nat;
    if n <= distinct(data) && n <= 201 && n > 0 && (forall|i: nat|
        0 < i <= n ==> 12 * i * parameter.factor_size * (data.len() * parameter.factor_size)
            * 0x10_0000_0000_012c < #[trigger] top_sum(data, i) * parameter.factor_skip * 1024
            * 0x10_0000_0000_0000) {
        assert forall|i: nat| i < n implies #[trigger] pays(
            parameter,
            top_sum(data, i + 1),
            data.len(),
            i,
        ) by {
            assert(top_sum(data, i + 1) <= data.len());
            lemma_pays(parameter, top_sum(data, i + 1), data.len(), i);
        }
        lemma_paying_at_least(parameter, data, 0, n);
    }
    if n < distinct(data) && n <= 200 && top_sum(data, n + 1) * parameter.factor_skip * 1024
        * 0x10_0000_0000_012c < 12 * (n + 1) * parameter.factor_size * (data.len()
        * parameter.factor_size) * 0x10_0000_0000_0000 {
        assert(top_sum(data, n + 1) <= data.len());
        lemma_pays(parameter, top_sum(data, n + 1), data.len(), n);
        lemma_paying_at_most(parameter, data, 0, n);
    }
}

/// Where the first value pays but not as many as `n + 1`, the list takes no more than `n`,
/// or five where that is fewer.
pub proof fn lists_stop_where_it_does_not_pay(parameter: Parameter, data: Seq<i32>, n: nat)
    requires
        parameter.factor_size > 0,
        parameter.factor_skip >= 0,
        0 < data.len() <= u64::MAX,
        top_sum(data, 1) <= data.len(),
        top_sum(data, n + 1) <= data.len(),
        0 < n <= 100,
        n < distinct(data),
        12 * parameter.factor_size * (data.len() * parameter.factor_size) * 0x10_0000_0000_012c
            < top_sum(data, 1) * parameter.factor_skip * 1024 * 0x10_0000_0000_0000,
        top_sum(data, n + 1) * parameter.factor_skip * 1024 * 0x10_0000_0000_012c < 12 * (n + 1)
            * parameter.factor_size * (data.len() * parameter.factor_size) * 0x10_0000_0000_0000,
    ensures
        5 <= best_k(parameter, data),
        best_k(parameter, data) <= if n < 5 {
            5
        } else {
            n
        },
{
    lemma_pays(parameter, top_sum(data, 1), data.len(), 0);
    lemma_pays(parameter, top_sum(data, n + 1), data.len(), n);
    assert(pays(parameter, top_sum(data, 0 + 1), data.len(), 0));
    lemma_paying_at_least(parameter, data, 0, 1);
    lemma_paying_at_most(parameter, data, 0, n);
}

proof fn lemma_pays(parameter: Parameter, covered: nat, total: nat, k: nat)
    requires
        parameter.factor_size > 0,
        parameter.factor_skip >= 0,
        covered <= u64::MAX,
        0 < total <= u64::MAX,
        k <= 200,
    ensures
        12 * (k + 1) * parameter.factor_size * (total * parameter.factor_size)
            * 0x10_0000_0000_012c < covered * parameter.factor_skip * 1024 * 0x10_0000_0000_0000
            ==> pays(parameter, covered, total, k),
        covered * parameter.factor_skip * 1024 * 0x10_0000_0000_012c < 12 * (k + 1)
            * parameter.factor_size * (total * parameter.factor_size) * 0x10_0000_0000_0000
            ==> !pays(parameter, covered, total, k),
{
    let size = parameter.factor_size as nat;
    let skip = parameter.factor_skip as nat;
    let share = Double::spec_decimal(covered, total);
    let ratio = parameter.spec_ratio();
    let price = Double::spec_decimal(12 * (k + 1), 1024);
    let factor = Double::spec_of(size as int);
    near_decimal(covered, total);
    near_decimal(skip, size);
    near_decimal(12 * (k + 1), 1024);
    near_of(size);
    Double::lemma_of_within(size as int);
    near_mul(share, covered, total, 4, ratio, skip, size, 4);
    near_mul(price, 12 * (k + 1), 1024, 4, factor, size, 1, 1);
    Double::lemma_mul_within(share, ratio, 157, 157);
    Double::lemma_mul_within(price, factor, 157, 157);
    let benefit = share.spec_mul(ratio);
    let cost = price.spec_mul(factor);
    let a = covered * skip;
    let b = total * size;
    let c = 12 * (k + 1) * size;
    assert(1024 * 1 == 1024);
    lt_is_the_order(cost, benefit);
    lt_is_the_order(benefit, cost);
    if c * b * 0x10_0000_0000_012c < a * 1024 * 0x10_0000_0000_0000 {
        near_order_apart(benefit, a, b, 10, cost, c, 1024, 7);
    }
    if a * 1024 * 0x10_0000_0000_012c < c * b * 0x10_0000_0000_0000 {
        near_order_apart(cost, c, 1024, 7, benefit, a, b, 10);
    }
}

proof fn lemma_paying_at_least(parameter: Parameter, data: Seq<i32>, k: nat, n: nat)
    requires
        k <= n <= distinct(data),
        n <= 201,
        forall|i: nat| i < n ==> #[trigger] pays(parameter, top_sum(data, i + 1), data.len(), i),
    ensures
        paying(parameter, data, k) >= n,
    decreases n - k,
{
    if k < n {
        assert(pays(parameter, top_sum(data, k + 1), data.len(), k));
        lemma_paying_at_least(parameter, data, k + 1, n);
    } else {
        lemma_paying_no_less(parameter, data, k);
    }
}

proof fn lemma_paying_no_less(parameter: Parameter, data: Seq<i32>, k: nat)
    ensures
        paying(parameter, data, k) >= k,
    decreases distinct(data) - k,
{
    if !(k >= distinct(data) || k > 200 || !pays(
        parameter,
        top_sum(data, k + 1),
        data.len(),
        k,
    )) {
        lemma_paying_no_less(parameter, data, k + 1);
    }
}

proof fn lemma_paying_at_most(parameter: Parameter, data: Seq<i32>, k: nat, n: nat)
    requires
        k <= n < distinct(data),
        n <= 200,
        !pays(parameter, top_sum(data, n + 1), data.len(), n),
    ensures
        paying(parameter, data, k) <= n,
    decreases n - k,
{
    if k < n {
        lemma_paying_at_most(parameter, data, k + 1, n);
    }
}

/// The bytes of the filter for so many values.
pub fn calculate_optimal_bloom_size(distinct_count: usize, ratio: Double) -> (size: usize)
    requires
        ratio.within(10000),
    ensures
        size == optimal_bloom_size(ratio, distinct_count as nat),
        512 <= size <= 8192,
{
    let exponent = if ratio.above(5, 1) {
        Double::decimal(6907755278982137, 1_000_000_000_000_000)
    } else if ratio.above(2, 1) {
        Double::decimal(4605170185988091, 1_000_000_000_000_000)
    } else {
        Double::decimal(2995732273553991, 1_000_000_000_000_000)
    };
    bloom_bytes(exponent, distinct_count, 512, 8192)
}

/// The number of probes into a filter of so many bytes for so many insertions.
pub fn calculate_optimal_hash_count(bloom_size_bytes: usize, num_elements: usize) -> (hashes: u32)
    requires
        8 * bloom_size_bytes <= usize::MAX,
    ensures
        hashes == optimal_hash_count(bloom_size_bytes as nat, num_elements as nat),
        3 <= hashes <= 15,
{
    if num_elements == 0 {
        return 7;
    }
    let optimal = probes(bloom_size_bytes, num_elements).ceil();
    if optimal < 3 {
        3
    } else if optimal > 15 {
        15
    } else {
        optimal as u32
    }
}

/// Whether it pays to list `k + 1` values.
fn listing_pays(parameter: &Parameter, cumulative: u64, total: u64, k: usize) -> (r: bool)
    requires
        total > 0,
        k <= 200,
    ensures
        r == pays(*parameter, cumulative as nat, total as nat, k as nat),
{
    let ratio = parameter.ratio();
    let coverage = Double::decimal(cumulative, total);
    let storage_cost = Double::decimal(12 * (k as u64 + 1), 1024);
    let factor = Double::of_i64(parameter.factor_size);
    proof {
        Double::lemma_mul_within(coverage, ratio, 157, 157);
        Double::lemma_mul_within(storage_cost, factor, 157, 157);
    }
    coverage.mul(ratio).gt(storage_cost.mul(factor))
}

/// Counts the values in a row that it pays to list, given a tally of the block.
fn count_paying(parameter: &Parameter, data: &[i32], full: &Vec<(i32, u64)>) -> (k: usize)
    requires
        data@.len() > 0,
        is_tally(full@, data@),
        most_frequent_first(full@),
    ensures
        k == paying(*parameter, data@, 0),
{
    let total: u64 = data.len() as u64;
    let mut cumulative: u64 = 0;
    let mut k: usize = 0;
    proof {
        tally_has_distinct_entries(full@, data@);
    }
    while k < full.len() && k <= 200
        invariant
            k <= full@.len(),
            full@.len() == distinct(data@),
            total == data@.len(),
            total > 0,
            is_tally(full@, data@),
            most_frequent_first(full@),
            cumulative == count_sum(full@, k as nat),
            paying(*parameter, data@, 0) == paying(*parameter, data@, k as nat),
        decreases full@.len() - k,
    {
        proof {
            counts_add_up(full@, data@, (k + 1) as nat);
            top_sum_of_tally(full@, data@, (k + 1) as nat);
        }
        cumulative = cumulative + full[k].1;
        if !listing_pays(parameter, cumulative, total, k) {
            return k;
        }
        k = k + 1;
    }
    k
}

/// The number of values to list, and the bytes of the filter beside them.
pub fn calculate_adaptive_params(
    parameter: &Parameter,
    data: &[i32],
    full: &Vec<(i32, u64)>,
) -> (params: (usize, usize))
    requires
        data@.len() > 0,
        is_tally(full@, data@),
        most_frequent_first(full@),
    ensures
        params.0 == best_k(*parameter, data@),
        params.1 == rest_bloom_size(*parameter, data@),
        5 <= params.0 <= 100,
        512 <= params.1 <= 8192,
        parameter.factor_size > 0 && !parameter.spec_ratio().spec_gt(Double::zero()) ==> params.0
            == 10,
{
    proof {
        if parameter.factor_size > 0 && !parameter.spec_ratio().spec_gt(Double::zero()) {
            worthless_skips_list_ten(*parameter, data@);
        }
        tally_has_distinct_entries(full@, data@);
    }
    let paying = count_paying(parameter, data, full);
    let best: usize = if paying == 0 {
        10
    } else if paying < 5 {
        5
    } else if paying > 100 {
        100
    } else {
        paying
    };
    let remaining: usize = if best < full.len() {
        full.len() - best
    } else {
        0
    };
    (best, calculate_optimal_bloom_size(remaining, parameter.ratio()))
}

/// A filter of all values of the block.
pub fn build_bloom_only(data: &[i32], bloom_size: usize) -> (index: Box<[u8]>)
    requires
        0 < bloom_size,
        8 * bloom_size <= usize::MAX,
    ensures
        exists|bloom: Seq<u8>| #[trigger]
            is_bloom_index(data@, bloom, index@) && bloom.len() == bloom_size,
{
    let num_hashes = calculate_optimal_hash_count(bloom_size, data.len());
    let none: Vec<(i32, u64)> = Vec::new();
    let bloom = build_bloom::<SplitMix>(data, &none, bloom_size, num_hashes);
    let mut buffer: Vec<u8> = Vec::new();
    buffer.push(INDEX_BLOOM_ONLY);
    buffer.push(num_hashes as u8);
    push_all(&mut buffer, bloom.as_slice());
    proof {
        assert(none@ =~= Seq::empty());
        assert(buffer@ =~= seq![INDEX_BLOOM_ONLY, num_hashes as u8] + bloom@);
        assert(is_bloom_index(data@, bloom@, buffer@));
    }
    into_boxed_slice(buffer)
}

/// The most frequent values of the block and a filter of the others.
fn build_bloom_topk_index(parameter: &Parameter, data: &[i32], full: &Vec<(i32, u64)>) -> (index:
    Box<[u8]>)
    requires
        data@.len() > 0,
        is_tally(full@, data@),
        most_frequent_first(full@),
    ensures
        exists|top: Seq<(i32, u64)>, bloom: Seq<u8>| #[trigger]
            is_topk_index(*parameter, data@, top, bloom, index@),
{
    let (top_k, bloom_size) = calculate_adaptive_params(parameter, data, full);
    let top = first_entries(full, top_k);
    proof {
        counts_add_up(full@, data@, full@.len());
        top_sum_of_tally(full@, data@, top_k as nat);
        lemma_prefix_is_top(full@, top_k as nat, data@);
    }
    assert(data@.len() == data.len());
    let covered = sum_counts(full, top_k);
    let num_hashes = calculate_optimal_hash_count(bloom_size, data.len() - covered as usize);
    let bloom = build_bloom::<SplitMix>(data, &top, bloom_size, num_hashes);
    let mut head: Vec<u8> = Vec::new();
    head.push(INDEX_BLOOM_TOPK);
    head.push(num_hashes as u8);
    let index = build_topk(head, &top, &bloom);
    proof {
        assert(head@ =~= seq![INDEX_BLOOM_TOPK, num_hashes as u8]);
        assert(is_topk_index(*parameter, data@, top@, bloom@, index@));
    }
    index
}

/// The values of a block that an index answers.
pub open spec fn answered_values(data: Seq<i32>, index: Seq<u8>) -> Set<i32> {
    Set::new(|v: i32| data.contains(v) && answer(index, v) is Some)
}

/// Whether a block gets a complete table: with up to 5 different values, up to 50 for a
/// ratio above 10, and up to 200 above 20, every query gets its answer.
pub proof fn few_values_are_all_answered(
    parameter: Parameter,
    data: Seq<i32>,
    index: Seq<u8>,
    query: i32,
)
    requires
        data.len() > 0,
        is_index(parameter, data, index),
        distinct(data) <= 5 || (distinct(data) <= 50 && parameter.spec_ratio().spec_above(10, 1))
            || (distinct(data) <= 200 && parameter.spec_ratio().spec_above(20, 1)),
    ensures
        answer(index, query) == Some(occurrences(data, query) as u64),
        index.len() == 5 + 12 * distinct(data),
{
    assert(layout(parameter.spec_ratio(), distinct(data)) == Layout::Exact);
    lemma_exact_rule(data, index, query);
}

proof fn lemma_exact_rule(data: Seq<i32>, index: Seq<u8>, query: i32)
    requires
        exists|entries: Seq<(i32, u64)>| #[trigger]
            is_tally(entries, data) && index == counted_table(INDEX_EXACT_COMPACT, entries),
        distinct(data) < 0x1_0000_0000,
    ensures
        answer(index, query) == Some(occurrences(data, query) as u64),
        index.len() == 5 + 12 * distinct(data),
{
    let entries = choose|entries: Seq<(i32, u64)>| #[trigger]
        is_tally(entries, data) && index == counted_table(INDEX_EXACT_COMPACT, entries);
    tally_has_distinct_entries(entries, data);
    lemma_table_len(entries);
    scanned_table_answers(index, INDEX_EXACT_COMPACT, entries, data, query);
}

/// Otherwise a block gets its range alone for a ratio below one half.
pub proof fn dear_storage_keeps_the_range(
    parameter: Parameter,
    data: Seq<i32>,
    index: Seq<u8>,
    query: i32,
)
    requires
        data.len() > 0,
        is_index(parameter, data, index),
        distinct(data) > 5,
        parameter.spec_ratio().spec_below(5, 10),
    ensures
        index.len() == 9,
        answer(index, query) is Some <==> (forall|v: i32| #[trigger] data.contains(v) ==> v < query)
            || (forall|v: i32| #[trigger] data.contains(v) ==> query < v),
{
    lemma_ratio_within(parameter);
    below_is_not_above(parameter.spec_ratio(), 5, 10, 10, 1);
    below_is_not_above(parameter.spec_ratio(), 5, 10, 20, 1);
    assert(layout(parameter.spec_ratio(), distinct(data)) == Layout::MinMax);
    range_alone(index, INDEX_MINMAX, data, query);
}

/// Otherwise a block with up to 5000 different values gets a filter alone for a ratio below
/// 2, sized for the different values, with probes for all values.
pub proof fn cheap_skips_get_a_filter(
    parameter: Parameter,
    data: Seq<i32>,
    index: Seq<u8>,
    query: i32,
)
    requires
        data.len() > 0,
        is_index(parameter, data, index),
        5 < distinct(data) <= 5000,
        !parameter.spec_ratio().spec_below(5, 10),
        parameter.spec_ratio().spec_below(2, 1),
    ensures
        index.len() == 2 + optimal_bloom_size(parameter.spec_ratio(), distinct(data)),
        index[1] == optimal_hash_count((index.len() - 2) as nat, data.len()),
        answer(index, query) == topk_says::<SplitMix>(
            data,
            Seq::empty(),
            index[1] as u32,
            (8 * (index.len() - 2)) as nat,
            query,
        ),
        data.contains(query) ==> answer(index, query) is None,
{
    let ratio = parameter.spec_ratio();
    lemma_ratio_within(parameter);
    below_is_not_above(ratio, 2, 1, 10, 1);
    below_is_not_above(ratio, 2, 1, 20, 1);
    assert(layout(ratio, distinct(data)) == Layout::BloomOnly);
    let bloom = choose|bloom: Seq<u8>| #[trigger]
        is_bloom_index(data, bloom, index) && bloom.len() == optimal_bloom_size(
            ratio,
            distinct(data),
        );
    lemma_filter_rule(data, bloom, index, query);
}

proof fn lemma_filter_rule(data: Seq<i32>, bloom: Seq<u8>, index: Seq<u8>, query: i32)
    requires
        bloom.len() > 0,
        is_bloom_index(data, bloom, index),
    ensures
        index.len() == 2 + bloom.len(),
        index[1] == optimal_hash_count(bloom.len(), data.len()),
        answer(index, query) == topk_says::<SplitMix>(
            data,
            Seq::empty(),
            index[1] as u32,
            8 * bloom.len(),
            query,
        ),
        data.contains(query) ==> answer(index, query) is None,
{
    lemma_bloom_answers(data, bloom, index, query);
    filter_misses_no_value(data, bloom, index, query);
    let hashes = optimal_hash_count(bloom.len(), data.len());
    assert(index[1] == hashes as u8);
}

/// Otherwise a block gets a list of its most frequent values with a filter of the others.
pub proof fn dear_skips_get_a_list(
    parameter: Parameter,
    data: Seq<i32>,
    index: Seq<u8>,
    k: nat,
    query: i32,
)
    requires
        data.len() > 0,
        is_index(parameter, data, index),
        k == best_k(parameter, data),
        distinct(data) > 5,
        distinct(data) > 50 || !parameter.spec_ratio().spec_above(10, 1),
        distinct(data) > 200 || !parameter.spec_ratio().spec_above(20, 1),
        !parameter.spec_ratio().spec_below(5, 10),
        distinct(data) > 5000 || !parameter.spec_ratio().spec_below(2, 1),
    ensures
        answered_values(data, index).finite(),
        answered_values(data, index).len() == if k < distinct(data) {
            k
        } else {
            distinct(data)
        },
        forall|v: i32, w: i32| #[trigger]
            answered_values(data, index).contains(v) && #[trigger] data.contains(w)
                && !answered_values(data, index).contains(w) ==> occurrences(data, w)
                <= occurrences(data, v),
        exists|top: Seq<(i32, u64)>| #[trigger]
            is_top(top, k, data) && index.len() == 6 + 12 * top.len() + rest_bloom_size(
                parameter,
                data,
            ) && index[1] == optimal_hash_count(
                rest_bloom_size(parameter, data),
                (data.len() - top_sum(data, k)) as nat,
            ) && answer(index, query) == topk_says::<SplitMix>(
                data,
                top,
                index[1] as u32,
                (8 * (index.len() - 6 - 12 * top.len())) as nat,
                query,
            ),
{
    assert(layout(parameter.spec_ratio(), distinct(data)) == Layout::BloomTopK);
    let (top, bloom) = choose|top: Seq<(i32, u64)>, bloom: Seq<u8>| #[trigger]
        is_topk_index(parameter, data, top, bloom, index);
    lemma_list_rule(parameter, data, top, bloom, index, query);
}

proof fn lemma_list_rule(
    parameter: Parameter,
    data: Seq<i32>,
    top: Seq<(i32, u64)>,
    bloom: Seq<u8>,
    index: Seq<u8>,
    query: i32,
)
    requires
        is_topk_index(parameter, data, top, bloom, index),
    ensures
        is_top(top, best_k(parameter, data), data),
        index.len() == 6 + 12 * top.len() + rest_bloom_size(parameter, data),
        index[1] == rest_hash_count(parameter, data),
        answer(index, query) == topk_says::<SplitMix>(
            data,
            top,
            index[1] as u32,
            (8 * (index.len() - 6 - 12 * top.len())) as nat,
            query,
        ),
        answered_values(data, index).finite(),
        answered_values(data, index).len() == if best_k(parameter, data) < distinct(data) {
            best_k(parameter, data)
        } else {
            distinct(data)
        },
        forall|v: i32, w: i32| #[trigger]
            answered_values(data, index).contains(v) && #[trigger] data.contains(w)
                && !answered_values(data, index).contains(w) ==> occurrences(data, w)
                <= occurrences(data, v),
{
    let hashes = rest_hash_count(parameter, data);
    let bits = 8 * rest_bloom_size(parameter, data);
    lemma_tagged_layout(index, INDEX_BLOOM_TOPK, hashes as u8, top, bloom);
    assert forall|q: i32| #[trigger] answer(index, q) == topk_says::<SplitMix>(
        data,
        top,
        hashes as u32,
        bits,
        q,
    ) by {
        lemma_topk_answers(parameter, data, top, bloom, index, q);
    }
    let told = answered_values(data, index);
    assert forall|v: i32| #[trigger] told.contains(v) <==> data.contains(v) && topk_says::<
        SplitMix,
    >(data, top, hashes as u32, bits, v) is Some by {
        assert(answer(index, v) == topk_says::<SplitMix>(data, top, hashes as u32, bits, v));
    }
    filtered_lists_tell_the_listed::<SplitMix>(
        data,
        top,
        best_k(parameter, data),
        hashes as u32,
        bits,
        told,
    );
    assert(answer(index, query) == topk_says::<SplitMix>(data, top, hashes as u32, bits, query));
    assert(index[1] as u32 == hashes as u32);
}

/// The index of an empty block is a single zero, and tells nothing.
pub proof fn empty_blocks_tell_nothing(
    parameter: Parameter,
    data: Seq<i32>,
    index: Seq<u8>,
    query: i32,
)
    requires
        data.len() == 0,
        is_index(parameter, data, index),
    ensures
        index == seq![0u8],
        answer(index, query) is None,
{
}

/// Bytes that are no index, or stop short of its header, tell nothing. A range tells of the
/// values outside it that they do not occur.
pub proof fn damaged_indexes_tell_nothing(index: Seq<u8>, query: i32)
    ensures
        index.len() == 0 ==> answer(index, query) is None,
        index.len() > 0 && index[0] != 1 && index[0] != 2 && index[0] != 3 && index[0] != 4
            ==> answer(index, query) is None,
        index.len() > 0 && index[0] == 4 ==> (answer(index, query) is Some <==> index.len() >= 9
            && (
        query < i32_at(index, 1) || query > i32_at(index, 5))),
        0 < index.len() < 5 && index[0] == 1 ==> answer(index, query) is None,
        0 < index.len() < 3 && index[0] == 2 ==> answer(index, query) is None,
        0 < index.len() < 6 && index[0] == 3 ==> answer(index, query) is None,
{
}

/// Builds the index of a block.
pub fn build_idx(parameter: &Parameter, data: &[i32]) -> (index: Box<[u8]>)
    ensures
        is_index(*parameter, data@, index@),
{
    if data.len() == 0 {
        let mut empty: Vec<u8> = Vec::new();
        empty.push(INDEX_EMPTY);
        assert(empty@ =~= seq![INDEX_EMPTY]);
        return into_boxed_slice(empty);
    }
    let freq_map = count_values(data);
    let distinct_count = freq_map.len();
    let ratio = parameter.ratio();
    if distinct_count <= 5 || (distinct_count <= 50 && ratio.above(10, 1)) || (distinct_count <= 200
        && ratio.above(20, 1)) {
        let index = build_exact_index(INDEX_EXACT_COMPACT, &freq_map);
        proof {
            let entries = choose|entries: Seq<(i32, u64)>| #[trigger]
                lists(entries, freq_map@) && index@ == counted_table(INDEX_EXACT_COMPACT, entries);
            lemma_lists_tally(entries, freq_map@, data@);
        }
        return index;
    }
    if ratio.below(5, 10) {
        return build_minmax_index(INDEX_MINMAX, data);
    }
    if distinct_count <= 5000 && ratio.below(2, 1) {
        return build_bloom_only(data, calculate_optimal_bloom_size(distinct_count, ratio));
    }
    let full = entries_by_count(&freq_map);
    proof {
        lemma_lists_tally(full@, freq_map@, data@);
    }
    build_bloom_topk_index(parameter, data, &full)
}

/// Answers a query from the bytes of an index, where they tell.
pub fn query_idx(_parameter: &Parameter, index: &[u8], query: &i32) -> (r: Option<u64>)
    ensures
        r == answer(index@, *query),
{
    if index.len() == 0 {
        return None;
    }
    match index[0] {
        INDEX_MINMAX => query_minmax_index(index, query),
        INDEX_EXACT_COMPACT => query_exact_index(index, query),
        INDEX_BLOOM_ONLY => {
            if index.len() < 2 {
                return None;
            }
            query_bloom::<SplitMix>(index, 2, *query, index[1] as u32)
        },
        INDEX_BLOOM_TOPK => {
            if index.len() < 2 {
                return None;
            }
            query_topk::<SplitMix>(index, 2, *query, index[1] as u32)
        },
        _ => None,
    }
}

} // verus!
