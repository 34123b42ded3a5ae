//! A complete table for a block with few different values, otherwise the most
//! frequent values and a Bloom filter of the others.
use vstd::prelude::*;

use crate::bloom::{build_bloom, is_bloom};
use crate::bytes::{into_boxed_slice, lemma_byte_held};
use crate::double::Double;
use crate::hashing::Fnv;
use crate::parameter::Parameter;
use crate::table::{
    build_exact_index, counted_table, lemma_table_len, query_exact_index, scanned_table_answer,
    scanned_table_answers,
};
use crate::tally::{
    count_values, distinct, is_tally, is_top, lemma_lists_tally, lemma_occurs, lemma_top_of_counts,
    lists, most_frequent_first, occurrences, tally_has_distinct_entries, top_entries,
};
use crate::topk::{
    build_topk, filtered_lists_tell_the_listed, lemma_topk_layout, query_topk, topk_answer,
    topk_answers, topk_index, topk_says,
};

verus! {

pub const INDEX_EMPTY: u8 = 0;

pub const INDEX_EXACT: u8 = 1;

pub const INDEX_BLOOM_TOPK: u8 = 2;

/// The bytes of a filter.
pub const BLOOM_SIZE: usize = 2048;

/// The probes of a value.
pub const NUM_HASHES: u32 = 7;

/// Whether a block with so many different values gets a complete table.
pub open spec fn is_exact(ratio: Double, distinct: nat) -> bool {
    ||| distinct <= 10
    ||| distinct <= 100 && ratio.spec_above(5, 1)
    ||| distinct <= 1000 && ratio.spec_above(2, 1)
}

/// The number of values that are listed otherwise.
pub open spec fn top_k(ratio: Double) -> nat {
    if ratio.spec_above(3, 1) {
        50
    } else if ratio.spec_above(1, 1) {
        20
    } else {
        10
    }
}

/// Whether `index` lists the most frequent values and filters the others.
pub open spec fn is_topk_index(
    ratio: Double,
    data: Seq<i32>,
    top: Seq<(i32, u64)>,
    bloom: Seq<u8>,
    index: Seq<u8>,
) -> bool {
    &&& is_top(top, top_k(ratio), data)
    &&& most_frequent_first(top)
    &&& bloom.len() == BLOOM_SIZE
    &&& is_bloom::<Fnv>(bloom, data, top, NUM_HASHES)
    &&& index == topk_index(seq![INDEX_BLOOM_TOPK], top, bloom)
}

/// Whether `index` is an index of `data`. The order of the entries of a complete
/// table is open, and so is which of equally frequent values are listed.
pub open spec fn is_index(parameter: Parameter, data: Seq<i32>, index: Seq<u8>) -> bool {
    let ratio = parameter.spec_ratio();
    if data.len() == 0 {
        index == seq![INDEX_EMPTY]
    } else if is_exact(ratio, distinct(data)) {
        exists|entries: Seq<(i32, u64)>| #[trigger]
            is_tally(entries, data) && index == counted_table(INDEX_EXACT, entries)
    } else {
        exists|top: Seq<(i32, u64)>, bloom: Seq<u8>| #[trigger]
            is_topk_index(ratio, data, top, bloom, index)
    }
}

/// The answer that the bytes of an index give.
pub open spec fn answer(index: Seq<u8>, query: i32) -> Option<u64> {
    if index.len() == 0 {
        None
    } else if index[0] == INDEX_EXACT {
        scanned_table_answer(index, query)
    } else if index[0] == INDEX_BLOOM_TOPK {
        topk_answer::<Fnv>(index, 1, query, NUM_HASHES)
    } else {
        None
    }
}

/// An answer is the number of occurrences. An empty block gives none, a complete
/// table gives one to every query, and a list with a filter gives one to the
/// listed values and to those that do not pass the filter of the others.
pub proof fn answers_are_counts(parameter: Parameter, data: Seq<i32>, index: Seq<u8>, query: i32)
    requires
        is_index(parameter, data, index),
    ensures
        answer(index, query) matches Some(count) ==> count == occurrences(data, query),
        data.len() == 0 ==> answer(index, query) is None,
        data.len() > 0 && is_exact(parameter.spec_ratio(), distinct(data)) ==> answer(
            index,
            query,
        ) is Some,
        data.len() > 0 && !is_exact(parameter.spec_ratio(), distinct(data)) ==> exists|
            top: Seq<(i32, u64)>,
        | #[trigger]
            is_top(top, top_k(parameter.spec_ratio()), data) && answer(index, query) == topk_says::<
                Fnv,
            >(data, top, NUM_HASHES, 8 * BLOOM_SIZE as nat, query),
{
    let ratio = parameter.spec_ratio();
    lemma_occurs(data, query);
    if data.len() == 0 {
    } else if is_exact(ratio, distinct(data)) {
        let entries = choose|entries: Seq<(i32, u64)>| #[trigger]
            is_tally(entries, data) && index == counted_table(INDEX_EXACT, entries);
        tally_has_distinct_entries(entries, data);
        scanned_table_answers(index, INDEX_EXACT, entries, data, query);
    } else {
        let head = seq![INDEX_BLOOM_TOPK];
        let (top, bloom) = choose|top: Seq<(i32, u64)>, bloom: Seq<u8>| #[trigger]
            is_topk_index(ratio, data, top, bloom, index);
        lemma_topk_layout(index, head, top, bloom);
        lemma_byte_held(index, 0, INDEX_BLOOM_TOPK);
        topk_answers::<Fnv>(index, 1, top, bloom, data, NUM_HASHES, query);
    }
}

/// The values of a block that an index answers.
pub open spec fn answered_values(data: Seq<i32>, index: Seq<u8>) -> Set<i32> {
    Set::new(|v: i32| data.contains(v) && answer(index, v) is Some)
}

proof fn lemma_exact_rule(data: Seq<i32>, index: Seq<u8>, query: i32)
    requires
        exists|entries: Seq<(i32, u64)>| #[trigger]
            is_tally(entries, data) && index == counted_table(INDEX_EXACT, entries),
        distinct(data) < 0x1_0000_0000,
    ensures
        answer(index, query) == Some(occurrences(data, query) as u64),
        index.len() == 5 + 12 * distinct(data),
{
    let entries = choose|entries: Seq<(i32, u64)>| #[trigger]
        is_tally(entries, data) && index == counted_table(INDEX_EXACT, entries);
    tally_has_distinct_entries(entries, data);
    lemma_table_len(entries);
    scanned_table_answers(index, INDEX_EXACT, entries, data, query);
}

proof fn lemma_topk_rule(ratio: Double, data: Seq<i32>, index: Seq<u8>, k: nat)
    requires
        exists|top: Seq<(i32, u64)>, bloom: Seq<u8>| #[trigger]
            is_topk_index(ratio, data, top, bloom, index),
        k == top_k(ratio),
    ensures
        exists|top: Seq<(i32, u64)>| #[trigger]
            is_top(top, k, data) && index.len() == 2053 + 12 * top.len() && forall|q: i32|
            #[trigger]
            answer(index, q) == topk_says::<Fnv>(data, top, 7, 16384, q),
        answered_values(data, index).finite(),
        answered_values(data, index).len() == if k < distinct(data) {
            k
        } else {
            distinct(data)
        },
        forall|v: i32, w: i32| #[trigger]
            answered_values(data, index).contains(v) && #[trigger] data.contains(w)
                && !answered_values(data, index).contains(w) ==> occurrences(data, w)
                <= occurrences(data, v),
{
    let (top, bloom) = choose|top: Seq<(i32, u64)>, bloom: Seq<u8>| #[trigger]
        is_topk_index(ratio, data, top, bloom, index);
    lemma_topk_layout(index, seq![INDEX_BLOOM_TOPK], top, bloom);
    assert(index[0] == INDEX_BLOOM_TOPK) by {
        lemma_byte_held(index, 0, INDEX_BLOOM_TOPK);
    }
    assert forall|q: i32| #[trigger] answer(index, q) == topk_says::<Fnv>(
        data,
        top,
        7,
        16384,
        q,
    ) by {
        topk_answers::<Fnv>(index, 1, top, bloom, data, NUM_HASHES, q);
    }
    let told = answered_values(data, index);
    assert forall|v: i32| #[trigger] told.contains(v) <==> data.contains(v) && topk_says::<Fnv>(
        data,
        top,
        7,
        16384,
        v,
    ) is Some by {
        assert(answer(index, v) == topk_says::<Fnv>(data, top, 7, 16384, v));
    }
    filtered_lists_tell_the_listed::<Fnv>(data, top, k, 7, 16384, told);
}

/// Every query gets its answer from a table where there are up to 10 different values, up to
/// 100 for a ratio above 5, or up to 1000 above 2.
pub proof fn few_values_are_all_answered(
    parameter: Parameter,
    data: Seq<i32>,
    index: Seq<u8>,
    query: i32,
)
    requires
        data.len() > 0,
        is_index(parameter, data, index),
        distinct(data) <= 10 || (distinct(data) <= 100 && parameter.spec_ratio().spec_above(5, 1))
            || (distinct(data) <= 1000 && parameter.spec_ratio().spec_above(2, 1)),
    ensures
        answer(index, query) == Some(occurrences(data, query) as u64),
        index.len() == 5 + 12 * distinct(data),
{
    assert(is_exact(parameter.spec_ratio(), distinct(data)));
    lemma_exact_rule(data, index, query);
}

/// Otherwise the most frequent values are answered: 10 of them, above 1 there are 20, and
/// above 3 there are 50. A filter of 2048 bytes with seven probes answers for the others.
pub proof fn frequent_values_are_answered(
    parameter: Parameter,
    data: Seq<i32>,
    index: Seq<u8>,
    k: nat,
    query: i32,
)
    requires
        data.len() > 0,
        is_index(parameter, data, index),
        !(distinct(data) <= 10 || (distinct(data) <= 100 && parameter.spec_ratio().spec_above(5, 1))
            || (distinct(data) <= 1000 && parameter.spec_ratio().spec_above(2, 1))),
        k == if parameter.spec_ratio().spec_above(3, 1) {
            50nat
        } else if parameter.spec_ratio().spec_above(1, 1) {
            20
        } else {
            10
        },
    ensures
        answered_values(data, index).finite(),
        answered_values(data, index).len() == if k < distinct(data) {
            k
        } else {
            distinct(data)
        },
        forall|v: i32, w: i32| #[trigger]
            answered_values(data, index).contains(v) && #[trigger] data.contains(w)
                && !answered_values(data, index).contains(w) ==> occurrences(data, w)
                <= occurrences(data, v),
        exists|top: Seq<(i32, u64)>| #[trigger]
            is_top(top, k, data) && index.len() == 2053 + 12 * top.len() && answer(index, query)
                == topk_says::<Fnv>(data, top, 7, 16384, query),
{
    let ratio = parameter.spec_ratio();
    assert(!is_exact(ratio, distinct(data)));
    lemma_topk_rule(ratio, data, index, k);
}

/// The index of an empty block is a single zero, and tells nothing.
pub proof fn empty_blocks_tell_nothing(
    parameter: Parameter,
    data: Seq<i32>,
    index: Seq<u8>,
    query: i32,
)
    requires
        data.len() == 0,
        is_index(parameter, data, index),
    ensures
        index == seq![0u8],
        answer(index, query) is None,
{
}

/// Bytes that are no index, or stop short of its header, tell nothing.
pub proof fn damaged_indexes_tell_nothing(index: Seq<u8>, query: i32)
    ensures
        index.len() == 0 ==> answer(index, query) is None,
        index.len() > 0 && index[0] != 1 && index[0] != 2 ==> answer(index, query) is None,
        0 < index.len() < 5 && index[0] == 1 ==> answer(index, query) is None,
        0 < index.len() < 5 && index[0] == 2 ==> answer(index, query) is None,
{
}

/// Builds the index of a block.
pub fn build_idx(parameter: &Parameter, data: &[i32]) -> (index: Box<[u8]>)
    ensures
        is_index(*parameter, data@, index@),
{
    if data.len() == 0 {
        let mut empty: Vec<u8> = Vec::new();
        empty.push(INDEX_EMPTY);
        assert(empty@ =~= seq![INDEX_EMPTY]);
        return into_boxed_slice(empty);
    }
    let freq_map = count_values(data);
    let distinct_count = freq_map.len();
    let ratio = parameter.ratio();
    if distinct_count <= 10 || (distinct_count <= 100 && ratio.above(5, 1)) || (distinct_count
        <= 1000 && ratio.above(2, 1)) {
        let index = build_exact_index(INDEX_EXACT, &freq_map);
        proof {
            let entries = choose|entries: Seq<(i32, u64)>| #[trigger]
                lists(entries, freq_map@) && index@ == counted_table(INDEX_EXACT, entries);
            lemma_lists_tally(entries, freq_map@, data@);
        }
        return index;
    }
    let k: usize = if ratio.above(3, 1) {
        50
    } else if ratio.above(1, 1) {
        20
    } else {
        10
    };
    let top = top_entries(&freq_map, k);
    let bloom = build_bloom::<Fnv>(data, &top, BLOOM_SIZE, NUM_HASHES);
    let mut head: Vec<u8> = Vec::new();
    head.push(INDEX_BLOOM_TOPK);
    let index = build_topk(head, &top, &bloom);
    proof {
        assert(head@ =~= seq![INDEX_BLOOM_TOPK]);
        lemma_top_of_counts(top@, k as nat, freq_map@, data@);
        assert(is_topk_index(ratio, data@, top@, bloom@, index@));
    }
    index
}

/// Answers a query from the bytes of an index, where they tell.
pub fn query_idx(_parameter: &Parameter, index: &[u8], query: &i32) -> (r: Option<u64>)
    ensures
        r == answer(index@, *query),
{
    if index.len() == 0 {
        return None;
    }
    match index[0] {
        INDEX_EXACT => query_exact_index(index, query),
        INDEX_BLOOM_TOPK => query_topk::<Fnv>(index, 1, *query, NUM_HASHES),
        _ => None,
    }
}

} // verus!
