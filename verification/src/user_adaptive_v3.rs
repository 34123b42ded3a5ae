//! A complete table where the block has few enough values for the price of a
//! kilobyte, and the range of the block otherwise.
use vstd::prelude::*;

use crate::bytes::i32_at;
use crate::minmax::{
    build_minmax_index, minmax_answer, minmax_answers, query_minmax_index, range_header,
};
use crate::parameter::Parameter;
use crate::table::{
    build_hashmap_index, counted_table, lemma_table_len, query_hashmap_index, sorted_table_answer,
    sorted_table_answers,
};
use crate::tally::{
    ascending, ascending_tally_is_unique, count_values, distinct, highest, is_tally,
    lemma_distinct_empty, lemma_lists_tally, lists, lowest, occurrences, range_covers,
    tally_has_distinct_entries,
};

verus! {

pub const INDEX_MINMAX: u8 = 1;

pub const INDEX_HASHMAP: u8 = 2;

/// Whether a block with this many different values gets a table.
pub open spec fn wants_table(parameter: Parameter, distinct: nat) -> bool {
    let ratio = parameter.spec_ratio();
    if distinct <= 50 {
        ratio.spec_above(5, 10)
    } else if distinct <= 200 {
        ratio.spec_above(1, 1)
    } else if distinct <= 500 {
        ratio.spec_above(2, 1)
    } else if distinct <= 1000 {
        ratio.spec_above(4, 1)
    } else if distinct <= 2000 {
        ratio.spec_above(8, 1)
    } else if distinct <= 5000 {
        ratio.spec_above(20, 1)
    } else {
        false
    }
}

/// Whether `index` is the index of `data`.
pub open spec fn is_index(parameter: Parameter, data: Seq<i32>, index: Seq<u8>) -> bool {
    if wants_table(parameter, distinct(data)) {
        exists|entries: Seq<(i32, u64)>| #[trigger]
            is_tally(entries, data) && ascending(entries) && index == counted_table(
                INDEX_HASHMAP,
                entries,
            )
    } else {
        index == range_header(INDEX_MINMAX, lowest(data), highest(data))
    }
}

/// The answer that the bytes of an index give.
pub open spec fn answer(index: Seq<u8>, query: i32) -> Option<u64> {
    if index.len() == 0 {
        None
    } else if index[0] == INDEX_MINMAX {
        minmax_answer(index, query)
    } else if index[0] == INDEX_HASHMAP {
        sorted_table_answer(index, query)
    } else {
        None
    }
}

/// An answer is the number of occurrences. A table answers every query, a range
/// those outside it.
pub proof fn answers_are_counts(parameter: Parameter, data: Seq<i32>, index: Seq<u8>, query: i32)
    requires
        data.len() > 0 || wants_table(parameter, 0),
        is_index(parameter, data, index),
    ensures
        answer(index, query) matches Some(count) ==> count == occurrences(data, query),
        answer(index, query) is Some <==> wants_table(parameter, distinct(data)) || query < lowest(
            data,
        ) || query > highest(data),
{
    if wants_table(parameter, distinct(data)) {
        let entries = choose|entries: Seq<(i32, u64)>| #[trigger]
            is_tally(entries, data) && ascending(entries) && index == counted_table(
                INDEX_HASHMAP,
                entries,
            );
        tally_has_distinct_entries(entries, data);
        sorted_table_answers(index, INDEX_HASHMAP, entries, data, query);
    } else {
        if data.len() == 0 {
            lemma_distinct_empty(data);
        }
        minmax_answers(index, INDEX_MINMAX, data, query);
    }
}

/// A block has one index.
pub proof fn index_is_unique(parameter: Parameter, data: Seq<i32>, a: Seq<u8>, b: Seq<u8>)
    requires
        is_index(parameter, data, a),
        is_index(parameter, data, b),
    ensures
        a == b,
{
    if wants_table(parameter, distinct(data)) {
        let x = choose|entries: Seq<(i32, u64)>| #[trigger]
            is_tally(entries, data) && ascending(entries) && a == counted_table(
                INDEX_HASHMAP,
                entries,
            );
        let y = choose|entries: Seq<(i32, u64)>| #[trigger]
            is_tally(entries, data) && ascending(entries) && b == counted_table(
                INDEX_HASHMAP,
                entries,
            );
        ascending_tally_is_unique(x, y, data);
    }
}

/// A block gets a complete table, of twelve bytes to a value, where that pays: up to 50
/// values for a ratio above one half, up to 200 above 1, up to 500 above 2, up to 1000
/// above 4, up to 2000 above 8 and up to 5000 above 20. Otherwise it gets its range alone.
pub proof fn cost_rule(parameter: Parameter, data: Seq<i32>, index: Seq<u8>, query: i32)
    requires
        data.len() > 0,
        is_index(parameter, data, index),
    ensures
        ({
            let d = distinct(data);
            let ratio = parameter.spec_ratio();
            let pays = (d <= 50 && ratio.spec_above(5, 10)) || (50 < d <= 200 && ratio.spec_above(
                1,
                1,
            )) || (200 < d <= 500 && ratio.spec_above(2, 1)) || (500 < d <= 1000
                && ratio.spec_above(4, 1)) || (1000 < d <= 2000 && ratio.spec_above(8, 1)) || (2000
                < d <= 5000 && ratio.spec_above(20, 1));
            &&& pays ==> answer(index, query) == Some(occurrences(data, query) as u64)
                && index.len() == 5 + 12 * d
            &&& !pays ==> index.len() == 9 && (answer(index, query) is Some <==> (forall|v: i32|
                #[trigger] data.contains(v) ==> v < query) || (forall|v: i32| #[trigger]
                data.contains(v) ==> query < v))
        }),
{
    answers_are_counts(parameter, data, index, query);
    range_covers(data);
    if wants_table(parameter, distinct(data)) {
        let entries = choose|entries: Seq<(i32, u64)>| #[trigger]
            is_tally(entries, data) && ascending(entries) && index == counted_table(
                INDEX_HASHMAP,
                entries,
            );
        tally_has_distinct_entries(entries, data);
        lemma_table_len(entries);
    }
}

/// Bytes that are no index, or stop short of its header, tell nothing. A range tells of the
/// values outside it that they do not occur.
pub proof fn damaged_indexes_tell_nothing(index: Seq<u8>, query: i32)
    ensures
        index.len() == 0 ==> answer(index, query) is None,
        index.len() > 0 && index[0] != 1 && index[0] != 2 ==> answer(index, query) is None,
        index.len() > 0 && index[0] == 1 ==> (answer(index, query) is Some <==> index.len() >= 9
            && (
        query < i32_at(index, 1) || query > i32_at(index, 5))),
        0 < index.len() < 5 && index[0] == 2 ==> answer(index, query) is None,
{
}

/// Builds the index of a block.
pub fn build_idx(parameter: &Parameter, data: &[i32]) -> (index: Box<[u8]>)
    requires
        data@.len() > 0 || wants_table(*parameter, 0),
    ensures
        is_index(*parameter, data@, index@),
{
    let ratio = parameter.ratio();
    let counts = count_values(data);
    let unique_count = counts.len();
    let use_hashmap = if unique_count <= 50 {
        ratio.above(5, 10)
    } else if unique_count <= 200 {
        ratio.above(1, 1)
    } else if unique_count <= 500 {
        ratio.above(2, 1)
    } else if unique_count <= 1000 {
        ratio.above(4, 1)
    } else if unique_count <= 2000 {
        ratio.above(8, 1)
    } else if unique_count <= 5000 {
        ratio.above(20, 1)
    } else {
        false
    };
    if use_hashmap {
        let index = build_hashmap_index(INDEX_HASHMAP, &counts);
        proof {
            let entries = choose|entries: Seq<(i32, u64)>| #[trigger]
                lists(entries, counts@) && ascending(entries) && index@ == counted_table(
                    INDEX_HASHMAP,
                    entries,
                );
            lemma_lists_tally(entries, counts@, data@);
        }
        index
    } else {
        proof {
            if data@.len() == 0 {
                lemma_distinct_empty(data@);
            }
        }
        build_minmax_index(INDEX_MINMAX, data)
    }
}

/// Answers a query from the bytes of an index, where they tell.
pub fn query_idx(_parameter: &Parameter, index: &[u8], query: &i32) -> (r: Option<u64>)
    ensures
        r == answer(index@, *query),
{
    if index.is_empty() {
        return None;
    }
    match index[0] {
        INDEX_MINMAX => query_minmax_index(index, query),
        INDEX_HASHMAP => query_hashmap_index(index, query),
        _ => None,
    }
}

} // verus!
