//! The range of a block, a complete list in variable-length numbers, or such a list
//! of the most frequent values, whichever pays for its size.
use std::collections::HashMap;
use vstd::arithmetic::power2::{lemma2_to64, lemma2_to64_rest, lemma_pow2_strictly_increases};
use vstd::prelude::*;

use crate::bytes::{i32_at, into_boxed_slice, lemma_byte_held, lemma_holds_split, lemma_holds_whole};
use crate::deltas::last_key;
use crate::double::Double;
use crate::minmax::{
    build_minmax_index, minmax_answer, minmax_answers, query_minmax_index, range_alone,
    range_header,
};
use crate::pairs::{
    bisect_list, bisect_list_finds, pair_bytes, pairs_at, pairs_round_trip, push_pairs, read_pairs,
    search,
};
use crate::parameter::Parameter;
use crate::table::{
    complete, complete_answer, entry_for, lemma_complete_answer, lemma_entry_counted,
    lemma_entry_for, lemma_map_answer, partial, partial_answer, Lookup,
};
use crate::tally::{
    ascending, ascending_entries, count_in, count_values, distinct, has_key, highest, histogram,
    in_order, in_order_is_tally, is_count_map, is_top, is_top_of, key_set, lemma_few_values,
    lemma_in_order, lemma_key_set, lemma_lists_tally, lemma_occurs, lemma_told_values,
    lemma_top_of_counts, lemma_top_of_rearranged, lists, lowest, occurrences, sort_by_key,
    tally_has_distinct_entries, top_entries,
};
use crate::varint::{
    decode_varint, encode_varint, u64_varint_at, u64_varint_round_trip, varint_bytes, varint_shape,
    zigzag,
};

verus! {

pub const INDEX_MINMAX: u8 = 1;

pub const INDEX_HASHMAP: u8 = 2;

pub const INDEX_TOPK: u8 = 3;

/// The tag, the number of entries and the list.
pub open spec fn list_index(tag: u8, entries: Seq<(i32, u64)>) -> Seq<u8> {
    seq![tag] + varint_bytes(entries.len()) + pair_bytes(entries)
}

/// Whether a block with so many different values may get a list at all.
pub open spec fn may_list(ratio: Double, distinct: nat) -> bool {
    distinct <= 5000 && !ratio.spec_below(3, 10)
}

/// Whether a complete list of so many values is worth its size.
pub open spec fn wants_list(ratio: Double, distinct: nat) -> bool {
    if distinct <= 50 {
        ratio.spec_above(4, 10)
    } else if distinct <= 100 {
        ratio.spec_above(8, 10)
    } else if distinct <= 200 {
        ratio.spec_above(12, 10)
    } else if distinct <= 500 {
        ratio.spec_above(25, 10)
    } else if distinct <= 1000 {
        ratio.spec_above(5, 1)
    } else if distinct <= 2000 {
        ratio.spec_above(10, 1)
    } else {
        ratio.spec_above(25, 1)
    }
}

/// The number of most frequent values to list.
pub open spec fn top_k(ratio: Double) -> nat {
    if ratio.spec_above(5, 1) {
        200
    } else if ratio.spec_above(2, 1) {
        100
    } else {
        50
    }
}

/// Whether the block gets a complete list: it is worth its size and takes less than
/// ten kilobytes.
pub open spec fn lists_all(parameter: Parameter, data: Seq<i32>) -> bool {
    let ratio = parameter.spec_ratio();
    may_list(ratio, distinct(data)) && wants_list(ratio, distinct(data)) && list_index(
        INDEX_HASHMAP,
        in_order(data),
    ).len() < 10240
}

/// Whether the block gets a list of its most frequent values, if that takes less than
/// three kilobytes.
pub open spec fn lists_top(parameter: Parameter, data: Seq<i32>) -> bool {
    let ratio = parameter.spec_ratio();
    may_list(ratio, distinct(data)) && !lists_all(parameter, data) && distinct(data) > 500
        && ratio.spec_above(1, 1)
}

/// The index with the list `top`, or with the range where the list takes too much.
pub open spec fn top_or_range(data: Seq<i32>, top: Seq<(i32, u64)>) -> Seq<u8> {
    if list_index(INDEX_TOPK, top).len() < 3072 {
        list_index(INDEX_TOPK, top)
    } else {
        range_header(INDEX_MINMAX, lowest(data), highest(data))
    }
}

/// Whether `index` is an index of `data`. It is open which of equally frequent values
/// are listed.
pub open spec fn is_index(parameter: Parameter, data: Seq<i32>, index: Seq<u8>) -> bool {
    if lists_all(parameter, data) {
        index == list_index(INDEX_HASHMAP, in_order(data))
    } else if lists_top(parameter, data) {
        exists|top: Seq<(i32, u64)>| #[trigger]
            is_top(top, top_k(parameter.spec_ratio()), data) && ascending(top) && index
                == top_or_range(data, top)
    } else {
        index == range_header(INDEX_MINMAX, lowest(data), highest(data))
    }
}

/// Whether `index` holds the list of all keys of a map.
pub open spec fn is_full_list(m: Map<i32, u64>, index: Seq<u8>) -> bool {
    exists|entries: Seq<(i32, u64)>| #[trigger]
        lists(entries, m) && ascending(entries) && index == list_index(INDEX_HASHMAP, entries)
}

/// Whether `index` holds a list of the `k` most frequent keys of a map.
pub open spec fn is_top_list(m: Map<i32, u64>, k: nat, index: Seq<u8>) -> bool {
    exists|top: Seq<(i32, u64)>| #[trigger]
        is_top_of(top, k, m) && ascending(top) && index == list_index(INDEX_TOPK, top)
}

/// The outcome of a search through a stored list.
pub open spec fn list_lookup(index: Seq<u8>, query: i32) -> Lookup {
    let (n, pos) = u64_varint_at(index, 1);
    match n {
        None => Lookup::Truncated,
        Some(count) => match pairs_at(index, pos, 0, count as nat) {
            None => Lookup::Truncated,
            Some(entries) => bisect_list(entries, 0, entries.len() as int, query),
        },
    }
}

/// The answer that the bytes of an index give.
pub open spec fn answer(index: Seq<u8>, query: i32) -> Option<u64> {
    if index.len() == 0 {
        None
    } else if index[0] == INDEX_MINMAX {
        minmax_answer(index, query)
    } else if index[0] == INDEX_HASHMAP {
        complete_answer(list_lookup(index, query))
    } else if index[0] == INDEX_TOPK {
        partial_answer(list_lookup(index, query))
    } else {
        None
    }
}

/// A stored list in ascending order says what it was given.
proof fn lemma_list_lookup(index: Seq<u8>, tag: u8, entries: Seq<(i32, u64)>, query: i32)
    requires
        ascending(entries),
        entries.len() <= u64::MAX,
        index == list_index(tag, entries),
    ensures
        index.len() > 0,
        index[0] == tag,
        list_lookup(index, query) == entry_for(entries, query),
{
    let n = entries.len() as u64;
    let list = pair_bytes(entries);
    lemma_holds_whole(index);
    lemma_holds_split(index, 0, seq![tag] + varint_bytes(n as nat), list);
    lemma_holds_split(index, 0, seq![tag], varint_bytes(n as nat));
    lemma_byte_held(index, 0, tag);
    u64_varint_round_trip(index, 1, n);
    let pos = 1 + varint_bytes(n as nat).len() as int;
    assert(entries.take(0) =~= Seq::empty());
    pairs_round_trip(index, pos, entries, 0);
    assert(entries.skip(0) =~= entries);
    bisect_list_finds(entries, 0, entries.len() as int, query);
}

/// The list of all keys of a map answers every query with the count, zero where there is
/// none.
pub proof fn full_list_answers(m: Map<i32, u64>, index: Seq<u8>, query: i32)
    requires
        is_full_list(m, index),
    ensures
        answer(index, query) == Some(count_in(m, query)),
{
    let entries = choose|entries: Seq<(i32, u64)>| #[trigger]
        lists(entries, m) && ascending(entries) && index == list_index(INDEX_HASHMAP, entries);
    lemma_few_values(entries);
    lemma_list_lookup(index, INDEX_HASHMAP, entries, query);
    lemma_map_answer(entries, m, query);
}

/// The list of the `k` most frequent keys of a map answers as many queries as it has
/// entries: each is one for a key and gets its count, and no key without an answer has a
/// greater count.
pub proof fn top_list_answers(m: Map<i32, u64>, k: nat, index: Seq<u8>)
    requires
        is_top_list(m, k, index),
    ensures
        forall|q: i32| #[trigger]
            answer(index, q) is Some ==> m.contains_key(q) && answer(index, q) == Some(m[q]),
        Set::new(|q: i32| answer(index, q) is Some).finite(),
        Set::new(|q: i32| answer(index, q) is Some).len() == if k < m.len() {
            k
        } else {
            m.len()
        },
        forall|q: i32, v: i32| #[trigger]
            answer(index, q) is Some && m.contains_key(v) && (#[trigger] answer(index, v)) is None
                ==> m[v] <= m[q],
{
    let top = choose|top: Seq<(i32, u64)>| #[trigger]
        is_top_of(top, k, m) && ascending(top) && index == list_index(INDEX_TOPK, top);
    lemma_few_values(top);
    assert forall|q: i32| #[trigger] answer(index, q) is Some <==> has_key(top, q) by {
        lemma_list_lookup(index, INDEX_TOPK, top, q);
    }
    assert forall|q: i32| #[trigger] answer(index, q) is Some implies m.contains_key(q) && answer(
        index,
        q,
    ) == Some(m[q]) by {
        lemma_list_lookup(index, INDEX_TOPK, top, q);
        let i = choose|i: int| 0 <= i < top.len() && (#[trigger] top[i]).0 == q;
        lemma_entry_for(top, i);
    }
    lemma_key_set(top, top.len() as int);
    assert(top.take(top.len() as int) =~= top);
    assert(Set::new(|q: i32| answer(index, q) is Some) =~= key_set(top, top.len() as int));
    assert forall|q: i32, v: i32| #[trigger]
        answer(index, q) is Some && m.contains_key(v) && (#[trigger] answer(
            index,
            v,
        )) is None implies m[v] <= m[q] by {
        let i = choose|i: int| 0 <= i < top.len() && (#[trigger] top[i]).0 == q;
        assert(!has_key(top, v));
        assert(m[v] <= top[i].1);
    }
}

/// An answer is the number of occurrences. A complete list gives one to every query, a
/// list of the most frequent values to these, and a range to the values outside it.
pub proof fn answers_are_counts(parameter: Parameter, data: Seq<i32>, index: Seq<u8>, query: i32)
    requires
        0 < data.len() <= u64::MAX,
        is_index(parameter, data, index),
    ensures
        answer(index, query) matches Some(count) ==> count == occurrences(data, query),
        lists_all(parameter, data) ==> answer(index, query) is Some,
        lists_top(parameter, data) ==> exists|top: Seq<(i32, u64)>| #[trigger]
            is_top(top, top_k(parameter.spec_ratio()), data) && ascending(top) && (answer(
                index,
                query,
            ) is Some <==> if list_index(INDEX_TOPK, top).len() < 3072 {
                has_key(top, query)
            } else {
                query < lowest(data) || query > highest(data)
            }),
        !lists_all(parameter, data) && !lists_top(parameter, data) ==> (answer(index, query) is Some
            <==> query < lowest(data) || query > highest(data)),
{
    lemma_occurs(data, query);
    if lists_all(parameter, data) {
        let entries = in_order(data);
        assert forall|v: i32| #[trigger] data.contains(v) implies occurrences(data, v)
            <= u64::MAX by {
            lemma_occurs(data, v);
        }
        in_order_is_tally(data);
        tally_has_distinct_entries(entries, data);
        lemma_list_lookup(index, INDEX_HASHMAP, entries, query);
        lemma_complete_answer(entries, data, query);
    } else if lists_top(parameter, data) {
        let top = choose|top: Seq<(i32, u64)>| #[trigger]
            is_top(top, top_k(parameter.spec_ratio()), data) && ascending(top) && index
                == top_or_range(data, top);
        if list_index(INDEX_TOPK, top).len() < 3072 {
            lemma_list_lookup(index, INDEX_TOPK, top, query);
            lemma_entry_counted(top, data, query);
        } else {
            minmax_answers(index, INDEX_MINMAX, data, query);
        }
    } else {
        minmax_answers(index, INDEX_MINMAX, data, query);
    }
}

/// No index takes ten kilobytes.
pub proof fn indexes_are_small(parameter: Parameter, data: Seq<i32>, index: Seq<u8>)
    requires
        is_index(parameter, data, index),
    ensures
        0 < index.len() < 10240,
{
    assert(range_header(INDEX_MINMAX, lowest(data), highest(data)).len() == 9);
}

/// Writes a list.
fn build_list(tag: u8, entries: &Vec<(i32, u64)>) -> (index: Box<[u8]>)
    ensures
        index@ == list_index(tag, entries@),
{
    let mut result: Vec<u8> = Vec::new();
    result.push(tag);
    encode_varint(entries.len() as u64, &mut result);
    push_pairs(&mut result, entries);
    assert(result@ =~= list_index(tag, entries@));
    into_boxed_slice(result)
}

/// The list of all keys.
pub fn build_compressed_hashmap(counts: &HashMap<i32, u64>) -> (index: Box<[u8]>)
    ensures
        is_full_list(counts@, index@),
{
    let entries = ascending_entries(counts);
    assert(lists(entries@, counts@));
    build_list(INDEX_HASHMAP, &entries)
}

/// The list of the most frequent keys.
pub fn build_topk_index(counts: &HashMap<i32, u64>, ratio: Double) -> (index: Box<[u8]>)
    requires
        ratio.within(10000),
    ensures
        is_top_list(counts@, top_k(ratio), index@),
{
    let k: usize = if ratio.above(5, 1) {
        200
    } else if ratio.above(2, 1) {
        100
    } else {
        50
    };
    let most = top_entries(counts, k);
    let top = sort_by_key(most);
    proof {
        lemma_top_of_rearranged(most@, top@, k as nat, counts@);
        assert(is_top_of(top@, top_k(ratio), counts@));
    }
    build_list(INDEX_TOPK, &top)
}

/// Whether a complete list is worth its size.
fn wants_hashmap(ratio: Double, unique_count: usize) -> (r: bool)
    requires
        ratio.within(10000),
    ensures
        r == wants_list(ratio, unique_count as nat),
{
    if unique_count <= 50 {
        ratio.above(4, 10)
    } else if unique_count <= 100 {
        ratio.above(8, 10)
    } else if unique_count <= 200 {
        ratio.above(12, 10)
    } else if unique_count <= 500 {
        ratio.above(25, 10)
    } else if unique_count <= 1000 {
        ratio.above(5, 1)
    } else if unique_count <= 2000 {
        ratio.above(10, 1)
    } else {
        ratio.above(25, 1)
    }
}

/// A list takes from two to fifteen bytes for an entry, and from two to eleven before the
/// first.
pub proof fn list_length(tag: u8, entries: Seq<(i32, u64)>)
    requires
        entries.len() <= u64::MAX,
    ensures
        2 + 2 * entries.len() <= list_index(tag, entries).len() <= 11 + 15 * entries.len(),
        entries.len() < 128 ==> list_index(tag, entries).len() <= 2 + 15 * entries.len(),
        entries.len() < 16384 ==> list_index(tag, entries).len() <= 3 + 15 * entries.len(),
{
    lemma_pairs_length(entries);
    lemma2_to64();
    lemma2_to64_rest();
    lemma_pow2_strictly_increases(64, 70);
    varint_shape(entries.len(), 10);
    varint_shape(entries.len(), 1);
    varint_shape(entries.len(), 2);
}

proof fn lemma_pairs_length(entries: Seq<(i32, u64)>)
    ensures
        2 * entries.len() <= pair_bytes(entries).len() <= 15 * entries.len(),
    decreases entries.len(),
{
    if entries.len() > 0 {
        let last = entries.last();
        let prev = last_key(entries.drop_last());
        lemma_pairs_length(entries.drop_last());
        lemma2_to64();
        lemma2_to64_rest();
        lemma_pow2_strictly_increases(64, 70);
        varint_shape(zigzag(last.0.wrapping_sub(prev)) as nat, 5);
        varint_shape(last.1 as nat, 10);
    }
}

/// The values of a block that an index answers.
pub open spec fn answered_values(data: Seq<i32>, index: Seq<u8>) -> Set<i32> {
    Set::new(|v: i32| data.contains(v) && answer(index, v) is Some)
}

proof fn lemma_full_rule(data: Seq<i32>, list: Seq<u8>, query: i32)
    requires
        0 < data.len() <= u64::MAX,
        is_full_list(histogram(data), list),
    ensures
        list == list_index(INDEX_HASHMAP, in_order(data)),
        answer(list, query) == Some(occurrences(data, query) as u64),
{
    let m = histogram(data);
    let entries = choose|entries: Seq<(i32, u64)>| #[trigger]
        lists(entries, m) && ascending(entries) && list == list_index(INDEX_HASHMAP, entries);
    assert forall|v: i32| #[trigger] m.contains_key(v) implies m[v] == occurrences(data, v) by {
        lemma_occurs(data, v);
    }
    assert(is_count_map(m, data));
    lemma_lists_tally(entries, m, data);
    lemma_in_order(entries, data);
    full_list_answers(m, list, query);
    lemma_occurs(data, query);
    assert(count_in(m, query) == occurrences(data, query));
}

proof fn lemma_top_rule(data: Seq<i32>, index: Seq<u8>, k: nat)
    requires
        0 < data.len() <= u64::MAX,
        k <= 200,
        exists|top: Seq<(i32, u64)>| #[trigger]
            is_top(top, k, data) && ascending(top) && index == top_or_range(data, top),
    ensures
        index.len() > 0,
        index[0] == INDEX_TOPK,
        forall|v: i32| !data.contains(v) ==> #[trigger] answer(index, v) is None,
        answered_values(data, index).finite(),
        answered_values(data, index).len() == if k < distinct(data) {
            k
        } else {
            distinct(data)
        },
        forall|v: i32, w: i32| #[trigger]
            answered_values(data, index).contains(v) && #[trigger] data.contains(w)
                && !answered_values(data, index).contains(w) ==> occurrences(data, w)
                <= occurrences(data, v),
{
    let top = choose|top: Seq<(i32, u64)>| #[trigger]
        is_top(top, k, data) && ascending(top) && index == top_or_range(data, top);
    list_length(INDEX_TOPK, top);
    assert(index == list_index(INDEX_TOPK, top));
    assert forall|v: i32| #[trigger] answer(index, v) is Some <==> has_key(top, v) by {
        lemma_list_lookup(index, INDEX_TOPK, top, v);
    }
    lemma_list_lookup(index, INDEX_TOPK, top, 0);
    let told = answered_values(data, index);
    assert forall|v: i32| #[trigger] told.contains(v) <==> data.contains(v) && has_key(top, v) by {
        assert(answer(index, v) is Some <==> has_key(top, v));
    }
    assert forall|v: i32| !data.contains(v) implies #[trigger] answer(index, v) is None by {
        if has_key(top, v) {
            let i = choose|i: int| 0 <= i < top.len() && (#[trigger] top[i]).0 == v;
            assert(data.contains(top[i].0));
        }
    }
    lemma_told_values(top, k, data, told);
}

/// What the default strategy is for. `list` is the complete list of the values of a block.
/// - With up to 5000 different values and a ratio that is not below 0.3, the index is that
///   list, and answers every query, where the list takes less than 10240 bytes and the ratio
///   is above 0.4 for up to 50 values, 0.8 up to 100, 1.2 up to 200, 2.5 up to 500, 5 up to
///   1000, 10 up to 2000, and 25 beyond.
/// - Otherwise, with more than 500 values and a ratio above 1, the most frequent values are
///   answered: 50 of them, above 2 there are 100, and above 5 there are 200.
/// - Otherwise it is the range alone.
pub proof fn cost_rule(
    parameter: Parameter,
    data: Seq<i32>,
    index: Seq<u8>,
    list: Seq<u8>,
    query: i32,
)
    requires
        0 < data.len() <= u64::MAX,
        is_index(parameter, data, index),
        is_full_list(histogram(data), list),
    ensures
        ({
            let d = distinct(data);
            let ratio = parameter.spec_ratio();
            let full = d <= 5000 && !ratio.spec_below(3, 10) && list.len() < 10240 && ((d <= 50
                && ratio.spec_above(4, 10)) || (50 < d <= 100 && ratio.spec_above(8, 10)) || (100
                < d <= 200 && ratio.spec_above(12, 10)) || (200 < d <= 500 && ratio.spec_above(
                25,
                10,
            )) || (500 < d <= 1000 && ratio.spec_above(5, 1)) || (1000 < d <= 2000
                && ratio.spec_above(10, 1)) || (2000 < d && ratio.spec_above(25, 1)));
            let top = !full && 500 < d <= 5000 && !ratio.spec_below(3, 10) && ratio.spec_above(
                1,
                1,
            );
            let k: nat = if ratio.spec_above(5, 1) {
                200
            } else if ratio.spec_above(2, 1) {
                100
            } else {
                50
            };
            let told = answered_values(data, index);
            &&& full ==> index == list && answer(index, query) == Some(
                occurrences(data, query) as u64,
            )
            &&& top ==> told.finite() && told.len() == k && (!data.contains(query) ==> answer(
                index,
                query,
            ) is None) && forall|v: i32, w: i32| #[trigger]
                told.contains(v) && #[trigger] data.contains(w) && !told.contains(w)
                    ==> occurrences(data, w) <= occurrences(data, v)
            &&& !full && !top ==> index.len() == 9 && (answer(index, query) is Some <==> (forall|
                v: i32,
            | #[trigger]
                data.contains(v) ==> v < query) || (forall|v: i32| #[trigger]
                data.contains(v) ==> query < v))
        }),
{
    lemma_full_rule(data, list, query);
    if lists_all(parameter, data) {
    } else if lists_top(parameter, data) {
        lemma_top_rule(data, index, top_k(parameter.spec_ratio()));
    } else {
        range_alone(index, INDEX_MINMAX, data, query);
    }
}

/// Bytes that are no index, or stop short of its header, tell nothing. A range tells of the
/// values outside it that they do not occur.
pub proof fn damaged_indexes_tell_nothing(index: Seq<u8>, query: i32)
    ensures
        index.len() == 0 ==> answer(index, query) is None,
        index.len() > 0 && index[0] != 1 && index[0] != 2 && index[0] != 3
            ==> answer(index, query) is None,
        index.len() > 0 && index[0] == 1 ==> (answer(index, query) is Some <==> index.len() >= 9
            && (
        query < i32_at(index, 1) || query > i32_at(index, 5))),
        0 < index.len() < 2 && index[0] == 2 ==> answer(index, query) is None,
        0 < index.len() < 2 && index[0] == 3 ==> answer(index, query) is None,
{
}

/// Builds the index of a block.
pub fn build_idx(parameter: &Parameter, data: &[i32]) -> (index: Box<[u8]>)
    requires
        data@.len() > 0,
    ensures
        is_index(*parameter, data@, index@),
{
    let ratio = parameter.ratio();
    let counts = count_values(data);
    let unique_count = counts.len();
    let minmax_index = build_minmax_index(INDEX_MINMAX, data);
    if unique_count > 5000 || ratio.below(3, 10) {
        return minmax_index;
    }
    let hashmap_index = build_compressed_hashmap(&counts);
    proof {
        let entries = choose|entries: Seq<(i32, u64)>| #[trigger]
            lists(entries, counts@) && ascending(entries) && hashmap_index@ == list_index(
                INDEX_HASHMAP,
                entries,
            );
        lemma_lists_tally(entries, counts@, data@);
        lemma_in_order(entries, data@);
    }
    if wants_hashmap(ratio, unique_count) && hashmap_index.len() < 10240 {
        return hashmap_index;
    }
    if unique_count > 500 && ratio.above(1, 1) {
        let topk_index = build_topk_index(&counts, ratio);
        proof {
            let top = choose|top: Seq<(i32, u64)>| #[trigger]
                is_top_of(top, top_k(ratio), counts@) && ascending(top) && topk_index@
                    == list_index(INDEX_TOPK, top);
            lemma_top_of_counts(top, top_k(ratio), counts@, data@);
        }
        if topk_index.len() < 3072 {
            return topk_index;
        }
    }
    minmax_index
}

/// Decodes a list and searches it.
fn lookup(index: &[u8], query: &i32) -> (r: Lookup)
    ensures
        r == list_lookup(index@, *query),
{
    let mut offset: usize = 1;
    match decode_varint(index, &mut offset) {
        None => Lookup::Truncated,
        Some(count) => match read_pairs(index, offset, count) {
            None => Lookup::Truncated,
            Some(entries) => search(&entries, *query),
        },
    }
}

/// Answers a query from the bytes of an index, where they tell.
pub fn query_idx(_parameter: &Parameter, index: &[u8], query: &i32) -> (r: Option<u64>)
    ensures
        r == answer(index@, *query),
{
    if index.len() == 0 {
        return None;
    }
    match index[0] {
        INDEX_MINMAX => query_minmax_index(index, query),
        INDEX_HASHMAP => complete(lookup(index, query)),
        INDEX_TOPK => partial(lookup(index, query)),
        _ => None,
    }
}

} // verus!
