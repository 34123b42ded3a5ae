//! The range of a block, a complete table, or a bitmap of the values with the
//! table behind it.
use std::collections::HashMap;
use vstd::prelude::*;

use crate::bitmap::{bit_at, bitmap_of, bytes_for, is_bitmap, lemma_bits_held, read_bit, span};
use crate::bytes::{
    holds, i32_at, into_boxed_slice, lemma_holds_split, lemma_holds_whole, push_all, push_u32,
    read_i32, read_u32, u32_at, u32_bytes, u32_round_trip,
};
use crate::minmax::{
    build_minmax_index, lemma_outside_absent, lemma_range_header, minmax_answer, minmax_answers,
    out_of_range, push_range_header, query_minmax_index, range_alone, range_header,
};
use crate::parameter::Parameter;
use crate::table::{
    build_hashmap_index, counted_table, lemma_complete_answer, lemma_table_len, partial,
    partial_answer, push_table, query_hashmap_index, scan, scan_entries, scan_finds,
    sorted_table_answer, sorted_table_answers, table_bytes,
};
use crate::tally::{
    ascending, count_values, distinct, entries_of, highest, is_count_map, is_tally,
    lemma_distinct_empty, lemma_lists_tally, lemma_occurs, lists, lowest, max_value, min_value,
    occurrences, range_covers, tally_has_distinct_entries,
};

verus! {

pub const BLOCK_SIZE: usize = 131072;

pub const INDEX_BITMAP: u8 = 1;

pub const INDEX_HASHMAP: u8 = 2;

pub const INDEX_MINMAX: u8 = 3;

/// The layouts of an index.
#[derive(Clone, Copy, Debug, PartialEq, Eq, Structural)]
pub enum IndexType {
    MinMax,
    Bitmap,
    HashMap,
}

/// The layout for a block.
pub open spec fn index_type(parameter: Parameter, data: Seq<i32>) -> IndexType {
    let ratio = parameter.spec_ratio();
    if ratio.spec_below(5, 10) {
        IndexType::MinMax
    } else if distinct(data) <= 1000 && ratio.spec_above(2, 1) {
        IndexType::HashMap
    } else if distinct(data) < BLOCK_SIZE / 4 {
        if data.len() > 0 && span(lowest(data), highest(data)) <= 100_000 && ratio.spec_above(
            1,
            1,
        ) {
            IndexType::Bitmap
        } else if distinct(data) <= 2000 {
            IndexType::HashMap
        } else {
            IndexType::MinMax
        }
    } else {
        IndexType::MinMax
    }
}

/// The tag, the range, the bitmap, the number of entries and the table.
pub open spec fn bitmap_index(
    min_val: i32,
    max_val: i32,
    bitmap: Seq<u8>,
    entries: Seq<(i32, u64)>,
) -> Seq<u8> {
    range_header(INDEX_BITMAP, min_val, max_val) + bitmap + u32_bytes(
        (entries.len() % 0x1_0000_0000) as u32,
    ) + table_bytes(entries)
}

/// Whether `index` holds the bitmap of a block and the table of its values. The order of
/// the entries is open.
pub open spec fn is_bitmap_index(data: Seq<i32>, index: Seq<u8>) -> bool {
    exists|bitmap: Seq<u8>, entries: Seq<(i32, u64)>|
        #![trigger bitmap_index(lowest(data), highest(data), bitmap, entries)]
        is_tally(entries, data) && is_bitmap(bitmap, lowest(data), highest(data), data.to_set())
            && index == bitmap_index(lowest(data), highest(data), bitmap, entries)
}

/// Whether `index` is the index of `data`.
pub open spec fn is_index(parameter: Parameter, data: Seq<i32>, index: Seq<u8>) -> bool {
    match index_type(parameter, data) {
        IndexType::MinMax => index == range_header(INDEX_MINMAX, lowest(data), highest(data)),
        IndexType::HashMap => exists|entries: Seq<(i32, u64)>| #[trigger]
            is_tally(entries, data) && ascending(entries) && index == counted_table(
                INDEX_HASHMAP,
                entries,
            ),
        IndexType::Bitmap => is_bitmap_index(data, index),
    }
}

/// The answer of a bitmap with a table behind it.
pub open spec fn bitmap_answer(index: Seq<u8>, query: i32) -> Option<u64> {
    if index.len() < 9 {
        None
    } else if out_of_range(index, query) {
        Some(0)
    } else {
        let min_val = i32_at(index, 1);
        let table = 9 + bytes_for(span(min_val, i32_at(index, 5)));
        if index.len() < table + 4 {
            None
        } else if !bit_at(index, 9, query - min_val) {
            Some(0)
        } else {
            partial_answer(scan(index, table + 4, u32_at(index, table) as nat, query))
        }
    }
}

/// Whether the distance of `query` from the lowest value that a bitmap index
/// holds fits in an `i32`, as finding its bit takes.
pub open spec fn offset_fits(index: Seq<u8>, query: i32) -> bool {
    index.len() >= 9 && index[0] == INDEX_BITMAP && !out_of_range(index, query) ==> query - i32_at(
        index,
        1,
    ) <= i32::MAX
}

/// The answer that the bytes of an index give.
pub open spec fn answer(index: Seq<u8>, query: i32) -> Option<u64> {
    if index.len() == 0 {
        None
    } else if index[0] == INDEX_BITMAP {
        bitmap_answer(index, query)
    } else if index[0] == INDEX_HASHMAP {
        sorted_table_answer(index, query)
    } else if index[0] == INDEX_MINMAX {
        minmax_answer(index, query)
    } else {
        None
    }
}

proof fn lemma_bitmap_layout(
    index: Seq<u8>,
    min_val: i32,
    max_val: i32,
    bitmap: Seq<u8>,
    entries: Seq<(i32, u64)>,
)
    requires
        entries.len() < 0x1_0000_0000,
        index == bitmap_index(min_val, max_val, bitmap, entries),
    ensures
        index.len() == 13 + bitmap.len() + 12 * entries.len(),
        index[0] == INDEX_BITMAP,
        i32_at(index, 1) == min_val,
        i32_at(index, 5) == max_val,
        holds(index, 9, bitmap),
        u32_at(index, 9 + bitmap.len() as int) == entries.len(),
        holds(index, 13 + bitmap.len() as int, table_bytes(entries)),
{
    let header = range_header(INDEX_BITMAP, min_val, max_val);
    let n = (entries.len() % 0x1_0000_0000) as u32;
    lemma_table_len(entries);
    lemma_holds_whole(index);
    lemma_holds_split(index, 0, header + bitmap + u32_bytes(n), table_bytes(entries));
    lemma_holds_split(index, 0, header + bitmap, u32_bytes(n));
    lemma_holds_split(index, 0, header, bitmap);
    lemma_range_header(index, INDEX_BITMAP, min_val, max_val);
    u32_round_trip(index, 9 + bitmap.len() as int, n);
}

proof fn lemma_bitmap_answers(
    index: Seq<u8>,
    bitmap: Seq<u8>,
    entries: Seq<(i32, u64)>,
    data: Seq<i32>,
    query: i32,
)
    requires
        data.len() > 0,
        is_tally(entries, data),
        is_bitmap(bitmap, lowest(data), highest(data), data.to_set()),
        index.len() >= 13 + bitmap.len(),
        i32_at(index, 1) == lowest(data),
        i32_at(index, 5) == highest(data),
        holds(index, 9, bitmap),
        u32_at(index, 9 + bitmap.len() as int) == entries.len(),
        holds(index, 13 + bitmap.len() as int, table_bytes(entries)),
    ensures
        bitmap_answer(index, query) == Some(occurrences(data, query) as u64),
        occurrences(data, query) <= u64::MAX,
{
    let lo = lowest(data);
    let hi = highest(data);
    range_covers(data);
    lemma_occurs(data, query);
    lemma_complete_answer(entries, data, query);
    if query < lo || query > hi {
        lemma_outside_absent(data, query);
    } else {
        let p = query - lo;
        lemma_bits_held(index, 9, bitmap, p);
        assert((lo + p) as i32 == query);
        scan_finds(index, 13 + bitmap.len() as int, entries, 0, query);
    }
}

/// A bitmap with a table answers every query with the number of occurrences. Where the
/// range of the block is narrow enough, every query meets what [`query_idx`] asks.
pub proof fn bitmap_answers(data: Seq<i32>, index: Seq<u8>, query: i32)
    requires
        data.len() > 0,
        distinct(data) <= u32::MAX,
        is_bitmap_index(data, index),
    ensures
        highest(data) - lowest(data) <= i32::MAX ==> offset_fits(index, query),
        answer(index, query) == Some(occurrences(data, query) as u64),
        occurrences(data, query) <= u64::MAX,
{
    let (bitmap, entries) = choose|bitmap: Seq<u8>, entries: Seq<(i32, u64)>|
        #![trigger bitmap_index(lowest(data), highest(data), bitmap, entries)]
        is_tally(entries, data) && is_bitmap(bitmap, lowest(data), highest(data), data.to_set())
            && index == bitmap_index(lowest(data), highest(data), bitmap, entries);
    tally_has_distinct_entries(entries, data);
    lemma_bitmap_layout(index, lowest(data), highest(data), bitmap, entries);
    lemma_bitmap_answers(index, bitmap, entries, data, query);
}

/// An answer is the number of occurrences. A table and a bitmap answer every
/// query, a range those outside it; and a bitmap spans few enough values for
/// every query to meet what [`query_idx`] asks.
pub proof fn answers_are_counts(parameter: Parameter, data: Seq<i32>, index: Seq<u8>, query: i32)
    requires
        data.len() > 0 || !parameter.spec_ratio().spec_below(5, 10),
        is_index(parameter, data, index),
    ensures
        offset_fits(index, query),
        answer(index, query) matches Some(count) ==> count == occurrences(data, query),
        answer(index, query) is Some <==> index_type(parameter, data) != IndexType::MinMax || query
            < lowest(data) || query > highest(data),
{
    if data.len() == 0 {
        lemma_distinct_empty(data);
    }
    match index_type(parameter, data) {
        IndexType::MinMax => {
            minmax_answers(index, INDEX_MINMAX, data, query);
        },
        IndexType::HashMap => {
            let entries = choose|entries: Seq<(i32, u64)>| #[trigger]
                is_tally(entries, data) && ascending(entries) && index == counted_table(
                    INDEX_HASHMAP,
                    entries,
                );
            tally_has_distinct_entries(entries, data);
            sorted_table_answers(index, INDEX_HASHMAP, entries, data, query);
        },
        IndexType::Bitmap => {
            bitmap_answers(data, index, query);
        },
    }
}

/// Picks the layout for a block with these counts.
fn choose_index_type(
    parameter: &Parameter,
    data: &[i32],
    unique_count: usize,
) -> (kind: IndexType)
    requires
        unique_count == distinct(data@),
    ensures
        kind == index_type(*parameter, data@),
{
    let ratio = parameter.ratio();
    if ratio.below(5, 10) {
        IndexType::MinMax
    } else if unique_count <= 1000 && ratio.above(2, 1) {
        IndexType::HashMap
    } else if unique_count < BLOCK_SIZE / 4 {
        let narrow = if data.len() > 0 {
            let min_val = min_value(data);
            let max_val = max_value(data);
            max_val as i64 - min_val as i64 + 1 <= 100_000
        } else {
            false
        };
        if narrow && ratio.above(1, 1) {
            IndexType::Bitmap
        } else if unique_count <= 2000 {
            IndexType::HashMap
        } else {
            IndexType::MinMax
        }
    } else {
        IndexType::MinMax
    }
}

/// The bitmap of a block and the table of its values.
pub fn build_bitmap_index(data: &[i32], counts: &HashMap<i32, u64>) -> (index: Box<[u8]>)
    requires
        data@.len() > 0,
        is_count_map(counts@, data@),
        span(lowest(data@), highest(data@)) + 7 <= usize::MAX,
    ensures
        is_bitmap_index(data@, index@),
{
    let min_val = min_value(data);
    let max_val = max_value(data);
    proof {
        range_covers(data@);
    }
    let mut result: Vec<u8> = Vec::new();
    push_range_header(&mut result, INDEX_BITMAP, min_val, max_val);
    let bitmap = bitmap_of(min_val, max_val, counts);
    let count_map = entries_of(counts);
    push_all(&mut result, bitmap.as_slice());
    push_u32(&mut result, (count_map.len() as u64 % 0x1_0000_0000) as u32);
    push_table(&mut result, &count_map);
    proof {
        lemma_lists_tally(count_map@, counts@, data@);
        assert(counts@.dom() =~= data@.to_set());
        assert(result@ =~= bitmap_index(min_val, max_val, bitmap@, count_map@));
    }
    into_boxed_slice(result)
}

/// A block gets a complete table where it has up to 1000 different values and the ratio is
/// above 2. With fewer than 32768 different values it gets a bitmap with a table where the
/// range has at most 100000 places and the ratio is above 1, and a table where there are up
/// to 2000 values. Otherwise, and for any ratio below one half, it gets its range alone.
pub proof fn cost_rule(parameter: Parameter, data: Seq<i32>, index: Seq<u8>, query: i32)
    requires
        data.len() > 0,
        is_index(parameter, data, index),
    ensures
        ({
            let d = distinct(data);
            let places = highest(data) - lowest(data) + 1;
            let ratio = parameter.spec_ratio();
            let few = !ratio.spec_below(5, 10) && d <= 1000 && ratio.spec_above(2, 1);
            let dense = !ratio.spec_below(5, 10) && !few && d < 32768 && places <= 100000
                && ratio.spec_above(1, 1);
            let table = few || (!ratio.spec_below(5, 10) && !dense && d <= 2000);
            &&& table || dense ==> answer(index, query) == Some(occurrences(data, query) as u64)
            &&& table ==> index.len() == 5 + 12 * d
            &&& dense ==> index.len() == 13 + (places + 7) / 8 + 12 * d
            &&& !table && !dense ==> index.len() == 9 && (answer(index, query) is Some <==> (forall|
                v: i32,
            | #[trigger]
                data.contains(v) ==> v < query) || (forall|v: i32| #[trigger]
                data.contains(v) ==> query < v))
        }),
{
    match index_type(parameter, data) {
        IndexType::HashMap => {
            lemma_table_rule(data, index, query);
        },
        IndexType::Bitmap => {
            lemma_bitmap_rule(data, index, query);
        },
        IndexType::MinMax => {
            lemma_range_rule(data, index, query);
        },
    }
}

proof fn lemma_table_rule(data: Seq<i32>, index: Seq<u8>, query: i32)
    requires
        data.len() > 0,
        exists|entries: Seq<(i32, u64)>| #[trigger]
            is_tally(entries, data) && ascending(entries) && index == counted_table(
                INDEX_HASHMAP,
                entries,
            ),
        distinct(data) <= 2000,
    ensures
        answer(index, query) == Some(occurrences(data, query) as u64),
        index.len() == 5 + 12 * distinct(data),
{
    let entries = choose|entries: Seq<(i32, u64)>| #[trigger]
        is_tally(entries, data) && ascending(entries) && index == counted_table(
            INDEX_HASHMAP,
            entries,
        );
    tally_has_distinct_entries(entries, data);
    lemma_table_len(entries);
    sorted_table_answers(index, INDEX_HASHMAP, entries, data, query);
}

proof fn lemma_bitmap_rule(data: Seq<i32>, index: Seq<u8>, query: i32)
    requires
        data.len() > 0,
        is_bitmap_index(data, index),
        distinct(data) < 32768,
    ensures
        answer(index, query) == Some(occurrences(data, query) as u64),
        index.len() == 13 + (highest(data) - lowest(data) + 8) / 8 + 12 * distinct(data),
{
    bitmap_answers(data, index, query);
    let (bitmap, entries) = choose|bitmap: Seq<u8>, entries: Seq<(i32, u64)>|
        #![trigger bitmap_index(lowest(data), highest(data), bitmap, entries)]
        is_tally(entries, data) && is_bitmap(bitmap, lowest(data), highest(data), data.to_set())
            && index == bitmap_index(lowest(data), highest(data), bitmap, entries);
    tally_has_distinct_entries(entries, data);
    lemma_table_len(entries);
}

proof fn lemma_range_rule(data: Seq<i32>, index: Seq<u8>, query: i32)
    requires
        data.len() > 0,
        index == range_header(INDEX_MINMAX, lowest(data), highest(data)),
    ensures
        index.len() == 9,
        answer(index, query) is Some <==> (forall|v: i32| #[trigger] data.contains(v) ==> v < query)
            || (forall|v: i32| #[trigger] data.contains(v) ==> query < v),
{
    range_alone(index, INDEX_MINMAX, data, query);
}

/// Bytes that are no index, or stop short of its header, tell nothing. A range tells of the
/// values outside it that they do not occur.
pub proof fn damaged_indexes_tell_nothing(index: Seq<u8>, query: i32)
    ensures
        index.len() == 0 ==> answer(index, query) is None,
        index.len() > 0 && index[0] != 1 && index[0] != 2 && index[0] != 3
            ==> answer(index, query) is None,
        index.len() > 0 && index[0] == 3 ==> (answer(index, query) is Some <==> index.len() >= 9
            && (
        query < i32_at(index, 1) || query > i32_at(index, 5))),
        0 < index.len() < 5 && index[0] == 2 ==> answer(index, query) is None,
        0 < index.len() < 9 && index[0] == 1 ==> answer(index, query) is None,
        index.len() >= 9 && index[0] == 1 && (query < i32_at(index, 1) || query > i32_at(
            index,
            5,
        )) ==> answer(index, query) == Some(0u64),
{
}

/// Builds the index of a block.
pub fn build_idx(parameter: &Parameter, data: &[i32]) -> (index: Box<[u8]>)
    requires
        data@.len() > 0 || !parameter.spec_ratio().spec_below(5, 10),
    ensures
        is_index(*parameter, data@, index@),
{
    let counts = count_values(data);
    let kind = choose_index_type(parameter, data, counts.len());
    proof {
        if data@.len() == 0 {
            lemma_distinct_empty(data@);
        }
    }
    match kind {
        IndexType::MinMax => build_minmax_index(INDEX_MINMAX, data),
        IndexType::Bitmap => build_bitmap_index(data, &counts),
        IndexType::HashMap => {
            let index = build_hashmap_index(INDEX_HASHMAP, &counts);
            proof {
                let entries = choose|entries: Seq<(i32, u64)>| #[trigger]
                    lists(entries, counts@) && ascending(entries) && index@ == counted_table(
                        INDEX_HASHMAP,
                        entries,
                    );
                lemma_lists_tally(entries, counts@, data@);
            }
            index
        },
    }
}

fn query_bitmap_index(index: &[u8], query: &i32) -> (r: Option<u64>)
    requires
        index@.len() > 0,
        index@[0] == INDEX_BITMAP,
        offset_fits(index@, *query),
    ensures
        r == bitmap_answer(index@, *query),
{
    if index.len() < 9 {
        return None;
    }
    let min_val = read_i32(index, 1);
    let max_val = read_i32(index, 5);
    if *query < min_val || *query > max_val {
        return Some(0);
    }
    let offset: usize = (*query - min_val) as usize;
    let range: u64 = (max_val as i64 - min_val as i64 + 1) as u64;
    let bitmap_bytes: u64 = (range + 7) / 8;
    if ((index.len() - 9) as u64) < bitmap_bytes + 4 {
        return None;
    }
    let bitmap_len: usize = bitmap_bytes as usize;
    if !read_bit(index, 9, offset) {
        return Some(0);
    }
    let count_map_len = read_u32(index, 9 + bitmap_len);
    partial(scan_entries(index, 9 + bitmap_len + 4, count_map_len, *query))
}

/// Answers a query from the bytes of an index, where they tell.
pub fn query_idx(_parameter: &Parameter, index: &[u8], query: &i32) -> (r: Option<u64>)
    requires
        offset_fits(index@, *query),
    ensures
        r == answer(index@, *query),
{
    if index.is_empty() {
        return None;
    }
    match index[0] {
        INDEX_BITMAP => query_bitmap_index(index, query),
        INDEX_HASHMAP => query_hashmap_index(index, query),
        INDEX_MINMAX => query_minmax_index(index, query),
        _ => None,
    }
}

} // verus!
