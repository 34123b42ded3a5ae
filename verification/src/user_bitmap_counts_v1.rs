//! The range of a block, a complete table, a bitmap of the values, or both a
//! bitmap and a table, whichever pays for its size.
use std::collections::HashMap;
use vstd::prelude::*;

use crate::bitmap::{
    bit_at, bitmap_is_unique, bitmap_of, bytes_for, is_bitmap, lemma_bits_held, read_bit, span,
};
use crate::bytes::{
    holds, i32_at, into_boxed_slice, lemma_holds_split, lemma_holds_whole, push_all, push_u32,
    read_i32, read_u32, u32_at, u32_bytes, u32_round_trip,
};
use crate::double::Double;
use crate::exact::{lt_is_the_order, near_decimal, near_mul, near_order_apart};
use crate::minmax::{
    lemma_range_header, minmax_answer, minmax_answers, out_of_range, push_range_header,
    query_minmax_index, range_alone, range_header, range_index,
};
use crate::parameter::Parameter;
use crate::table::{
    bisect, bisect_entries, bisect_finds, build_hashmap_index, counted_table, lemma_map_answer,
    lemma_table_len, partial, partial_answer, push_table, query_hashmap_index, sorted_table_answer,
    sorted_table_answers, table_bytes,
};
use crate::tally::{
    ascending, ascending_entries, ascending_tally_is_unique, count_in, count_values, distinct,
    distinct_fits_range, highest, histogram, is_tally, keys_in_range, lemma_lists_len,
    lemma_lists_tally, lemma_occurs, lemma_tally_lists, lists, lowest, max_value, min_value,
    occurrences, range_covers, tally_has_distinct_entries,
};

verus! {

pub const INDEX_MINMAX: u8 = 1;

pub const INDEX_HASHMAP: u8 = 2;

pub const INDEX_BITMAP: u8 = 3;

pub const INDEX_HYBRID: u8 = 4;

/// The layouts of an index.
#[derive(Clone, Copy, Debug, PartialEq, Eq, Structural)]
pub enum Layout {
    MinMax,
    HashMap,
    Bitmap,
    Hybrid,
}

/// The kilobytes of a table: five bytes, and twelve for each value.
pub open spec fn table_kb(distinct: nat) -> Double {
    Double::spec_decimal(5 + 12 * distinct, 1024)
}

/// The kilobytes of a bitmap: nine bytes, and an eighth for each place.
pub open spec fn bitmap_kb(range: nat) -> Double {
    Double::spec_decimal(72 + range, 8192)
}

/// The kilobytes of a bitmap with a table.
pub open spec fn hybrid_kb(distinct: nat, range: nat) -> Double {
    Double::spec_decimal(72 + range + 96 * distinct, 8192)
}

/// The layout for a block with this many different values in a range of this
/// many places.
pub open spec fn layout(parameter: Parameter, distinct: nat, range: nat) -> Layout {
    let ratio = parameter.spec_ratio();
    let table = table_kb(distinct);
    let bitmap = bitmap_kb(range);
    let hybrid = hybrid_kb(distinct, range);
    if distinct <= 100 {
        Layout::HashMap
    } else if distinct <= 500 && ratio.spec_above(4, 10) {
        Layout::HashMap
    } else if distinct <= 1000 && ratio.spec_gt(table.spec_mul(Double::spec_decimal(6, 10))) {
        Layout::HashMap
    } else if range < 100000 && distinct > 500 && ratio.spec_above(2, 1) && hybrid.spec_below(25, 1)
        && hybrid.spec_lt(table.spec_mul(Double::spec_decimal(13, 10))) {
        Layout::Hybrid
    } else if range < 150000 && bitmap.spec_below(20, 1) && ratio.spec_above(6, 10) && (
    bitmap.spec_lt(table.spec_mul(Double::spec_decimal(7, 10))) || (range < 50000
        && ratio.spec_above(1, 1))) {
        Layout::Bitmap
    } else if distinct <= 2000 && ratio.spec_gt(table) {
        Layout::HashMap
    } else if distinct <= 5000 && ratio.spec_gt(table.spec_mul(Double::spec_decimal(2, 1))) {
        Layout::HashMap
    } else {
        Layout::MinMax
    }
}

/// The layout for a block.
pub open spec fn layout_of(parameter: Parameter, data: Seq<i32>) -> Layout {
    layout(parameter, distinct(data), span(lowest(data), highest(data)) as nat)
}

/// The tag, the range, the bitmap, the number of entries and the table.
pub open spec fn hybrid_index(
    min_val: i32,
    max_val: i32,
    bitmap: Seq<u8>,
    entries: Seq<(i32, u64)>,
) -> Seq<u8> {
    range_header(INDEX_HYBRID, min_val, max_val) + bitmap + u32_bytes(
        (entries.len() % 0x1_0000_0000) as u32,
    ) + table_bytes(entries)
}

/// Whether `index` holds the bitmap of the keys of a map.
pub open spec fn is_bitmap_index(
    m: Map<i32, u64>,
    min_val: i32,
    max_val: i32,
    index: Seq<u8>,
) -> bool {
    exists|bitmap: Seq<u8>| #[trigger]
        is_bitmap(bitmap, min_val, max_val, m.dom()) && index == range_header(
            INDEX_BITMAP,
            min_val,
            max_val,
        ) + bitmap
}

/// Whether `index` holds the bitmap of the keys of a map and the table of its entries.
pub open spec fn is_hybrid_index(
    m: Map<i32, u64>,
    min_val: i32,
    max_val: i32,
    index: Seq<u8>,
) -> bool {
    exists|bitmap: Seq<u8>, entries: Seq<(i32, u64)>|
        #![trigger hybrid_index(min_val, max_val, bitmap, entries)]
        lists(entries, m) && ascending(entries) && is_bitmap(bitmap, min_val, max_val, m.dom())
            && index == hybrid_index(min_val, max_val, bitmap, entries)
}

/// Whether `index` is the index of `data`.
pub open spec fn is_index(parameter: Parameter, data: Seq<i32>, index: Seq<u8>) -> bool {
    let lo = lowest(data);
    let hi = highest(data);
    match layout_of(parameter, data) {
        Layout::MinMax => index == range_header(INDEX_MINMAX, lo, hi),
        Layout::HashMap => exists|entries: Seq<(i32, u64)>| #[trigger]
            is_tally(entries, data) && ascending(entries) && index == counted_table(
                INDEX_HASHMAP,
                entries,
            ),
        Layout::Bitmap => exists|bitmap: Seq<u8>| #[trigger]
            is_bitmap(bitmap, lo, hi, data.to_set()) && index == range_header(INDEX_BITMAP, lo, hi)
                + bitmap,
        Layout::Hybrid => exists|bitmap: Seq<u8>, entries: Seq<(i32, u64)>|
            #![trigger hybrid_index(lo, hi, bitmap, entries)]
            is_tally(entries, data) && ascending(entries) && is_bitmap(
                bitmap,
                lo,
                hi,
                data.to_set(),
            ) && index == hybrid_index(lo, hi, bitmap, entries),
    }
}

/// The answer of a bitmap alone: a value whose bit is not set does not occur.
pub open spec fn bitmap_answer(index: Seq<u8>, query: i32) -> Option<u64> {
    if index.len() < 9 {
        None
    } else if out_of_range(index, query) {
        Some(0)
    } else {
        let p = query - i32_at(index, 1);
        if 9 + p / 8 >= index.len() || bit_at(index, 9, p) {
            None
        } else {
            Some(0)
        }
    }
}

/// The answer of a bitmap with a table behind it.
pub open spec fn hybrid_answer(index: Seq<u8>, query: i32) -> Option<u64> {
    if index.len() < 9 {
        None
    } else if out_of_range(index, query) {
        Some(0)
    } else {
        let min_val = i32_at(index, 1);
        let table = 9 + bytes_for(span(min_val, i32_at(index, 5)));
        if !bit_at(index, 9, query - min_val) {
            Some(0)
        } else if table + 4 > index.len() {
            None
        } else {
            partial_answer(bisect(index, table + 4, 0, u32_at(index, table) as int, query))
        }
    }
}

/// Whether an index with a bitmap and a table is long enough to hold the bit of
/// `query`.
pub open spec fn bit_present(index: Seq<u8>, query: i32) -> bool {
    index.len() >= 9 && index[0] == INDEX_HYBRID && !out_of_range(index, query) ==> 9 + (query
        - i32_at(index, 1)) / 8 < index.len()
}

/// The answer that the bytes of an index give.
pub open spec fn answer(index: Seq<u8>, query: i32) -> Option<u64> {
    if index.len() == 0 {
        None
    } else if index[0] == INDEX_MINMAX {
        minmax_answer(index, query)
    } else if index[0] == INDEX_HASHMAP {
        sorted_table_answer(index, query)
    } else if index[0] == INDEX_BITMAP {
        bitmap_answer(index, query)
    } else if index[0] == INDEX_HYBRID {
        hybrid_answer(index, query)
    } else {
        None
    }
}

/// A bitmap answers zero to every value that is no key of its map, and nothing to a key.
/// Every query meets what [`query_idx`] asks.
pub proof fn bitmap_answers(
    m: Map<i32, u64>,
    min_val: i32,
    max_val: i32,
    index: Seq<u8>,
    query: i32,
)
    requires
        min_val <= max_val,
        keys_in_range(m, min_val, max_val),
        is_bitmap_index(m, min_val, max_val, index),
    ensures
        bit_present(index, query),
        answer(index, query) == if m.contains_key(query) {
            None
        } else {
            Some(0u64)
        },
{
    let bitmap = choose|bitmap: Seq<u8>| #[trigger]
        is_bitmap(bitmap, min_val, max_val, m.dom()) && index == range_header(
            INDEX_BITMAP,
            min_val,
            max_val,
        ) + bitmap;
    lemma_holds_whole(index);
    lemma_holds_split(index, 0, range_header(INDEX_BITMAP, min_val, max_val), bitmap);
    lemma_range_header(index, INDEX_BITMAP, min_val, max_val);
    if query < min_val || query > max_val {
    } else {
        let p = query - min_val;
        lemma_bits_held(index, 9, bitmap, p);
        assert((min_val + p) as i32 == query);
    }
}

proof fn lemma_hybrid_layout(
    index: Seq<u8>,
    min_val: i32,
    max_val: i32,
    bitmap: Seq<u8>,
    entries: Seq<(i32, u64)>,
)
    requires
        entries.len() < 0x1_0000_0000,
        index == hybrid_index(min_val, max_val, bitmap, entries),
    ensures
        index.len() == 13 + bitmap.len() + 12 * entries.len(),
        index[0] == INDEX_HYBRID,
        i32_at(index, 1) == min_val,
        i32_at(index, 5) == max_val,
        holds(index, 9, bitmap),
        u32_at(index, 9 + bitmap.len() as int) == entries.len(),
        holds(index, 13 + bitmap.len() as int, table_bytes(entries)),
{
    let header = range_header(INDEX_HYBRID, min_val, max_val);
    let n = (entries.len() % 0x1_0000_0000) as u32;
    lemma_table_len(entries);
    lemma_holds_whole(index);
    lemma_holds_split(index, 0, header + bitmap + u32_bytes(n), table_bytes(entries));
    lemma_holds_split(index, 0, header + bitmap, u32_bytes(n));
    lemma_holds_split(index, 0, header, bitmap);
    lemma_range_header(index, INDEX_HYBRID, min_val, max_val);
    u32_round_trip(index, 9 + bitmap.len() as int, n);
}

proof fn lemma_hybrid_parts(
    m: Map<i32, u64>,
    min_val: i32,
    max_val: i32,
    index: Seq<u8>,
    bitmap: Seq<u8>,
    entries: Seq<(i32, u64)>,
    query: i32,
)
    requires
        min_val <= max_val,
        keys_in_range(m, min_val, max_val),
        lists(entries, m),
        ascending(entries),
        is_bitmap(bitmap, min_val, max_val, m.dom()),
        index.len() >= 13 + bitmap.len(),
        i32_at(index, 1) == min_val,
        i32_at(index, 5) == max_val,
        holds(index, 9, bitmap),
        u32_at(index, 9 + bitmap.len() as int) == entries.len(),
        holds(index, 13 + bitmap.len() as int, table_bytes(entries)),
    ensures
        bit_present(index, query),
        hybrid_answer(index, query) == Some(count_in(m, query)),
{
    lemma_map_answer(entries, m, query);
    if query < min_val || query > max_val {
    } else {
        let p = query - min_val;
        lemma_bits_held(index, 9, bitmap, p);
        assert((min_val + p) as i32 == query);
        bisect_finds(index, 13 + bitmap.len() as int, entries, 0, entries.len() as int, query);
    }
}

/// A bitmap with a table answers every query with the count of its map, zero where it has
/// none, and every query meets what [`query_idx`] asks.
pub proof fn hybrid_answers(
    m: Map<i32, u64>,
    min_val: i32,
    max_val: i32,
    index: Seq<u8>,
    query: i32,
)
    requires
        min_val <= max_val,
        keys_in_range(m, min_val, max_val),
        m.len() <= u32::MAX,
        is_hybrid_index(m, min_val, max_val, index),
    ensures
        bit_present(index, query),
        answer(index, query) == Some(count_in(m, query)),
{
    let (bitmap, entries) = choose|bitmap: Seq<u8>, entries: Seq<(i32, u64)>|
        #![trigger hybrid_index(min_val, max_val, bitmap, entries)]
        lists(entries, m) && ascending(entries) && is_bitmap(bitmap, min_val, max_val, m.dom())
            && index == hybrid_index(min_val, max_val, bitmap, entries);
    lemma_lists_len(entries, m);
    lemma_hybrid_layout(index, min_val, max_val, bitmap, entries);
    lemma_hybrid_parts(m, min_val, max_val, index, bitmap, entries, query);
}

/// An answer is the number of occurrences. Only a range leaves queries of
/// values that do not occur open, namely those inside it, and only a range and
/// a bitmap leave open those of values that do. Every query meets what
/// [`query_idx`] asks.
pub proof fn answers_are_counts(parameter: Parameter, data: Seq<i32>, index: Seq<u8>, query: i32)
    requires
        data.len() > 0,
        is_index(parameter, data, index),
    ensures
        bit_present(index, query),
        answer(index, query) matches Some(count) ==> count == occurrences(data, query),
        answer(index, query) is Some <==> match layout_of(parameter, data) {
            Layout::MinMax => query < lowest(data) || query > highest(data),
            Layout::Bitmap => !data.contains(query),
            _ => true,
        },
{
    let lo = lowest(data);
    let hi = highest(data);
    lemma_occurs(data, query);
    distinct_fits_range(data);
    match layout_of(parameter, data) {
        Layout::MinMax => {
            minmax_answers(index, INDEX_MINMAX, data, query);
        },
        Layout::HashMap => {
            let entries = choose|entries: Seq<(i32, u64)>| #[trigger]
                is_tally(entries, data) && ascending(entries) && index == counted_table(
                    INDEX_HASHMAP,
                    entries,
                );
            tally_has_distinct_entries(entries, data);
            sorted_table_answers(index, INDEX_HASHMAP, entries, data, query);
        },
        Layout::Bitmap => {
            let bitmap = choose|bitmap: Seq<u8>| #[trigger]
                is_bitmap(bitmap, lo, hi, data.to_set()) && index == range_header(
                    INDEX_BITMAP,
                    lo,
                    hi,
                ) + bitmap;
            let m = histogram(data);
            assert(m.dom() =~= data.to_set());
            assert(is_bitmap(bitmap, lo, hi, m.dom()));
            range_covers(data);
            bitmap_answers(m, lo, hi, index, query);
        },
        Layout::Hybrid => {
            let (bitmap, entries) = choose|bitmap: Seq<u8>, entries: Seq<(i32, u64)>|
                #![trigger hybrid_index(lo, hi, bitmap, entries)]
                is_tally(entries, data) && ascending(entries) && is_bitmap(
                    bitmap,
                    lo,
                    hi,
                    data.to_set(),
                ) && index == hybrid_index(lo, hi, bitmap, entries);
            let m = histogram(data);
            tally_has_distinct_entries(entries, data);
            lemma_tally_lists(entries, data);
            lemma_lists_len(entries, m);
            assert(m.dom() =~= data.to_set());
            assert(is_bitmap(bitmap, lo, hi, m.dom()));
            assert(is_hybrid_index(m, lo, hi, index));
            range_covers(data);
            hybrid_answers(m, lo, hi, index, query);
            assert(count_in(m, query) == occurrences(data, query));
        },
    }
}

/// A block has one index.
pub proof fn index_is_unique(parameter: Parameter, data: Seq<i32>, a: Seq<u8>, b: Seq<u8>)
    requires
        is_index(parameter, data, a),
        is_index(parameter, data, b),
    ensures
        a == b,
{
    let lo = lowest(data);
    let hi = highest(data);
    match layout_of(parameter, data) {
        Layout::MinMax => {},
        Layout::HashMap => {
            let x = choose|entries: Seq<(i32, u64)>| #[trigger]
                is_tally(entries, data) && ascending(entries) && a == counted_table(
                    INDEX_HASHMAP,
                    entries,
                );
            let y = choose|entries: Seq<(i32, u64)>| #[trigger]
                is_tally(entries, data) && ascending(entries) && b == counted_table(
                    INDEX_HASHMAP,
                    entries,
                );
            ascending_tally_is_unique(x, y, data);
        },
        Layout::Bitmap => {
            let x = choose|bitmap: Seq<u8>| #[trigger]
                is_bitmap(bitmap, lo, hi, data.to_set()) && a == range_header(INDEX_BITMAP, lo, hi)
                    + bitmap;
            let y = choose|bitmap: Seq<u8>| #[trigger]
                is_bitmap(bitmap, lo, hi, data.to_set()) && b == range_header(INDEX_BITMAP, lo, hi)
                    + bitmap;
            bitmap_is_unique(x, y, lo, hi, data.to_set());
        },
        Layout::Hybrid => {
            let (x, s) = choose|bitmap: Seq<u8>, entries: Seq<(i32, u64)>|
                #![trigger hybrid_index(lo, hi, bitmap, entries)]
                is_tally(entries, data) && ascending(entries) && is_bitmap(
                    bitmap,
                    lo,
                    hi,
                    data.to_set(),
                ) && a == hybrid_index(lo, hi, bitmap, entries);
            let (y, t) = choose|bitmap: Seq<u8>, entries: Seq<(i32, u64)>|
                #![trigger hybrid_index(lo, hi, bitmap, entries)]
                is_tally(entries, data) && ascending(entries) && is_bitmap(
                    bitmap,
                    lo,
                    hi,
                    data.to_set(),
                ) && b == hybrid_index(lo, hi, bitmap, entries);
            ascending_tally_is_unique(s, t, data);
            bitmap_is_unique(x, y, lo, hi, data.to_set());
        },
    }
}

/// Picks the layout.
fn choose_layout(parameter: &Parameter, unique_count: usize, range: u64) -> (kind: Layout)
    requires
        unique_count <= range <= 0x1_0000_0000,
    ensures
        kind == layout(*parameter, unique_count as nat, range as nat),
{
    let ratio = parameter.ratio();
    let unique: u64 = unique_count as u64;
    let table = Double::decimal(5 + 12 * unique, 1024);
    let bitmap = Double::decimal(72 + range, 8192);
    let hybrid = Double::decimal(72 + range + 96 * unique, 8192);
    proof {
        Double::lemma_decimal_within(6, 10);
        Double::lemma_decimal_within(13, 10);
        Double::lemma_decimal_within(7, 10);
        Double::lemma_decimal_within(2, 1);
        Double::lemma_mul_within(table, Double::spec_decimal(6, 10), 157, 157);
        Double::lemma_mul_within(table, Double::spec_decimal(13, 10), 157, 157);
        Double::lemma_mul_within(table, Double::spec_decimal(7, 10), 157, 157);
        Double::lemma_mul_within(table, Double::spec_decimal(2, 1), 157, 157);
    }
    if unique <= 100 {
        return Layout::HashMap;
    }
    if unique <= 500 && ratio.above(4, 10) {
        return Layout::HashMap;
    }
    if unique <= 1000 && ratio.gt(table.mul(Double::decimal(6, 10))) {
        return Layout::HashMap;
    }
    if range < 100000 && unique > 500 && ratio.above(2, 1) {
        if hybrid.below(25, 1) && hybrid.lt(table.mul(Double::decimal(13, 10))) {
            return Layout::Hybrid;
        }
    }
    if range < 150000 && bitmap.below(20, 1) && ratio.above(6, 10) {
        if bitmap.lt(table.mul(Double::decimal(7, 10))) || (range < 50000 && ratio.above(1, 1)) {
            return Layout::Bitmap;
        }
    }
    if unique <= 2000 && ratio.gt(table) {
        return Layout::HashMap;
    }
    if unique <= 5000 && ratio.gt(table.mul(Double::decimal(2, 1))) {
        return Layout::HashMap;
    }
    Layout::MinMax
}

/// The bitmap of the keys of a map.
pub fn build_bitmap_index(
    min_val: i32,
    max_val: i32,
    counts: &HashMap<i32, u64>,
) -> (index: Box<[u8]>)
    requires
        min_val <= max_val,
        span(min_val, max_val) + 7 <= usize::MAX,
        keys_in_range(counts@, min_val, max_val),
    ensures
        is_bitmap_index(counts@, min_val, max_val, index@),
{
    let mut result: Vec<u8> = Vec::new();
    push_range_header(&mut result, INDEX_BITMAP, min_val, max_val);
    let bitmap = bitmap_of(min_val, max_val, counts);
    push_all(&mut result, bitmap.as_slice());
    assert(result@ =~= range_header(INDEX_BITMAP, min_val, max_val) + bitmap@);
    into_boxed_slice(result)
}

/// The bitmap of the keys of a map and the table of its entries.
pub fn build_hybrid_index(
    min_val: i32,
    max_val: i32,
    counts: &HashMap<i32, u64>,
) -> (index: Box<[u8]>)
    requires
        min_val <= max_val,
        span(min_val, max_val) + 7 <= usize::MAX,
        keys_in_range(counts@, min_val, max_val),
    ensures
        is_hybrid_index(counts@, min_val, max_val, index@),
{
    let mut result: Vec<u8> = Vec::new();
    push_range_header(&mut result, INDEX_HYBRID, min_val, max_val);
    let bitmap = bitmap_of(min_val, max_val, counts);
    push_all(&mut result, bitmap.as_slice());
    let entries = ascending_entries(counts);
    push_u32(&mut result, (entries.len() as u64 % 0x1_0000_0000) as u32);
    push_table(&mut result, &entries);
    assert(result@ =~= hybrid_index(min_val, max_val, bitmap@, entries@));
    into_boxed_slice(result)
}

proof fn lemma_table_rule(data: Seq<i32>, index: Seq<u8>, query: i32)
    requires
        data.len() > 0,
        exists|entries: Seq<(i32, u64)>| #[trigger]
            is_tally(entries, data) && ascending(entries) && index == counted_table(
                INDEX_HASHMAP,
                entries,
            ),
        distinct(data) < 0x1_0000_0000,
    ensures
        answer(index, query) == Some(occurrences(data, query) as u64),
        index.len() == 5 + 12 * distinct(data),
{
    let entries = choose|entries: Seq<(i32, u64)>| #[trigger]
        is_tally(entries, data) && ascending(entries) && index == counted_table(
            INDEX_HASHMAP,
            entries,
        );
    tally_has_distinct_entries(entries, data);
    lemma_table_len(entries);
    sorted_table_answers(index, INDEX_HASHMAP, entries, data, query);
}

proof fn lemma_bitmap_rule(data: Seq<i32>, index: Seq<u8>, query: i32)
    requires
        data.len() > 0,
        exists|bitmap: Seq<u8>| #[trigger]
            is_bitmap(bitmap, lowest(data), highest(data), data.to_set()) && index == range_header(
                INDEX_BITMAP,
                lowest(data),
                highest(data),
            ) + bitmap,
    ensures
        answer(index, query) == if data.contains(query) {
            None
        } else {
            Some(0u64)
        },
        index.len() == 9 + (highest(data) - lowest(data) + 8) / 8,
{
    let lo = lowest(data);
    let hi = highest(data);
    let bitmap = choose|bitmap: Seq<u8>| #[trigger]
        is_bitmap(bitmap, lo, hi, data.to_set()) && index == range_header(INDEX_BITMAP, lo, hi)
            + bitmap;
    let m = histogram(data);
    assert(m.dom() =~= data.to_set());
    assert(is_bitmap(bitmap, lo, hi, m.dom()));
    range_covers(data);
    bitmap_answers(m, lo, hi, index, query);
}

proof fn lemma_hybrid_rule(data: Seq<i32>, index: Seq<u8>, query: i32)
    requires
        data.len() > 0,
        distinct(data) < 0x1_0000_0000,
        exists|bitmap: Seq<u8>, entries: Seq<(i32, u64)>|
            #![trigger hybrid_index(lowest(data), highest(data), bitmap, entries)]
            is_tally(entries, data) && ascending(entries) && is_bitmap(
                bitmap,
                lowest(data),
                highest(data),
                data.to_set(),
            ) && index == hybrid_index(lowest(data), highest(data), bitmap, entries),
    ensures
        answer(index, query) == Some(occurrences(data, query) as u64),
        index.len() == 13 + (highest(data) - lowest(data) + 8) / 8 + 12 * distinct(data),
{
    let lo = lowest(data);
    let hi = highest(data);
    let m = histogram(data);
    let (bitmap, entries) = choose|bitmap: Seq<u8>, entries: Seq<(i32, u64)>|
        #![trigger hybrid_index(lo, hi, bitmap, entries)]
        is_tally(entries, data) && ascending(entries) && is_bitmap(bitmap, lo, hi, data.to_set())
            && index == hybrid_index(lo, hi, bitmap, entries);
    tally_has_distinct_entries(entries, data);
    lemma_tally_lists(entries, data);
    lemma_table_len(entries);
    lemma_lists_len(entries, m);
    assert(m.dom() =~= data.to_set());
    assert(is_hybrid_index(m, lo, hi, index));
    range_covers(data);
    hybrid_answers(m, lo, hi, index, query);
    assert(count_in(m, query) == occurrences(data, query));
}

/// What the strategy is for. The kilobytes of a table are `5 + 12 d` bytes for `d` different
/// values, those of a bitmap nine bytes and a bit for each place, and those of both nine
/// bytes, the bits and twelve bytes for each value.
/// - `small`: a table for up to 100 values, up to 500 for a ratio above 0.4, and up to 1000
///   where the ratio is more than 0.6 of its kilobytes.
/// - `both`: otherwise a bitmap with a table, for more than 500 values in fewer than 100000
///   places, a ratio above 2, and fewer than 25 kilobytes, less than 1.3 times the table.
/// - `bits`: otherwise a bitmap in fewer than 150000 places, of fewer than 20 kilobytes, for a
///   ratio above 0.6, where it takes less than 0.7 of the table, or where there are fewer than
///   50000 places and the ratio is above 1.
/// - `large`: otherwise a table for up to 2000 values where the ratio is more than its
///   kilobytes, and for up to 5000 where it is more than twice these.
/// - Otherwise the range alone.
pub proof fn cost_rule(
    parameter: Parameter,
    data: Seq<i32>,
    index: Seq<u8>,
    query: i32,
    d: nat,
    places: nat,
    small: bool,
    both: bool,
    bits: bool,
    large: bool,
)
    requires
        data.len() > 0,
        is_index(parameter, data, index),
        d == distinct(data),
        places == highest(data) - lowest(data) + 1,
        small <==> d <= 100 || (d <= 500 && parameter.spec_ratio().spec_above(4, 10)) || (d <= 1000
            && parameter.spec_ratio().spec_gt(
            Double::spec_decimal(5 + 12 * d, 1024).spec_mul(Double::spec_decimal(6, 10)),
        )),
        both <==> !small && places < 100000 && d > 500 && parameter.spec_ratio().spec_above(2, 1)
            && Double::spec_decimal(72 + places + 96 * d, 8192).spec_below(25, 1)
            && Double::spec_decimal(72 + places + 96 * d, 8192).spec_lt(
            Double::spec_decimal(5 + 12 * d, 1024).spec_mul(Double::spec_decimal(13, 10)),
        ),
        bits <==> !small && !both && places < 150000 && Double::spec_decimal(
            72 + places,
            8192,
        ).spec_below(20, 1) && parameter.spec_ratio().spec_above(6, 10) && (Double::spec_decimal(
            72 + places,
            8192,
        ).spec_lt(Double::spec_decimal(5 + 12 * d, 1024).spec_mul(Double::spec_decimal(7, 10)))
            || (places < 50000 && parameter.spec_ratio().spec_above(1, 1))),
        large <==> !small && !both && !bits && ((d <= 2000 && parameter.spec_ratio().spec_gt(
            Double::spec_decimal(5 + 12 * d, 1024),
        )) || (d <= 5000 && parameter.spec_ratio().spec_gt(
            Double::spec_decimal(5 + 12 * d, 1024).spec_mul(Double::spec_decimal(2, 1)),
        ))),
    ensures
        small || large ==> answer(index, query) == Some(occurrences(data, query) as u64)
            && index.len() == 5 + 12 * d,
        both ==> answer(index, query) == Some(occurrences(data, query) as u64) && index.len() == 13
            + (places + 7) / 8 + 12 * d,
        bits ==> answer(index, query) == (if data.contains(query) {
            None
        } else {
            Some(0u64)
        }) && index.len() == 9 + (places + 7) / 8,
        !small && !both && !bits && !large ==> index.len() == 9 && (answer(index, query) is Some
            <==> (forall|v: i32| #[trigger] data.contains(v) ==> v < query) || (forall|v: i32|
            #[trigger]
            data.contains(v) ==> query < v)),
{
    distinct_fits_range(data);
    assert(span(lowest(data), highest(data)) as nat == places);
    match layout_of(parameter, data) {
        Layout::HashMap => {
            assert(small || large);
            lemma_table_rule(data, index, query);
        },
        Layout::Hybrid => {
            assert(both);
            lemma_hybrid_rule(data, index, query);
        },
        Layout::Bitmap => {
            assert(bits);
            lemma_bitmap_rule(data, index, query);
        },
        Layout::MinMax => {
            assert(!small && !both && !bits && !large);
            range_alone(index, INDEX_MINMAX, data, query);
        },
    }
}

/// For factors of moderate size, the ratio is more than a fraction `n / m` of the kilobytes
/// of a table just when the factors say so, but for rounding.
pub proof fn table_pays(parameter: Parameter, d: nat, n: nat, m: nat)
    requires
        parameter.factor_size > 0,
        parameter.factor_skip >= 0,
        d <= 5000,
        0 < n <= 20,
        0 < m <= 10,
    ensures
        (5 + 12 * d) * n * parameter.factor_size * 0x10_0000_0000_012c < parameter.factor_skip * (
        1024 * m) * 0x10_0000_0000_0000 ==> parameter.spec_ratio().spec_gt(
            Double::spec_decimal(5 + 12 * d, 1024).spec_mul(Double::spec_decimal(n, m)),
        ),
        parameter.factor_skip * (1024 * m) * 0x10_0000_0000_012c < (5 + 12 * d) * n
            * parameter.factor_size * 0x10_0000_0000_0000 ==> !parameter.spec_ratio().spec_gt(
            Double::spec_decimal(5 + 12 * d, 1024).spec_mul(Double::spec_decimal(n, m)),
        ),
{
    let size = parameter.factor_size as nat;
    let skip = parameter.factor_skip as nat;
    let ratio = parameter.spec_ratio();
    let table = Double::spec_decimal(5 + 12 * d, 1024);
    let part = Double::spec_decimal(n, m);
    near_decimal(skip, size);
    near_decimal(5 + 12 * d, 1024);
    near_decimal(n, m);
    near_mul(table, 5 + 12 * d, 1024, 4, part, n, m, 4);
    Double::lemma_mul_within(table, part, 157, 157);
    let price = table.spec_mul(part);
    lt_is_the_order(price, ratio);
    lt_is_the_order(ratio, price);
    let a = (5 + 12 * d) * n;
    if a * size * 0x10_0000_0000_012c < skip * (1024 * m) * 0x10_0000_0000_0000 {
        near_order_apart(ratio, skip, size, 4, price, a, 1024 * m, 10);
    }
    if skip * (1024 * m) * 0x10_0000_0000_012c < a * size * 0x10_0000_0000_0000 {
        near_order_apart(price, a, 1024 * m, 10, ratio, skip, size, 4);
    }
}

/// Bytes that are no index, or stop short of its header, tell nothing. A range tells of the
/// values outside it that they do not occur.
pub proof fn damaged_indexes_tell_nothing(index: Seq<u8>, query: i32)
    ensures
        index.len() == 0 ==> answer(index, query) is None,
        index.len() > 0 && index[0] != 1 && index[0] != 2 && index[0] != 3 && index[0] != 4
            ==> answer(index, query) is None,
        index.len() > 0 && index[0] == 1 ==> (answer(index, query) is Some <==> index.len() >= 9
            && (
        query < i32_at(index, 1) || query > i32_at(index, 5))),
        0 < index.len() < 5 && index[0] == 2 ==> answer(index, query) is None,
        0 < index.len() < 9 && index[0] == 3 ==> answer(index, query) is None,
        0 < index.len() < 9 && index[0] == 4 ==> answer(index, query) is None,
        index.len() >= 9 && index[0] == 3 && (query < i32_at(index, 1) || query > i32_at(
            index,
            5,
        )) ==> answer(index, query) == Some(0u64),
        index.len() >= 9 && index[0] == 4 && (query < i32_at(index, 1) || query > i32_at(
            index,
            5,
        )) ==> answer(index, query) == Some(0u64),
{
}

/// Builds the index of a block.
pub fn build_idx(parameter: &Parameter, data: &[i32]) -> (index: Box<[u8]>)
    requires
        data@.len() > 0,
    ensures
        is_index(*parameter, data@, index@),
{
    let counts = count_values(data);
    let unique_count = counts.len();
    let min_val = min_value(data);
    let max_val = max_value(data);
    let range: u64 = (max_val as i64 - min_val as i64 + 1) as u64;
    proof {
        range_covers(data@);
        distinct_fits_range(data@);
        assert(counts@.dom() =~= data@.to_set());
    }
    match choose_layout(parameter, unique_count, range) {
        Layout::MinMax => range_index(INDEX_MINMAX, min_val, max_val),
        Layout::HashMap => {
            let index = build_hashmap_index(INDEX_HASHMAP, &counts);
            proof {
                let entries = choose|entries: Seq<(i32, u64)>| #[trigger]
                    lists(entries, counts@) && ascending(entries) && index@ == counted_table(
                        INDEX_HASHMAP,
                        entries,
                    );
                lemma_lists_tally(entries, counts@, data@);
            }
            index
        },
        Layout::Bitmap => build_bitmap_index(min_val, max_val, &counts),
        Layout::Hybrid => {
            let index = build_hybrid_index(min_val, max_val, &counts);
            proof {
                let (bitmap, entries) = choose|bitmap: Seq<u8>, entries: Seq<(i32, u64)>|
                    #![trigger hybrid_index(min_val, max_val, bitmap, entries)]
                    lists(entries, counts@) && ascending(entries) && is_bitmap(
                        bitmap,
                        min_val,
                        max_val,
                        counts@.dom(),
                    ) && index@ == hybrid_index(min_val, max_val, bitmap, entries);
                lemma_lists_tally(entries, counts@, data@);
            }
            index
        },
    }
}

fn query_bitmap_index(index: &[u8], query: &i32) -> (r: Option<u64>)
    ensures
        r == bitmap_answer(index@, *query),
{
    if index.len() < 9 {
        return None;
    }
    let min_val = read_i32(index, 1);
    let max_val = read_i32(index, 5);
    if *query < min_val || *query > max_val {
        return Some(0);
    }
    let offset: u64 = (*query as i64 - min_val as i64) as u64;
    if offset / 8 >= (index.len() - 9) as u64 {
        return None;
    }
    if read_bit(index, 9, offset as usize) {
        None
    } else {
        Some(0)
    }
}

fn query_hybrid_index(index: &[u8], query: &i32) -> (r: Option<u64>)
    requires
        index@.len() > 0,
        index@[0] == INDEX_HYBRID,
        bit_present(index@, *query),
    ensures
        r == hybrid_answer(index@, *query),
{
    if index.len() < 9 {
        return None;
    }
    let min_val = read_i32(index, 1);
    let max_val = read_i32(index, 5);
    if *query < min_val || *query > max_val {
        return Some(0);
    }
    let range: u64 = (max_val as i64 - min_val as i64 + 1) as u64;
    let bitmap_bytes: u64 = (range + 7) / 8;
    let offset: u64 = (*query as i64 - min_val as i64) as u64;
    if !read_bit(index, 9, offset as usize) {
        return Some(0);
    }
    if ((index.len() - 9) as u64) < bitmap_bytes + 4 {
        return None;
    }
    let table_start: usize = 9 + bitmap_bytes as usize;
    let count = read_u32(index, table_start);
    partial(bisect_entries(index, table_start + 4, count, *query))
}

/// Answers a query from the bytes of an index, where they tell.
pub fn query_idx(_parameter: &Parameter, index: &[u8], query: &i32) -> (r: Option<u64>)
    requires
        bit_present(index@, *query),
    ensures
        r == answer(index@, *query),
{
    if index.is_empty() {
        return None;
    }
    match index[0] {
        INDEX_MINMAX => query_minmax_index(index, query),
        INDEX_HASHMAP => query_hashmap_index(index, query),
        INDEX_BITMAP => query_bitmap_index(index, query),
        INDEX_HYBRID => query_hybrid_index(index, query),
        _ => None,
    }
}

} // verus!
