//! Indexes of a range and a list of differences: complete, or of the most frequent
//! values with a Bloom filter of the others.
use std::collections::HashMap;
use vstd::prelude::*;

use crate::bloom::{
    bloom_answer, bloom_has_no_false_negatives, bloom_round_trip, build_bloom, is_bloom,
    query_bloom,
};
use crate::bytes::{
    holds, into_boxed_slice, lemma_byte_held, lemma_holds_split, lemma_holds_whole, push_all,
    push_u32, read_i32, read_u32, u32_at, u32_bytes, u32_round_trip,
};
use crate::deltas::{delta_bytes, delta_scan, delta_scan_finds, push_deltas, scan_deltas};
use crate::hashing::Murmur;
use crate::minmax::{
    lemma_outside_absent, lemma_range_header, out_of_range, push_range_header, range_header,
};
use crate::sizing::{clamped, optimal_probes, probes, probes_follow_the_load};
use crate::table::{complete_answer, entry_for, lemma_entry_counted, lemma_map_answer, Lookup};
use crate::tally::{
    ascending, ascending_entries, count_in, counted, distinct, first_entries, has_key, highest,
    histogram, is_tally, is_top, keys_differ, keys_in_range, lemma_occurs, lemma_prefix_is_top,
    lemma_tally_lists, lemma_top_rearranged, lists, lowest, most_frequent_first, occurrences,
    range_covers, sort_by_key, tally_has_distinct_entries,
};
use crate::topk::topk_says;

verus! {

/// The tag, the range, the number of entries and the list.
pub open spec fn compressed_index(
    tag: u8,
    min_val: i32,
    max_val: i32,
    entries: Seq<(i32, u64)>,
) -> Seq<u8> {
    range_header(tag, min_val, max_val) + u32_bytes((entries.len() % 0x1_0000_0000) as u32)
        + delta_bytes(entries)
}

/// The tag, the range, the number of probes, the number of entries, the list and
/// the filter.
pub open spec fn hybrid_index(
    tag: u8,
    min_val: i32,
    max_val: i32,
    hashes: u8,
    top: Seq<(i32, u64)>,
    bloom: Seq<u8>,
) -> Seq<u8> {
    range_header(tag, min_val, max_val) + seq![hashes] + u32_bytes(
        (top.len() % 0x1_0000_0000) as u32,
    ) + delta_bytes(top) + bloom
}

/// The number of probes into a filter of so many bytes for so many values, rounded
/// to the nearest integer from `lo` to `hi`.
pub open spec fn rounded_probes(bloom_size: nat, count: nat, lo: nat, hi: nat) -> nat {
    clamped(optimal_probes(bloom_size, if count < 1 { 1 } else { count }).spec_round(), lo, hi)
}

/// Whether `index` holds the range, lists `top`, the `k` most frequent values, and
/// filters the others.
pub open spec fn is_hybrid_index(
    tag: u8,
    data: Seq<i32>,
    min_val: i32,
    max_val: i32,
    k: nat,
    hashes: nat,
    top: Seq<(i32, u64)>,
    bloom: Seq<u8>,
    index: Seq<u8>,
) -> bool {
    &&& is_top(top, k, data)
    &&& ascending(top)
    &&& is_bloom::<Murmur>(bloom, data, top, hashes as u32)
    &&& index == hybrid_index(tag, min_val, max_val, hashes as u8, top, bloom)
}

/// The number of values that a list of `k` leaves out.
pub open spec fn left_out(data: Seq<i32>, k: nat) -> nat {
    if k < distinct(data) {
        (distinct(data) - k) as nat
    } else {
        0
    }
}

/// The answer of a complete list.
pub open spec fn compressed_answer(index: Seq<u8>, query: i32) -> Option<u64> {
    if index.len() < 13 {
        None
    } else if out_of_range(index, query) {
        Some(0)
    } else {
        complete_answer(delta_scan(index, 13, 0, u32_at(index, 9) as nat, query).0)
    }
}

/// The answer of a list with a filter behind it.
pub open spec fn hybrid_answer(index: Seq<u8>, query: i32) -> Option<u64> {
    if index.len() < 14 {
        None
    } else if out_of_range(index, query) {
        Some(0)
    } else {
        let (found, end) = delta_scan(index, 14, 0, u32_at(index, 10) as nat, query);
        match found {
            Lookup::Truncated => None,
            Lookup::Found(count) => Some(count),
            Lookup::Absent => bloom_answer::<Murmur>(index, end, query, index[9] as u32),
        }
    }
}

/// What an index says of `query` that holds the range of `data`, lists `top` and
/// keeps the other values in a filter of so many bits.
pub open spec fn hybrid_says(
    data: Seq<i32>,
    top: Seq<(i32, u64)>,
    hashes: u32,
    bits: nat,
    query: i32,
) -> Option<u64> {
    if query < lowest(data) || query > highest(data) {
        Some(0)
    } else {
        topk_says::<Murmur>(data, top, hashes, bits, query)
    }
}

proof fn lemma_compressed_layout(
    index: Seq<u8>,
    tag: u8,
    min_val: i32,
    max_val: i32,
    entries: Seq<(i32, u64)>,
)
    requires
        entries.len() < 0x1_0000_0000,
        index == compressed_index(tag, min_val, max_val, entries),
    ensures
        index.len() >= 13,
        holds(index, 0, range_header(tag, min_val, max_val)),
        u32_at(index, 9) == entries.len(),
        holds(index, 13, delta_bytes(entries)),
{
    let header = range_header(tag, min_val, max_val);
    let n = (entries.len() % 0x1_0000_0000) as u32;
    lemma_holds_whole(index);
    lemma_holds_split(index, 0, header + u32_bytes(n), delta_bytes(entries));
    lemma_holds_split(index, 0, header, u32_bytes(n));
    lemma_range_header(index, tag, min_val, max_val);
    u32_round_trip(index, 9, n);
}

proof fn lemma_compressed_parts(
    index: Seq<u8>,
    entries: Seq<(i32, u64)>,
    m: Map<i32, u64>,
    query: i32,
)
    requires
        lists(entries, m),
        index.len() >= 13,
        u32_at(index, 9) == entries.len(),
        holds(index, 13, delta_bytes(entries)),
        out_of_range(index, query) ==> !m.contains_key(query),
    ensures
        compressed_answer(index, query) == Some(count_in(m, query)),
{
    assert(entries.take(0) =~= Seq::empty());
    delta_scan_finds(index, 13, entries, 0, query);
    lemma_map_answer(entries, m, query);
}

/// The list of all keys of a map answers every query with the count, zero where there is
/// none.
pub proof fn compressed_map_answers(
    index: Seq<u8>,
    tag: u8,
    min_val: i32,
    max_val: i32,
    entries: Seq<(i32, u64)>,
    m: Map<i32, u64>,
    query: i32,
)
    requires
        keys_in_range(m, min_val, max_val),
        lists(entries, m),
        ascending(entries),
        entries.len() < 0x1_0000_0000,
        index == compressed_index(tag, min_val, max_val, entries),
    ensures
        index.len() > 0,
        index[0] == tag,
        compressed_answer(index, query) == Some(count_in(m, query)),
{
    lemma_compressed_layout(index, tag, min_val, max_val, entries);
    lemma_range_header(index, tag, min_val, max_val);
    lemma_compressed_parts(index, entries, m, query);
}

/// A complete list answers every query exactly.
pub proof fn compressed_answers(
    index: Seq<u8>,
    tag: u8,
    entries: Seq<(i32, u64)>,
    data: Seq<i32>,
    query: i32,
)
    requires
        data.len() > 0,
        is_tally(entries, data),
        ascending(entries),
        entries.len() < 0x1_0000_0000,
        index == compressed_index(tag, lowest(data), highest(data), entries),
    ensures
        index.len() > 0,
        index[0] == tag,
        compressed_answer(index, query) == Some(occurrences(data, query) as u64),
        occurrences(data, query) <= u64::MAX,
{
    let m = histogram(data);
    lemma_tally_lists(entries, data);
    range_covers(data);
    compressed_map_answers(index, tag, lowest(data), highest(data), entries, m, query);
    assert(count_in(m, query) == occurrences(data, query));
}

proof fn lemma_hybrid_layout(
    index: Seq<u8>,
    tag: u8,
    min_val: i32,
    max_val: i32,
    hashes: u8,
    top: Seq<(i32, u64)>,
    bloom: Seq<u8>,
)
    requires
        top.len() < 0x1_0000_0000,
        index == hybrid_index(tag, min_val, max_val, hashes, top, bloom),
    ensures
        index.len() == 14 + delta_bytes(top).len() + bloom.len(),
        holds(index, 0, range_header(tag, min_val, max_val)),
        index[9] == hashes,
        u32_at(index, 10) == top.len(),
        holds(index, 14, delta_bytes(top)),
        holds(index, 14 + delta_bytes(top).len() as int, bloom),
{
    let header = range_header(tag, min_val, max_val);
    let n = (top.len() % 0x1_0000_0000) as u32;
    let list = delta_bytes(top);
    lemma_holds_whole(index);
    lemma_holds_split(index, 0, header + seq![hashes] + u32_bytes(n) + list, bloom);
    lemma_holds_split(index, 0, header + seq![hashes] + u32_bytes(n), list);
    lemma_holds_split(index, 0, header + seq![hashes], u32_bytes(n));
    lemma_holds_split(index, 0, header, seq![hashes]);
    lemma_range_header(index, tag, min_val, max_val);
    lemma_byte_held(index, 9, hashes);
    u32_round_trip(index, 10, n);
}

/// A value gets 0.693 probes for each bit that the filter has for a value, to the nearest
/// integer, moved into the range.
pub proof fn probes_follow_the_bits(bloom_size: nat, count: nat, lo: nat, hi: nat)
    requires
        8 * bloom_size <= u64::MAX,
        count <= u64::MAX,
        lo <= hi,
    ensures
        lo <= rounded_probes(bloom_size, count, lo, hi) <= hi,
        ({
            let h = rounded_probes(bloom_size, count, lo, hi);
            let values: nat = if count < 1 {
                1
            } else {
                count
            };
            &&& h < hi ==> 8 * bloom_size * 6931 <= 5000 * (2 * h + 1) * values
            &&& h > lo ==> 5000 * (2 * h - 1) * values <= 8 * bloom_size * 6932
        }),
{
    let values: nat = if count < 1 {
        1
    } else {
        count
    };
    let h = rounded_probes(bloom_size, count, lo, hi);
    probes_follow_the_load(bloom_size, values);
    let round = optimal_probes(bloom_size, values).spec_round();
    if round < h {
        assert(5000 * (2 * round + 1) * values <= 5000 * (2 * h + 1) * values) by (nonlinear_arith)
            requires
                round <= h,
        ;
    }
    if h < round {
        assert(5000 * (2 * h - 1) * values <= 5000 * (2 * round - 1) * values) by (nonlinear_arith)
            requires
                h <= round,
        ;
    }
}

/// The parts of a list with a filter stand where they were written.
pub proof fn hybrid_parts(
    index: Seq<u8>,
    tag: u8,
    min_val: i32,
    max_val: i32,
    hashes: u8,
    top: Seq<(i32, u64)>,
    bloom: Seq<u8>,
)
    requires
        top.len() < 0x1_0000_0000,
        index == hybrid_index(tag, min_val, max_val, hashes, top, bloom),
    ensures
        index.len() == 14 + delta_bytes(top).len() + bloom.len(),
        index[9] == hashes,
{
    lemma_hybrid_layout(index, tag, min_val, max_val, hashes, top, bloom);
}

/// A list with a filter and a range tells of the values outside the range that they do not
/// occur, and of the others what the list with the filter tells.
pub proof fn ranges_tell_the_absent(
    data: Seq<i32>,
    top: Seq<(i32, u64)>,
    hashes: u32,
    bits: nat,
    query: i32,
)
    requires
        data.len() > 0,
    ensures
        (forall|v: i32| #[trigger] data.contains(v) ==> v < query) || (forall|v: i32| #[trigger]
            data.contains(v) ==> query < v) ==> hybrid_says(data, top, hashes, bits, query)
            == Some(0u64),
        (exists|v: i32| #[trigger] data.contains(v) && v <= query) && (exists|v: i32| #[trigger]
            data.contains(v) && query <= v) ==> hybrid_says(data, top, hashes, bits, query)
            == topk_says::<Murmur>(data, top, hashes, bits, query),
{
    range_covers(data);
}

/// The answers of a list with a filter are the counts of the block.
pub proof fn hybrid_answers(
    index: Seq<u8>,
    tag: u8,
    data: Seq<i32>,
    k: nat,
    hashes: nat,
    top: Seq<(i32, u64)>,
    bloom: Seq<u8>,
    query: i32,
)
    requires
        data.len() > 0,
        k < 0x1_0000_0000,
        hashes < 256,
        bloom.len() > 0,
        is_hybrid_index(tag, data, lowest(data), highest(data), k, hashes, top, bloom, index),
    ensures
        index.len() > 0,
        index[0] == tag,
        hybrid_answer(index, query) == hybrid_says(
            data,
            top,
            hashes as u32,
            8 * bloom.len(),
            query,
        ),
        hybrid_answer(index, query) matches Some(count) ==> count == occurrences(data, query),
{
    lemma_hybrid_layout(index, tag, lowest(data), highest(data), hashes as u8, top, bloom);
    lemma_range_header(index, tag, lowest(data), highest(data));
    lemma_occurs(data, query);
    if query < lowest(data) || query > highest(data) {
        lemma_outside_absent(data, query);
    } else {
        assert(index[9] as u32 == hashes as u32);
        lemma_listed_answers(index, data, hashes as u32, top, bloom, query);
    }
}

proof fn lemma_listed_answers(
    index: Seq<u8>,
    data: Seq<i32>,
    hashes: u32,
    top: Seq<(i32, u64)>,
    bloom: Seq<u8>,
    query: i32,
)
    requires
        counted(top, data),
        keys_differ(top),
        bloom.len() > 0,
        is_bloom::<Murmur>(bloom, data, top, hashes),
        index.len() == 14 + delta_bytes(top).len() + bloom.len(),
        index[9] as u32 == hashes,
        u32_at(index, 10) == top.len(),
        holds(index, 14, delta_bytes(top)),
        holds(index, 14 + delta_bytes(top).len() as int, bloom),
        !out_of_range(index, query),
    ensures
        hybrid_answer(index, query) == topk_says::<Murmur>(
            data,
            top,
            hashes,
            8 * bloom.len(),
            query,
        ),
        hybrid_answer(index, query) matches Some(count) ==> count == occurrences(data, query),
{
    let end = 14 + delta_bytes(top).len() as int;
    assert(top.take(0) =~= Seq::empty());
    delta_scan_finds(index, 14, top, 0, query);
    lemma_entry_counted(top, data, query);
    lemma_occurs(data, query);
    bloom_round_trip::<Murmur>(index, end, bloom, data, top, hashes, query);
    if data.contains(query) && !has_key(top, query) {
        bloom_has_no_false_negatives::<Murmur>(data, top, hashes, 8 * bloom.len(), query);
    }
    match entry_for(top, query) {
        Lookup::Found(count) => {
            assert(count == occurrences(data, query));
        },
        _ => {},
    }
}

/// The list of all values of a block.
pub fn build_exact_compressed(
    tag: u8,
    counts: &HashMap<i32, u64>,
    min_val: i32,
    max_val: i32,
) -> (index: Box<[u8]>)
    ensures
        exists|entries: Seq<(i32, u64)>| #[trigger]
            lists(entries, counts@) && ascending(entries) && index@ == compressed_index(
                tag,
                min_val,
                max_val,
                entries,
            ),
{
    let entries = ascending_entries(counts);
    let mut buffer: Vec<u8> = Vec::new();
    push_range_header(&mut buffer, tag, min_val, max_val);
    push_u32(&mut buffer, (entries.len() as u64 % 0x1_0000_0000) as u32);
    push_deltas(&mut buffer, &entries);
    assert(buffer@ =~= compressed_index(tag, min_val, max_val, entries@));
    into_boxed_slice(buffer)
}

/// The `k` most frequent entries of a tally, in ascending order of the values.
pub(crate) fn ascending_top(
    full: &Vec<(i32, u64)>,
    k: usize,
    Ghost(data): Ghost<Seq<i32>>,
) -> (top: Vec<(i32, u64)>)
    requires
        is_tally(full@, data),
        most_frequent_first(full@),
    ensures
        is_top(top@, k as nat, data),
        ascending(top@),
{
    let first = first_entries(full, k);
    proof {
        lemma_prefix_is_top(full@, k as nat, data);
    }
    let top = sort_by_key(first);
    proof {
        lemma_top_rearranged(first@, top@, k as nat, data);
    }
    top
}

/// Rounds the best number of probes.
fn hash_count(bloom_size: usize, count: usize, lo: u8, hi: u8) -> (hashes: u8)
    requires
        8 * bloom_size <= usize::MAX,
        lo <= hi,
    ensures
        hashes == rounded_probes(bloom_size as nat, count as nat, lo as nat, hi as nat),
        lo <= hashes <= hi,
{
    let n: usize = if count < 1 {
        1
    } else {
        count
    };
    let optimal = probes(bloom_size, n).round();
    if optimal < lo as u64 {
        lo
    } else if optimal > hi as u64 {
        hi
    } else {
        optimal as u8
    }
}

/// The most frequent values of a block and a filter of the others.
pub fn build_hybrid_index(
    tag: u8,
    data: &[i32],
    full: &Vec<(i32, u64)>,
    top_k: usize,
    bloom_size: usize,
    min_hashes: u8,
    max_hashes: u8,
    min_val: i32,
    max_val: i32,
) -> (index: Box<[u8]>)
    requires
        is_tally(full@, data@),
        most_frequent_first(full@),
        0 < bloom_size,
        8 * bloom_size <= usize::MAX,
        min_hashes <= max_hashes,
    ensures
        exists|top: Seq<(i32, u64)>, bloom: Seq<u8>| #[trigger]
            is_hybrid_index(
                tag,
                data@,
                min_val,
                max_val,
                top_k as nat,
                rounded_probes(
                    bloom_size as nat,
                    left_out(data@, top_k as nat),
                    min_hashes as nat,
                    max_hashes as nat,
                ),
                top,
                bloom,
                index@,
            ) && bloom.len() == bloom_size,
{
    proof {
        tally_has_distinct_entries(full@, data@);
    }
    let top = ascending_top(full, top_k, Ghost(data@));
    let remaining: usize = if top_k < full.len() {
        full.len() - top_k
    } else {
        0
    };
    let num_hashes = hash_count(bloom_size, remaining, min_hashes, max_hashes);
    let bloom = build_bloom::<Murmur>(data, &top, bloom_size, num_hashes as u32);
    let mut buffer: Vec<u8> = Vec::new();
    push_range_header(&mut buffer, tag, min_val, max_val);
    buffer.push(num_hashes);
    push_u32(&mut buffer, (top.len() as u64 % 0x1_0000_0000) as u32);
    push_deltas(&mut buffer, &top);
    push_all(&mut buffer, bloom.as_slice());
    assert(buffer@ =~= hybrid_index(tag, min_val, max_val, num_hashes, top@, bloom@));
    let index = into_boxed_slice(buffer);
    proof {
        let hashes = rounded_probes(
            bloom_size as nat,
            left_out(data@, top_k as nat),
            min_hashes as nat,
            max_hashes as nat,
        );
        assert(hashes == num_hashes);
        assert(is_hybrid_index(
            tag,
            data@,
            min_val,
            max_val,
            top_k as nat,
            hashes,
            top@,
            bloom@,
            index@,
        ));
    }
    index
}

/// Goes through a complete list.
pub fn query_exact_compressed(index: &[u8], query: &i32) -> (r: Option<u64>)
    ensures
        r == compressed_answer(index@, *query),
{
    if index.len() < 13 {
        return None;
    }
    let min_val = read_i32(index, 1);
    let max_val = read_i32(index, 5);
    if *query < min_val || *query > max_val {
        return Some(0);
    }
    let n = read_u32(index, 9);
    match scan_deltas(index, 13, n, *query).0 {
        Lookup::Truncated => None,
        Lookup::Found(count) => Some(count),
        Lookup::Absent => Some(0),
    }
}

/// Goes through a list, then probes the filter behind it.
pub fn query_hybrid_index(index: &[u8], query: &i32) -> (r: Option<u64>)
    ensures
        r == hybrid_answer(index@, *query),
{
    if index.len() < 14 {
        return None;
    }
    let min_val = read_i32(index, 1);
    let max_val = read_i32(index, 5);
    if *query < min_val || *query > max_val {
        return Some(0);
    }
    let num_hashes = index[9];
    let n = read_u32(index, 10);
    let (found, end) = scan_deltas(index, 14, n, *query);
    match found {
        Lookup::Truncated => None,
        Lookup::Found(count) => Some(count),
        Lookup::Absent => query_bloom::<Murmur>(index, end, *query, num_hashes as u32),
    }
}

} // verus!
