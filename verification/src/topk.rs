//! Indexes that list the most frequent values of a block and keep a Bloom
//! filter of the others.
use vstd::prelude::*;

use crate::bloom::{
    bloom_answer, bloom_has_no_false_negatives, bloom_round_trip, collides, is_bloom, passes,
    passing_is_colliding, query_bloom,
};
use crate::bytes::{
    holds, into_boxed_slice, lemma_holds_index, lemma_holds_split, lemma_holds_whole, push_all,
    push_u32, read_u32, u32_at, u32_bytes, u32_round_trip,
};
use crate::hashing::HashFamily;
use crate::table::{
    entry_for, lemma_entry_counted, lemma_table_len, push_table, scan, scan_entries, scan_finds,
    table_bytes, Lookup,
};
use crate::tally::{
    counted, distinct, has_key, is_top, keys_differ, lemma_occurs, lemma_told_values, occurrences,
};

verus! {

/// The leading bytes, the number of listed values, their table, and the filter.
pub open spec fn topk_index(head: Seq<u8>, top: Seq<(i32, u64)>, bloom: Seq<u8>) -> Seq<u8> {
    head + u32_bytes((top.len() % 0x1_0000_0000) as u32) + table_bytes(top) + bloom
}

/// The answer of an index whose list starts at `base`: a listed value is answered
/// from the list, any other from the filter.
pub open spec fn topk_answer<H: HashFamily>(
    index: Seq<u8>,
    base: int,
    query: i32,
    hashes: u32,
) -> Option<u64> {
    if index.len() < base + 4 {
        None
    } else {
        let n = u32_at(index, base);
        match scan(index, base + 4, n as nat, query) {
            Lookup::Truncated => None,
            Lookup::Found(count) => Some(count),
            Lookup::Absent => bloom_answer::<H>(index, base + 4 + 12 * n, query, hashes),
        }
    }
}

/// What an index says of `query` that lists `top` and keeps the other values of
/// `data` in a filter of so many bits.
pub open spec fn topk_says<H: HashFamily>(
    data: Seq<i32>,
    top: Seq<(i32, u64)>,
    hashes: u32,
    bits: nat,
    query: i32,
) -> Option<u64> {
    if !has_key(top, query) && passes::<H>(data, top, hashes, bits, query) {
        None
    } else {
        Some(occurrences(data, query) as u64)
    }
}

/// The parts of an index read back as they were written.
pub proof fn lemma_topk_layout(
    index: Seq<u8>,
    head: Seq<u8>,
    top: Seq<(i32, u64)>,
    bloom: Seq<u8>,
)
    requires
        top.len() < 0x1_0000_0000,
        index == topk_index(head, top, bloom),
    ensures
        index.len() == head.len() + 4 + 12 * top.len() + bloom.len(),
        holds(index, 0, head),
        u32_at(index, head.len() as int) == top.len(),
        holds(index, head.len() as int + 4, table_bytes(top)),
        holds(index, head.len() as int + 4 + 12 * top.len(), bloom),
{
    let n = (top.len() % 0x1_0000_0000) as u32;
    lemma_table_len(top);
    lemma_holds_whole(index);
    lemma_holds_split(index, 0, head + u32_bytes(n) + table_bytes(top), bloom);
    lemma_holds_split(index, 0, head + u32_bytes(n), table_bytes(top));
    lemma_holds_split(index, 0, head, u32_bytes(n));
    u32_round_trip(index, head.len() as int, n);
}

/// The parts of an index with a tag and a number of probes in front.
pub proof fn lemma_tagged_layout(
    index: Seq<u8>,
    tag: u8,
    hashes: u8,
    top: Seq<(i32, u64)>,
    bloom: Seq<u8>,
)
    requires
        top.len() < 0x1_0000_0000,
        index == topk_index(seq![tag, hashes], top, bloom),
    ensures
        index.len() == 6 + 12 * top.len() + bloom.len(),
        index[0] == tag,
        index[1] == hashes,
        u32_at(index, 2) == top.len(),
        holds(index, 6, table_bytes(top)),
        holds(index, 6 + 12 * top.len() as int, bloom),
{
    let head = seq![tag, hashes];
    lemma_topk_layout(index, head, top, bloom);
    lemma_holds_index(index, 0, head, 0);
    lemma_holds_index(index, 0, head, 1);
}

/// The answers of an index are the counts of its block.
pub proof fn topk_answers<H: HashFamily>(
    index: Seq<u8>,
    base: int,
    top: Seq<(i32, u64)>,
    bloom: Seq<u8>,
    data: Seq<i32>,
    hashes: u32,
    query: i32,
)
    requires
        keys_differ(top),
        counted(top, data),
        is_bloom::<H>(bloom, data, top, hashes),
        bloom.len() > 0,
        0 <= base,
        index.len() == base + 4 + 12 * top.len() + bloom.len(),
        u32_at(index, base) == top.len(),
        holds(index, base + 4, table_bytes(top)),
        holds(index, base + 4 + 12 * top.len(), bloom),
    ensures
        topk_answer::<H>(index, base, query, hashes) == topk_says::<H>(
            data,
            top,
            hashes,
            8 * bloom.len(),
            query,
        ),
        topk_answer::<H>(index, base, query, hashes) matches Some(count) ==> count == occurrences(
            data,
            query,
        ),
{
    scan_finds(index, base + 4, top, 0, query);
    lemma_entry_counted(top, data, query);
    lemma_occurs(data, query);
    bloom_round_trip::<H>(index, base + 4 + 12 * top.len(), bloom, data, top, hashes, query);
    if data.contains(query) && !has_key(top, query) {
        bloom_has_no_false_negatives::<H>(data, top, hashes, 8 * bloom.len(), query);
    }
    match entry_for(top, query) {
        Lookup::Found(count) => {
            assert(count == occurrences(data, query));
        },
        _ => {},
    }
}

/// A list with a filter tells the count of every listed value, and of a value that does not
/// occur that it does not, where one of its hashes does not collide. It tells nothing else.
pub proof fn filters_tell_the_absent<H: HashFamily>(
    data: Seq<i32>,
    top: Seq<(i32, u64)>,
    hashes: u32,
    bits: nat,
    query: i32,
)
    ensures
        has_key(top, query) ==> topk_says::<H>(data, top, hashes, bits, query) == Some(
            occurrences(data, query) as u64,
        ),
        !has_key(top, query) && data.contains(query) ==> topk_says::<H>(
            data,
            top,
            hashes,
            bits,
            query,
        ) is None,
        !has_key(top, query) && !data.contains(query) ==> topk_says::<H>(
            data,
            top,
            hashes,
            bits,
            query,
        ) == if forall|seed: u32|
            seed < hashes ==> #[trigger] collides::<H>(data, top, hashes, bits, query, seed) {
            None
        } else {
            Some(0u64)
        },
{
    passing_is_colliding::<H>(data, top, hashes, bits, query);
    if !has_key(top, query) && data.contains(query) {
        bloom_has_no_false_negatives::<H>(data, top, hashes, bits, query);
    }
    lemma_occurs(data, query);
}

/// Of the values of a block, an index with a filter answers those that it lists.
pub proof fn filtered_lists_tell_the_listed<H: HashFamily>(
    data: Seq<i32>,
    top: Seq<(i32, u64)>,
    k: nat,
    hashes: u32,
    bits: nat,
    told: Set<i32>,
)
    requires
        is_top(top, k, data),
        forall|v: i32| #[trigger]
            told.contains(v) <==> data.contains(v) && topk_says::<H>(
                data,
                top,
                hashes,
                bits,
                v,
            ) is Some,
    ensures
        told.finite(),
        told.len() == if k < distinct(data) {
            k
        } else {
            distinct(data)
        },
        forall|v: i32, w: i32| #[trigger]
            told.contains(v) && #[trigger] data.contains(w) && !told.contains(w) ==> occurrences(
                data,
                w,
            ) <= occurrences(data, v),
{
    assert forall|v: i32| #[trigger] told.contains(v) <==> data.contains(v) && has_key(top, v) by {
        if data.contains(v) && !has_key(top, v) {
            bloom_has_no_false_negatives::<H>(data, top, hashes, bits, v);
        }
    }
    lemma_told_values(top, k, data, told);
}

/// Puts an index together.
pub fn build_topk(head: Vec<u8>, top: &Vec<(i32, u64)>, bloom: &Vec<u8>) -> (index: Box<[u8]>)
    ensures
        index@ == topk_index(head@, top@, bloom@),
{
    let mut buffer = head;
    push_u32(&mut buffer, (top.len() as u64 % 0x1_0000_0000) as u32);
    push_table(&mut buffer, top);
    push_all(&mut buffer, bloom.as_slice());
    assert(buffer@ =~= topk_index(head@, top@, bloom@));
    into_boxed_slice(buffer)
}

/// Answers from the list at `base`, or from the filter behind it.
pub fn query_topk<H: HashFamily>(index: &[u8], base: usize, query: i32, hashes: u32) -> (r: Option<
    u64,
>)
    requires
        base <= 2,
    ensures
        r == topk_answer::<H>(index@, base as int, query, hashes),
{
    if index.len() < base + 4 {
        return None;
    }
    let n = read_u32(index, base);
    match scan_entries(index, base + 4, n, query) {
        Lookup::Truncated => None,
        Lookup::Found(count) => Some(count),
        Lookup::Absent => {
            assert(index@.len() == index.len());
            query_bloom::<H>(index, base + 4 + 12 * n as usize, query, hashes)
        },
    }
}

} // verus!
