//! Indexes that hold the range of a block: a tag byte, the lowest and the
//! highest value.
use vstd::prelude::*;

use crate::bytes::{
    holds, i32_at, i32_bytes, i32_round_trip, into_boxed_slice, lemma_byte_held, lemma_holds_split,
    lemma_holds_whole, push_i32, read_i32,
};
use crate::tally::{highest, lemma_occurs, lowest, max_value, min_value, occurrences, range_covers};

verus! {

/// The tag byte and the range.
pub open spec fn range_header(tag: u8, min_val: i32, max_val: i32) -> Seq<u8> {
    seq![tag] + i32_bytes(min_val) + i32_bytes(max_val)
}

/// Whether `query` lies outside the range that the header of an index holds.
pub open spec fn out_of_range(index: Seq<u8>, query: i32) -> bool {
    query < i32_at(index, 1) || query > i32_at(index, 5)
}

/// What a range says of `query`.
pub open spec fn minmax_answer(index: Seq<u8>, query: i32) -> Option<u64> {
    if index.len() >= 9 && out_of_range(index, query) {
        Some(0)
    } else {
        None
    }
}

pub proof fn lemma_range_header(index: Seq<u8>, tag: u8, min_val: i32, max_val: i32)
    requires
        holds(index, 0, range_header(tag, min_val, max_val)),
    ensures
        range_header(tag, min_val, max_val).len() == 9,
        index.len() >= 9,
        index[0] == tag,
        i32_at(index, 1) == min_val,
        i32_at(index, 5) == max_val,
{
    lemma_holds_split(index, 0, seq![tag] + i32_bytes(min_val), i32_bytes(max_val));
    lemma_holds_split(index, 0, seq![tag], i32_bytes(min_val));
    lemma_byte_held(index, 0, tag);
    i32_round_trip(index, 1, min_val);
    i32_round_trip(index, 5, max_val);
}

/// A value outside the range of a block does not occur in it.
pub proof fn lemma_outside_absent(data: Seq<i32>, query: i32)
    requires
        data.len() > 0,
        query < lowest(data) || query > highest(data),
    ensures
        occurrences(data, query) == 0,
        !data.contains(query),
{
    range_covers(data);
    lemma_occurs(data, query);
}

/// An index of the range of a block answers zero exactly to the values outside
/// that range.
pub proof fn minmax_answers(index: Seq<u8>, tag: u8, data: Seq<i32>, query: i32)
    requires
        data.len() > 0,
        index == range_header(tag, lowest(data), highest(data)),
    ensures
        index.len() == 9,
        index[0] == tag,
        minmax_answer(index, query) == if query < lowest(data) || query > highest(data) {
            Some(0u64)
        } else {
            None
        },
        minmax_answer(index, query) matches Some(c) ==> c == occurrences(data, query),
{
    lemma_holds_whole(index);
    lemma_range_header(index, tag, lowest(data), highest(data));
    if query < lowest(data) || query > highest(data) {
        lemma_outside_absent(data, query);
    }
}

/// A range alone takes nine bytes, and answers the queries below all values of a block or
/// above all of them, and no others.
pub proof fn range_alone(index: Seq<u8>, tag: u8, data: Seq<i32>, query: i32)
    requires
        data.len() > 0,
        index == range_header(tag, lowest(data), highest(data)),
    ensures
        index.len() == 9,
        index[0] == tag,
        minmax_answer(index, query) is Some <==> (forall|v: i32| #[trigger]
            data.contains(v) ==> v < query) || (forall|v: i32| #[trigger]
            data.contains(v) ==> query < v),
{
    minmax_answers(index, tag, data, query);
    range_covers(data);
}

/// Starts an index with its tag and a range.
pub fn push_range_header(out: &mut Vec<u8>, tag: u8, min_val: i32, max_val: i32)
    ensures
        final(out)@ == old(out)@ + range_header(tag, min_val, max_val),
{
    out.push(tag);
    push_i32(out, min_val);
    push_i32(out, max_val);
    assert(out@ =~= old(out)@ + range_header(tag, min_val, max_val));
}

/// The index of a given range.
pub fn range_index(tag: u8, min_val: i32, max_val: i32) -> (index: Box<[u8]>)
    ensures
        index@ == range_header(tag, min_val, max_val),
{
    let mut result: Vec<u8> = Vec::new();
    push_range_header(&mut result, tag, min_val, max_val);
    assert(result@ =~= range_header(tag, min_val, max_val));
    into_boxed_slice(result)
}

/// The index of the range of a block.
pub fn build_minmax_index(tag: u8, data: &[i32]) -> (index: Box<[u8]>)
    requires
        data@.len() > 0,
    ensures
        index@ == range_header(tag, lowest(data@), highest(data@)),
{
    let min_val = min_value(data);
    let max_val = max_value(data);
    range_index(tag, min_val, max_val)
}

/// Answers zero to a value outside the stored range.
pub fn query_minmax_index(index: &[u8], query: &i32) -> (r: Option<u64>)
    ensures
        r == minmax_answer(index@, *query),
{
    if index.len() < 9 {
        return None;
    }
    let min_val = read_i32(index, 1);
    let max_val = read_i32(index, 5);
    if *query < min_val || *query > max_val {
        Some(0)
    } else {
        None
    }
}

} // verus!
