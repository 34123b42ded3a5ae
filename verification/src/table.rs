//! Tables of values and counts: twelve bytes to an entry, the value as a
//! signed 32-bit and the count as an unsigned 64-bit number.
use std::collections::HashMap;
use vstd::prelude::*;

use crate::bytes::{
    holds, i32_at, i32_bytes, i32_round_trip, into_boxed_slice, lemma_holds_split,
    lemma_holds_whole, push_i32, push_u32, push_u64, read_i32, read_u32, read_u64, u32_at,
    u32_bytes, u32_round_trip, u64_at, u64_bytes, u64_round_trip,
};
use crate::tally::{
    ascending, ascending_entries, count_in, counted, entries_of, has_key, histogram, is_tally,
    keys_differ, lemma_occurs, lemma_tally_lists, lists, occurrences,
};

verus! {

/// The outcome of a search through stored entries.
#[derive(Clone, Copy, Debug, PartialEq, Eq, Structural)]
pub enum Lookup {
    /// The bytes ended before the search did.
    Truncated,
    /// The value has an entry with this count.
    Found(u64),
    /// The value has no entry.
    Absent,
}

pub open spec fn entry_bytes(entry: (i32, u64)) -> Seq<u8> {
    i32_bytes(entry.0) + u64_bytes(entry.1)
}

pub open spec fn table_bytes(entries: Seq<(i32, u64)>) -> Seq<u8>
    decreases entries.len(),
{
    if entries.len() == 0 {
        Seq::empty()
    } else {
        table_bytes(entries.drop_last()) + entry_bytes(entries.last())
    }
}

/// A tag byte, the number of entries modulo 2^32, and the table.
pub open spec fn counted_table(tag: u8, entries: Seq<(i32, u64)>) -> Seq<u8> {
    seq![tag] + u32_bytes((entries.len() % 0x1_0000_0000) as u32) + table_bytes(entries)
}

/// What going through the `n` entries from `pos` on gives.
pub open spec fn scan(s: Seq<u8>, pos: int, n: nat, query: i32) -> Lookup
    decreases n,
{
    if n == 0 {
        Lookup::Absent
    } else if pos + 12 > s.len() {
        Lookup::Truncated
    } else if i32_at(s, pos) == query {
        Lookup::Found(u64_at(s, pos + 4))
    } else {
        scan(s, pos + 12, (n - 1) as nat, query)
    }
}

/// What halving the range `left..right` of the table at `base` gives. The
/// entries are probed where the halving leads, whether they are in order or
/// not.
pub open spec fn bisect(s: Seq<u8>, base: int, left: int, right: int, query: i32) -> Lookup
    decreases right - left,
{
    if left >= right {
        Lookup::Absent
    } else {
        let mid = (left + right) / 2;
        let pos = base + 12 * mid;
        if pos + 12 > s.len() {
            Lookup::Truncated
        } else if i32_at(s, pos) == query {
            Lookup::Found(u64_at(s, pos + 4))
        } else if i32_at(s, pos) < query {
            bisect(s, base, mid + 1, right, query)
        } else {
            bisect(s, base, left, mid, query)
        }
    }
}

/// The answer of a complete table at the start of an index, searched by
/// halving: a value without an entry does not occur.
pub open spec fn sorted_table_answer(index: Seq<u8>, query: i32) -> Option<u64> {
    if index.len() < 5 {
        None
    } else {
        complete_answer(bisect(index, 5, 0, u32_at(index, 1) as int, query))
    }
}

/// The answer of a complete table at the start of an index, gone through from
/// its first entry on.
pub open spec fn scanned_table_answer(index: Seq<u8>, query: i32) -> Option<u64> {
    if index.len() < 5 {
        None
    } else {
        complete_answer(scan(index, 5, u32_at(index, 1) as nat, query))
    }
}

/// What the outcome of a search through all values of a block says.
pub open spec fn complete_answer(found: Lookup) -> Option<u64> {
    match found {
        Lookup::Truncated => None,
        Lookup::Found(count) => Some(count),
        Lookup::Absent => Some(0),
    }
}

/// What the outcome of a search through some values of a block says.
pub open spec fn partial_answer(found: Lookup) -> Option<u64> {
    match found {
        Lookup::Found(count) => Some(count),
        _ => None,
    }
}

/// What a list with different keys says of `query`.
pub open spec fn entry_for(entries: Seq<(i32, u64)>, query: i32) -> Lookup {
    if has_key(entries, query) {
        let i = choose|i: int| 0 <= i < entries.len() && (#[trigger] entries[i]).0 == query;
        Lookup::Found(entries[i].1)
    } else {
        Lookup::Absent
    }
}

pub proof fn lemma_entry_for(entries: Seq<(i32, u64)>, i: int)
    requires
        keys_differ(entries),
        0 <= i < entries.len(),
    ensures
        entry_for(entries, entries[i].0) == Lookup::Found(entries[i].1),
{
    let q = entries[i].0;
    assert(has_key(entries, q));
    let k = choose|k: int| 0 <= k < entries.len() && (#[trigger] entries[k]).0 == q;
    if k < i {
        assert(entries[k].0 != entries[i].0);
    } else if i < k {
        assert(entries[i].0 != entries[k].0);
    }
}

/// A listed value is found with the number of its occurrences.
pub proof fn lemma_entry_counted(entries: Seq<(i32, u64)>, data: Seq<i32>, query: i32)
    requires
        counted(entries, data),
    ensures
        entry_for(entries, query) matches Lookup::Found(c) ==> c == occurrences(data, query)
            && has_key(entries, query),
        entry_for(entries, query) is Absent <==> !has_key(entries, query),
        !(entry_for(entries, query) is Truncated),
{
}

pub proof fn lemma_table_len(entries: Seq<(i32, u64)>)
    ensures
        table_bytes(entries).len() == 12 * entries.len(),
    decreases entries.len(),
{
    if entries.len() > 0 {
        lemma_table_len(entries.drop_last());
    }
}

/// Each entry of a table reads back as it was written.
pub proof fn table_round_trip(s: Seq<u8>, base: int, entries: Seq<(i32, u64)>, i: int)
    requires
        holds(s, base, table_bytes(entries)),
        0 <= i < entries.len(),
    ensures
        i32_at(s, base + 12 * i) == entries[i].0,
        u64_at(s, base + 12 * i + 4) == entries[i].1,
        base + 12 * i + 12 <= s.len(),
    decreases entries.len(),
{
    let front = entries.drop_last();
    let last = entries.last();
    lemma_table_len(front);
    lemma_holds_split(s, base, table_bytes(front), entry_bytes(last));
    if i < entries.len() - 1 {
        table_round_trip(s, base, front, i);
    } else {
        lemma_holds_split(s, base + 12 * i, i32_bytes(last.0), u64_bytes(last.1));
        i32_round_trip(s, base + 12 * i, last.0);
        u64_round_trip(s, base + 12 * i + 4, last.1);
    }
}

/// Going through any bytes finds the first entry with the key, and nothing where there is
/// none among all of them. It is cut short where an entry is missing before that.
pub proof fn scan_tells_what_is_stored(s: Seq<u8>, pos: int, n: nat, query: i32, i: nat)
    requires
        i < n,
        forall|j: int| 0 <= j < i ==> #[trigger] i32_at(s, pos + 12 * j) != query,
        pos + 12 * i <= s.len(),
    ensures
        pos + 12 * i + 12 <= s.len() && i32_at(s, pos + 12 * i) == query ==> scan(s, pos, n, query)
            == Lookup::Found(u64_at(s, pos + 12 * i + 4)),
        pos + 12 * i + 12 > s.len() ==> scan(s, pos, n, query) == Lookup::Truncated,
        pos + 12 * i + 12 <= s.len() && i32_at(s, pos + 12 * i) != query && i + 1 == n ==> scan(
            s,
            pos,
            n,
            query,
        ) == Lookup::Absent,
    decreases i,
{
    assert(pos + 12 * 0 == pos);
    if i > 0 {
        assert(i32_at(s, pos + 12 * 0) != query);
        assert forall|j: int| 0 <= j < i - 1 implies #[trigger] i32_at(s, pos + 12 + 12 * j)
            != query by {
            assert(i32_at(s, pos + 12 * (j + 1)) != query);
        }
        scan_tells_what_is_stored(s, pos + 12, (n - 1) as nat, query, (i - 1) as nat);
        assert(pos + 12 + 12 * (i - 1) == pos + 12 * i);
    }
}

/// Halving any bytes finds no entry that is not stored.
pub proof fn bisect_tells_what_is_stored(s: Seq<u8>, base: int, left: int, right: int, query: i32)
    requires
        0 <= left,
    ensures
        left >= right ==> bisect(s, base, left, right, query) == Lookup::Absent,
        bisect(s, base, left, right, query) matches Lookup::Found(count) ==> exists|i: int|
            left <= i < right && base + 12 * i + 12 <= s.len() && #[trigger] i32_at(
                s,
                base + 12 * i,
            ) == query && u64_at(s, base + 12 * i + 4) == count,
        base + 12 * right <= s.len() ==> bisect(s, base, left, right, query) !is Truncated,
    decreases right - left,
{
    if left < right {
        let mid = (left + right) / 2;
        bisect_tells_what_is_stored(s, base, mid + 1, right, query);
        bisect_tells_what_is_stored(s, base, left, mid, query);
        if base + 12 * mid + 12 <= s.len() && i32_at(s, base + 12 * mid) == query {
            assert(left <= mid < right);
        }
    }
}

/// Going through a table of different keys finds what the table says.
pub proof fn scan_finds(s: Seq<u8>, base: int, entries: Seq<(i32, u64)>, from: nat, query: i32)
    requires
        holds(s, base, table_bytes(entries)),
        keys_differ(entries),
        from <= entries.len(),
        forall|k: int| 0 <= k < from ==> (#[trigger] entries[k]).0 != query,
    ensures
        scan(s, base + 12 * from, (entries.len() - from) as nat, query) == entry_for(
            entries,
            query,
        ),
    decreases entries.len() - from,
{
    if from < entries.len() {
        table_round_trip(s, base, entries, from as int);
        if entries[from as int].0 == query {
            lemma_entry_for(entries, from as int);
        } else {
            scan_finds(s, base, entries, from + 1, query);
        }
    }
}

/// Halving a table in ascending order finds what the table says.
pub proof fn bisect_finds(
    s: Seq<u8>,
    base: int,
    entries: Seq<(i32, u64)>,
    left: int,
    right: int,
    query: i32,
)
    requires
        holds(s, base, table_bytes(entries)),
        ascending(entries),
        0 <= left <= right <= entries.len(),
        forall|k: int| 0 <= k < left ==> (#[trigger] entries[k]).0 < query,
        forall|k: int| right <= k < entries.len() ==> (#[trigger] entries[k]).0 > query,
    ensures
        bisect(s, base, left, right, query) == entry_for(entries, query),
    decreases right - left,
{
    if left < right {
        let mid = (left + right) / 2;
        table_round_trip(s, base, entries, mid);
        if entries[mid].0 == query {
            lemma_entry_for(entries, mid);
        } else if entries[mid].0 < query {
            assert forall|k: int| 0 <= k < mid + 1 implies (#[trigger] entries[k]).0 < query by {
                if k < mid {
                    assert(entries[k].0 < entries[mid].0);
                }
            }
            bisect_finds(s, base, entries, mid + 1, right, query);
        } else {
            assert forall|k: int| mid <= k < entries.len() implies (#[trigger] entries[k]).0
                > query by {
                if mid < k {
                    assert(entries[mid].0 < entries[k].0);
                }
            }
            bisect_finds(s, base, entries, left, mid, query);
        }
    }
}

/// A complete list answers every query with the number of occurrences.
pub proof fn lemma_complete_answer(entries: Seq<(i32, u64)>, data: Seq<i32>, query: i32)
    requires
        is_tally(entries, data),
    ensures
        complete_answer(entry_for(entries, query)) == Some(occurrences(data, query) as u64),
        occurrences(data, query) <= u64::MAX,
{
    lemma_entry_counted(entries, data, query);
    lemma_occurs(data, query);
    if has_key(entries, query) {
    } else {
        assert(!data.contains(query));
    }
}

/// A complete list of a map answers every query with its count.
pub proof fn lemma_map_answer(entries: Seq<(i32, u64)>, m: Map<i32, u64>, query: i32)
    requires
        lists(entries, m),
    ensures
        complete_answer(entry_for(entries, query)) == Some(count_in(m, query)),
        entry_for(entries, query) is Found <==> m.contains_key(query),
        !(entry_for(entries, query) is Truncated),
{
    if has_key(entries, query) {
        let i = choose|i: int| 0 <= i < entries.len() && (#[trigger] entries[i]).0 == query;
        assert(m.contains_key(entries[i].0));
    } else {
        assert(!m.contains_key(query));
    }
}

proof fn lemma_counted_table(index: Seq<u8>, tag: u8, entries: Seq<(i32, u64)>)
    requires
        index == counted_table(tag, entries),
        entries.len() < 0x1_0000_0000,
    ensures
        index[0] == tag,
        index.len() == 5 + 12 * entries.len(),
        u32_at(index, 1) == entries.len(),
        holds(index, 5, table_bytes(entries)),
{
    let n = (entries.len() % 0x1_0000_0000) as u32;
    lemma_table_len(entries);
    lemma_holds_whole(index);
    lemma_holds_split(index, 0, seq![tag] + u32_bytes(n), table_bytes(entries));
    lemma_holds_split(index, 0, seq![tag], u32_bytes(n));
    u32_round_trip(index, 1, n);
}

/// The table of all keys of a map in ascending order answers every query with the count, zero where
/// there is none.
pub proof fn sorted_table_of_map_answers(
    index: Seq<u8>,
    tag: u8,
    entries: Seq<(i32, u64)>,
    m: Map<i32, u64>,
    query: i32,
)
    requires
        lists(entries, m),
        ascending(entries),
        entries.len() < 0x1_0000_0000,
        index == counted_table(tag, entries),
    ensures
        index.len() > 0,
        index[0] == tag,
        sorted_table_answer(index, query) == Some(count_in(m, query)),
{
    lemma_counted_table(index, tag, entries);
    bisect_finds(index, 5, entries, 0, entries.len() as int, query);
    lemma_map_answer(entries, m, query);
}

/// A complete table in ascending order answers every query exactly.
pub proof fn sorted_table_answers(
    index: Seq<u8>,
    tag: u8,
    entries: Seq<(i32, u64)>,
    data: Seq<i32>,
    query: i32,
)
    requires
        is_tally(entries, data),
        ascending(entries),
        entries.len() < 0x1_0000_0000,
        index == counted_table(tag, entries),
    ensures
        index.len() > 0,
        index[0] == tag,
        sorted_table_answer(index, query) == Some(occurrences(data, query) as u64),
        occurrences(data, query) <= u64::MAX,
{
    lemma_tally_lists(entries, data);
    sorted_table_of_map_answers(index, tag, entries, histogram(data), query);
    assert(count_in(histogram(data), query) == occurrences(data, query));
}

/// The table of all keys of a map in any order answers every query with the count, zero where
/// there is none.
pub proof fn scanned_table_of_map_answers(
    index: Seq<u8>,
    tag: u8,
    entries: Seq<(i32, u64)>,
    m: Map<i32, u64>,
    query: i32,
)
    requires
        lists(entries, m),
        entries.len() < 0x1_0000_0000,
        index == counted_table(tag, entries),
    ensures
        index.len() > 0,
        index[0] == tag,
        scanned_table_answer(index, query) == Some(count_in(m, query)),
{
    lemma_counted_table(index, tag, entries);
    scan_finds(index, 5, entries, 0, query);
    lemma_map_answer(entries, m, query);
}

/// A complete table in any order answers every query exactly.
pub proof fn scanned_table_answers(
    index: Seq<u8>,
    tag: u8,
    entries: Seq<(i32, u64)>,
    data: Seq<i32>,
    query: i32,
)
    requires
        is_tally(entries, data),
        entries.len() < 0x1_0000_0000,
        index == counted_table(tag, entries),
    ensures
        index.len() > 0,
        index[0] == tag,
        scanned_table_answer(index, query) == Some(occurrences(data, query) as u64),
        occurrences(data, query) <= u64::MAX,
{
    lemma_tally_lists(entries, data);
    scanned_table_of_map_answers(index, tag, entries, histogram(data), query);
    assert(count_in(histogram(data), query) == occurrences(data, query));
}

/// Appends the entries.
pub fn push_table(out: &mut Vec<u8>, entries: &Vec<(i32, u64)>)
    ensures
        final(out)@ == old(out)@ + table_bytes(entries@),
{
    let mut k: usize = 0;
    while k < entries.len()
        invariant
            k <= entries@.len(),
            out@ == old(out)@ + table_bytes(entries@.take(k as int)),
        decreases entries@.len() - k,
    {
        let (val, count) = entries[k];
        let ghost before = out@;
        push_i32(out, val);
        push_u64(out, count);
        proof {
            let next = entries@.take(k + 1);
            assert(next.drop_last() =~= entries@.take(k as int));
            assert(next.last() == entries@[k as int]);
            assert(out@ =~= before + entry_bytes(entries@[k as int]));
            assert(out@ =~= old(out)@ + table_bytes(next));
        }
        k = k + 1;
    }
    assert(entries@.take(k as int) =~= entries@);
}

/// Goes through `n` entries from `pos` on.
pub fn scan_entries(index: &[u8], pos: usize, n: u32, query: i32) -> (r: Lookup)
    requires
        pos <= index@.len(),
    ensures
        r == scan(index@, pos as int, n as nat, query),
        r is Absent ==> pos + 12 * n <= index@.len(),
{
    let mut offset: usize = pos;
    let mut k: u32 = 0;
    while k < n
        invariant
            k <= n,
            offset == pos + 12 * k,
            offset <= index@.len(),
            scan(index@, pos as int, n as nat, query) == scan(
                index@,
                offset as int,
                (n - k) as nat,
                query,
            ),
        decreases n - k,
    {
        if index.len() - offset < 12 {
            return Lookup::Truncated;
        }
        if read_i32(index, offset) == query {
            return Lookup::Found(read_u64(index, offset + 4));
        }
        offset = offset + 12;
        k = k + 1;
    }
    Lookup::Absent
}

/// Searches `n` entries from `base` on by halving.
pub fn bisect_entries(index: &[u8], base: usize, n: u32, query: i32) -> (r: Lookup)
    requires
        base <= index@.len(),
    ensures
        r == bisect(index@, base as int, 0, n as int, query),
{
    let mut left: u64 = 0;
    let mut right: u64 = n as u64;
    let len: usize = index.len();
    while left < right
        invariant
            left <= right <= n,
            base <= len == index@.len(),
            bisect(index@, base as int, 0, n as int, query) == bisect(
                index@,
                base as int,
                left as int,
                right as int,
                query,
            ),
        decreases right - left,
    {
        let mid: u64 = (left + right) / 2;
        if ((len - base) as u64) < 12 * mid + 12 {
            return Lookup::Truncated;
        }
        let pos: usize = base + (12 * mid) as usize;
        let val = read_i32(index, pos);
        if val == query {
            return Lookup::Found(read_u64(index, pos + 4));
        } else if val < query {
            left = mid + 1;
        } else {
            right = mid;
        }
    }
    Lookup::Absent
}

/// An index that is a complete table.
pub fn table_index(tag: u8, entries: &Vec<(i32, u64)>) -> (index: Box<[u8]>)
    ensures
        index@ == counted_table(tag, entries@),
{
    let mut result: Vec<u8> = Vec::new();
    result.push(tag);
    push_u32(&mut result, (entries.len() as u64 % 0x1_0000_0000) as u32);
    push_table(&mut result, entries);
    assert(result@ =~= counted_table(tag, entries@));
    into_boxed_slice(result)
}

/// The table of all values of a block in ascending order.
pub fn build_hashmap_index(tag: u8, counts: &HashMap<i32, u64>) -> (index: Box<[u8]>)
    ensures
        exists|entries: Seq<(i32, u64)>| #[trigger]
            lists(entries, counts@) && ascending(entries) && index@ == counted_table(tag, entries),
{
    let entries = ascending_entries(counts);
    table_index(tag, &entries)
}

/// The table of all values of a block, in the order in which the map walks them.
pub fn build_exact_index(tag: u8, counts: &HashMap<i32, u64>) -> (index: Box<[u8]>)
    ensures
        exists|entries: Seq<(i32, u64)>| #[trigger]
            lists(entries, counts@) && index@ == counted_table(tag, entries),
{
    let entries = entries_of(counts);
    table_index(tag, &entries)
}

/// What the outcome of a search through all values says.
pub fn complete(found: Lookup) -> (r: Option<u64>)
    ensures
        r == complete_answer(found),
{
    match found {
        Lookup::Truncated => None,
        Lookup::Found(count) => Some(count),
        Lookup::Absent => Some(0),
    }
}

/// What the outcome of a search through some values says.
pub fn partial(found: Lookup) -> (r: Option<u64>)
    ensures
        r == partial_answer(found),
{
    match found {
        Lookup::Found(count) => Some(count),
        _ => None,
    }
}

/// Searches a complete table by halving.
pub fn query_hashmap_index(index: &[u8], query: &i32) -> (r: Option<u64>)
    ensures
        r == sorted_table_answer(index@, *query),
{
    if index.len() < 5 {
        return None;
    }
    let count = read_u32(index, 1);
    complete(bisect_entries(index, 5, count, *query))
}

/// Goes through a complete table.
pub fn query_exact_index(index: &[u8], query: &i32) -> (r: Option<u64>)
    ensures
        r == scanned_table_answer(index@, *query),
{
    if index.len() < 5 {
        return None;
    }
    let count = read_u32(index, 1);
    complete(scan_entries(index, 5, count, *query))
}

} // verus!
