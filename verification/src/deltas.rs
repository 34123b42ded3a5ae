//! Lists of values and counts: each value is stored as its difference to the one
//! before it, four bytes wide, each count as a variable-length number.
use vstd::prelude::*;

use crate::bytes::{holds, i32_at, i32_bytes, i32_round_trip, lemma_holds_split, push_i32, read_i32};
use crate::table::{entry_for, lemma_entry_for, Lookup};
use crate::tally::{has_key, keys_differ};
use crate::varint::{
    decode_varint, encode_varint, u64_varint_at, u64_varint_round_trip, varint_bytes,
};

verus! {

/// The value that the next difference counts from: that of the last entry, and
/// zero before the first.
pub open spec fn last_key(entries: Seq<(i32, u64)>) -> i32 {
    if entries.len() == 0 {
        0
    } else {
        entries.last().0
    }
}

/// The bytes of an entry behind the value `prev`.
pub open spec fn delta_entry(prev: i32, entry: (i32, u64)) -> Seq<u8> {
    i32_bytes(entry.0.wrapping_sub(prev)) + varint_bytes(entry.1 as nat)
}

pub open spec fn delta_bytes(entries: Seq<(i32, u64)>) -> Seq<u8>
    decreases entries.len(),
{
    if entries.len() == 0 {
        Seq::empty()
    } else {
        delta_bytes(entries.drop_last()) + delta_entry(
            last_key(entries.drop_last()),
            entries.last(),
        )
    }
}

/// What going through `n` entries from `pos` on gives, behind the value `prev`, and
/// where the search ends.
pub open spec fn delta_scan(s: Seq<u8>, pos: int, prev: i32, n: nat, query: i32) -> (Lookup, int)
    decreases n,
{
    if n == 0 {
        (Lookup::Absent, pos)
    } else if pos + 4 > s.len() {
        (Lookup::Truncated, pos)
    } else {
        let key = prev.wrapping_add(i32_at(s, pos));
        let (count, end) = u64_varint_at(s, pos + 4);
        match count {
            None => (Lookup::Truncated, end),
            Some(c) => if key == query {
                (Lookup::Found(c), end)
            } else {
                delta_scan(s, end, key, (n - 1) as nat, query)
            },
        }
    }
}

/// An entry takes four bytes for the distance from the value before it, or from zero, and
/// a byte for each seven bits of its count.
pub proof fn delta_grows(entries: Seq<(i32, u64)>, entry: (i32, u64))
    ensures
        delta_bytes(Seq::empty()).len() == 0,
        delta_bytes(entries.push(entry)).len() == delta_bytes(entries).len() + 4 + varint_bytes(
            entry.1 as nat,
        ).len(),
        delta_bytes(entries.push(entry)).take(delta_bytes(entries).len() as int) == delta_bytes(
            entries,
        ),
        i32_at(delta_bytes(entries.push(entry)), delta_bytes(entries).len() as int)
            == entry.0.wrapping_sub(
            if entries.len() == 0 {
                0
            } else {
                entries.last().0
            },
        ),
{
    let all = delta_bytes(entries.push(entry));
    let before = delta_bytes(entries);
    assert(entries.push(entry).drop_last() =~= entries);
    let behind = delta_entry(last_key(entries), entry);
    let key = i32_bytes(entry.0.wrapping_sub(last_key(entries)));
    assert(all == before + behind);
    assert(all.take(before.len() as int) =~= before);
    assert(all.subrange(before.len() as int, (before.len() + key.len()) as int) =~= key);
    i32_round_trip(all, before.len() as int, entry.0.wrapping_sub(last_key(entries)));
}

/// A difference leads from the one value to the other, also where it wraps.
pub proof fn difference_round_trip(key: i32, prev: i32)
    ensures
        prev.wrapping_add(key.wrapping_sub(prev)) == key,
{
}

/// Each entry of a list reads back as it was written.
pub proof fn delta_round_trip(s: Seq<u8>, base: int, entries: Seq<(i32, u64)>, i: int)
    requires
        holds(s, base, delta_bytes(entries)),
        0 <= i < entries.len(),
    ensures
        ({
            let pos = base + delta_bytes(entries.take(i)).len();
            &&& pos + 4 <= s.len()
            &&& last_key(entries.take(i)).wrapping_add(i32_at(s, pos)) == entries[i].0
            &&& u64_varint_at(s, pos + 4) == (
                Some(entries[i].1),
                base + delta_bytes(entries.take(i + 1)).len(),
            )
        }),
    decreases entries.len(),
{
    let front = entries.drop_last();
    let last = entries.last();
    let prev = last_key(front);
    lemma_holds_split(s, base, delta_bytes(front), delta_entry(prev, last));
    if i < entries.len() - 1 {
        delta_round_trip(s, base, front, i);
        assert(front.take(i) =~= entries.take(i));
        assert(front.take(i + 1) =~= entries.take(i + 1));
    } else {
        let pos = base + delta_bytes(front).len();
        let delta = last.0.wrapping_sub(prev);
        assert(entries.take(i) =~= front);
        assert(entries.take(i + 1) =~= entries);
        lemma_holds_split(s, pos, i32_bytes(delta), varint_bytes(last.1 as nat));
        i32_round_trip(s, pos, delta);
        u64_varint_round_trip(s, pos + 4, last.1);
        difference_round_trip(last.0, prev);
    }
}

/// Going through a list of different keys finds what the list says, and ends
/// behind the list where it says nothing.
pub proof fn delta_scan_finds(
    s: Seq<u8>,
    base: int,
    entries: Seq<(i32, u64)>,
    from: nat,
    query: i32,
)
    requires
        holds(s, base, delta_bytes(entries)),
        keys_differ(entries),
        from <= entries.len(),
        forall|k: int| 0 <= k < from ==> (#[trigger] entries[k]).0 != query,
    ensures
        ({
            let found = delta_scan(
                s,
                base + delta_bytes(entries.take(from as int)).len(),
                last_key(entries.take(from as int)),
                (entries.len() - from) as nat,
                query,
            );
            &&& found.0 == entry_for(entries, query)
            &&& found.0 is Absent ==> found.1 == base + delta_bytes(entries).len()
        }),
    decreases entries.len() - from,
{
    if from < entries.len() {
        delta_round_trip(s, base, entries, from as int);
        assert(last_key(entries.take(from as int + 1)) == entries[from as int].0);
        if entries[from as int].0 == query {
            lemma_entry_for(entries, from as int);
        } else {
            delta_scan_finds(s, base, entries, from + 1, query);
        }
    } else {
        assert(entries.take(from as int) =~= entries);
        assert(!has_key(entries, query));
    }
}

/// Appends a list.
pub fn push_deltas(out: &mut Vec<u8>, entries: &Vec<(i32, u64)>)
    ensures
        final(out)@ == old(out)@ + delta_bytes(entries@),
{
    let mut prev_key: i32 = 0;
    let mut k: usize = 0;
    while k < entries.len()
        invariant
            k <= entries@.len(),
            prev_key == last_key(entries@.take(k as int)),
            out@ == old(out)@ + delta_bytes(entries@.take(k as int)),
        decreases entries@.len() - k,
    {
        let (key, count) = entries[k];
        let ghost before = out@;
        push_i32(out, key.wrapping_sub(prev_key));
        encode_varint(count, out);
        proof {
            let next = entries@.take(k + 1);
            assert(next.drop_last() =~= entries@.take(k as int));
            assert(next.last() == entries@[k as int]);
            assert(out@ =~= before + delta_entry(prev_key, entries@[k as int]));
            assert(out@ =~= old(out)@ + delta_bytes(next));
        }
        prev_key = key;
        k = k + 1;
    }
    assert(entries@.take(k as int) =~= entries@);
}

/// Goes through `n` entries from `pos` on, and returns the end of the search too.
pub fn scan_deltas(index: &[u8], pos: usize, n: u32, query: i32) -> (r: (Lookup, usize))
    requires
        pos <= index@.len(),
    ensures
        (r.0, r.1 as int) == delta_scan(index@, pos as int, 0, n as nat, query),
        r.1 <= index@.len(),
{
    let mut offset: usize = pos;
    let mut prev_key: i32 = 0;
    let mut k: u32 = 0;
    while k < n
        invariant
            k <= n,
            offset <= index@.len(),
            delta_scan(index@, pos as int, 0, n as nat, query) == delta_scan(
                index@,
                offset as int,
                prev_key,
                (n - k) as nat,
                query,
            ),
        decreases n - k,
    {
        if index.len() - offset < 4 {
            return (Lookup::Truncated, offset);
        }
        let key = prev_key.wrapping_add(read_i32(index, offset));
        offset = offset + 4;
        match decode_varint(index, &mut offset) {
            None => {
                return (Lookup::Truncated, offset);
            },
            Some(count) => {
                if key == query {
                    return (Lookup::Found(count), offset);
                }
            },
        }
        prev_key = key;
        k = k + 1;
    }
    (Lookup::Absent, offset)
}

} // verus!
