//! Lists of values and counts in variable-length numbers: each value is stored as
//! its difference to the one before it. Such a list is decoded as a whole and then
//! searched.
use vstd::prelude::*;

use crate::bytes::{holds, lemma_holds_split};
use crate::deltas::{difference_round_trip, last_key};
use crate::table::{entry_for, lemma_entry_for, Lookup};
use crate::tally::{ascending, has_key};
use crate::varint::{
    decode_varint, encode_varint, u64_varint_at, u64_varint_round_trip, unzigzag, varint_bytes,
    zigzag, zigzag_decode, zigzag_encode, zigzag_round_trip,
};

verus! {

/// The bytes of an entry behind the value `prev`.
pub open spec fn pair_entry(prev: i32, entry: (i32, u64)) -> Seq<u8> {
    varint_bytes(zigzag(entry.0.wrapping_sub(prev)) as nat) + varint_bytes(entry.1 as nat)
}

pub open spec fn pair_bytes(entries: Seq<(i32, u64)>) -> Seq<u8>
    decreases entries.len(),
{
    if entries.len() == 0 {
        Seq::empty()
    } else {
        pair_bytes(entries.drop_last()) + pair_entry(last_key(entries.drop_last()), entries.last())
    }
}

/// The list of `n` entries from `pos` on, behind the value `prev`, unless the bytes do
/// not hold one. Of a stored difference the lowest 32 bits count.
pub open spec fn pairs_at(s: Seq<u8>, pos: int, prev: i32, n: nat) -> Option<Seq<(i32, u64)>>
    decreases n,
{
    if n == 0 {
        Some(Seq::empty())
    } else {
        let (delta, middle) = u64_varint_at(s, pos);
        match delta {
            None => None,
            Some(d) => {
                let key = prev.wrapping_add(unzigzag((d % 0x1_0000_0000) as u32));
                let (count, end) = u64_varint_at(s, middle);
                match count {
                    None => None,
                    Some(c) => match pairs_at(s, end, key, (n - 1) as nat) {
                        None => None,
                        Some(rest) => Some(seq![(key, c)] + rest),
                    },
                }
            },
        }
    }
}

/// What halving the range `left..right` of a list gives.
pub open spec fn bisect_list(
    entries: Seq<(i32, u64)>,
    left: int,
    right: int,
    query: i32,
) -> Lookup
    decreases right - left,
{
    if left >= right {
        Lookup::Absent
    } else {
        let mid = (left + right) / 2;
        if entries[mid].0 == query {
            Lookup::Found(entries[mid].1)
        } else if entries[mid].0 < query {
            bisect_list(entries, mid + 1, right, query)
        } else {
            bisect_list(entries, left, mid, query)
        }
    }
}

/// Each entry of a list reads back as it was written.
proof fn lemma_pair_read(s: Seq<u8>, base: int, entries: Seq<(i32, u64)>, i: int)
    requires
        holds(s, base, pair_bytes(entries)),
        0 <= i < entries.len(),
    ensures
        ({
            let pos = base + pair_bytes(entries.take(i)).len();
            let delta = zigzag(entries[i].0.wrapping_sub(last_key(entries.take(i)))) as u64;
            let middle = pos + varint_bytes(delta as nat).len();
            &&& u64_varint_at(s, pos) == (Some(delta), middle)
            &&& u64_varint_at(s, middle) == (
                Some(entries[i].1),
                base + pair_bytes(entries.take(i + 1)).len(),
            )
        }),
    decreases entries.len(),
{
    let front = entries.drop_last();
    let last = entries.last();
    let prev = last_key(front);
    lemma_holds_split(s, base, pair_bytes(front), pair_entry(prev, last));
    if i < entries.len() - 1 {
        lemma_pair_read(s, base, front, i);
        assert(front.take(i) =~= entries.take(i));
        assert(front.take(i + 1) =~= entries.take(i + 1));
    } else {
        let pos = base + pair_bytes(front).len();
        let delta = zigzag(last.0.wrapping_sub(prev)) as u64;
        assert(entries.take(i) =~= front);
        assert(entries.take(i + 1) =~= entries);
        lemma_holds_split(s, pos, varint_bytes(delta as nat), varint_bytes(last.1 as nat));
        u64_varint_round_trip(s, pos, delta);
        u64_varint_round_trip(s, pos + varint_bytes(delta as nat).len(), last.1);
    }
}

proof fn lemma_pairs_step(
    s: Seq<u8>,
    pos: int,
    prev: i32,
    n: nat,
    delta: i32,
    middle: int,
    count: u64,
    end: int,
    rest: Seq<(i32, u64)>,
)
    requires
        n > 0,
        u64_varint_at(s, pos) == (Some(zigzag(delta) as u64), middle),
        u64_varint_at(s, middle) == (Some(count), end),
        pairs_at(s, end, prev.wrapping_add(delta), (n - 1) as nat) == Some(rest),
    ensures
        pairs_at(s, pos, prev, n) == Some(seq![(prev.wrapping_add(delta), count)] + rest),
{
    zigzag_round_trip(delta);
    let d = zigzag(delta) as u64;
    assert((d % 0x1_0000_0000) as u32 == zigzag(delta));
}

/// An entry takes a byte for each seven bits of the folded distance from the value before
/// it, or from zero, and for each seven bits of its count.
pub proof fn pairs_grow(entries: Seq<(i32, u64)>, entry: (i32, u64), distance: i32)
    requires
        distance == entry.0.wrapping_sub(
            if entries.len() == 0 {
                0
            } else {
                entries.last().0
            },
        ),
    ensures
        pair_bytes(Seq::empty()).len() == 0,
        pair_bytes(entries.push(entry)) == pair_bytes(entries) + varint_bytes(
            if distance < 0 {
                (-2 * distance - 1) as nat
            } else {
                (2 * distance) as nat
            },
        ) + varint_bytes(entry.1 as nat),
{
    assert(entries.push(entry).drop_last() =~= entries);
    assert(pair_bytes(entries.push(entry)) =~= pair_bytes(entries) + varint_bytes(
        zigzag(distance) as nat,
    ) + varint_bytes(entry.1 as nat));
}

/// A list reads back as it was written, from any of its entries on.
pub proof fn pairs_round_trip(s: Seq<u8>, base: int, entries: Seq<(i32, u64)>, from: nat)
    requires
        holds(s, base, pair_bytes(entries)),
        from <= entries.len(),
    ensures
        pairs_at(
            s,
            base + pair_bytes(entries.take(from as int)).len(),
            last_key(entries.take(from as int)),
            (entries.len() - from) as nat,
        ) == Some(entries.skip(from as int)),
    decreases entries.len() - from,
{
    if from < entries.len() {
        let i = from as int;
        let prev = last_key(entries.take(i));
        let (key, count) = entries[i];
        let delta = key.wrapping_sub(prev);
        let pos = base + pair_bytes(entries.take(i)).len();
        let middle = pos + varint_bytes(zigzag(delta) as nat).len();
        let end = base + pair_bytes(entries.take(i + 1)).len();
        lemma_pair_read(s, base, entries, i);
        difference_round_trip(key, prev);
        assert(last_key(entries.take(i + 1)) == key);
        pairs_round_trip(s, base, entries, from + 1);
        let n = (entries.len() - from) as nat;
        lemma_pairs_step(s, pos, prev, n, delta, middle, count, end, entries.skip(i + 1));
        assert(entries.skip(i) =~= seq![(key, count)] + entries.skip(i + 1));
    } else {
        assert(entries.skip(from as int) =~= Seq::empty());
    }
}

/// Halving a list in ascending order finds what the list says.
pub proof fn bisect_list_finds(
    entries: Seq<(i32, u64)>,
    left: int,
    right: int,
    query: i32,
)
    requires
        ascending(entries),
        0 <= left <= right <= entries.len(),
        forall|k: int| 0 <= k < left ==> (#[trigger] entries[k]).0 < query,
        forall|k: int| right <= k < entries.len() ==> (#[trigger] entries[k]).0 > query,
    ensures
        bisect_list(entries, left, right, query) == entry_for(entries, query),
    decreases right - left,
{
    if left < right {
        let mid = (left + right) / 2;
        if entries[mid].0 == query {
            lemma_entry_for(entries, mid);
        } else if entries[mid].0 < query {
            assert forall|k: int| 0 <= k < mid + 1 implies (#[trigger] entries[k]).0 < query by {
                if k < mid {
                    assert(entries[k].0 < entries[mid].0);
                }
            }
            bisect_list_finds(entries, mid + 1, right, query);
        } else {
            assert forall|k: int| mid <= k < entries.len() implies (#[trigger] entries[k]).0
                > query by {
                if mid < k {
                    assert(entries[mid].0 < entries[k].0);
                }
            }
            bisect_list_finds(entries, left, mid, query);
        }
    } else {
        assert(!has_key(entries, query));
    }
}

/// Appends a list.
pub fn push_pairs(out: &mut Vec<u8>, entries: &Vec<(i32, u64)>)
    ensures
        final(out)@ == old(out)@ + pair_bytes(entries@),
{
    let mut prev_key: i32 = 0;
    let mut k: usize = 0;
    while k < entries.len()
        invariant
            k <= entries@.len(),
            prev_key == last_key(entries@.take(k as int)),
            out@ == old(out)@ + pair_bytes(entries@.take(k as int)),
        decreases entries@.len() - k,
    {
        let (key, count) = entries[k];
        let ghost before = out@;
        encode_varint(zigzag_encode(key.wrapping_sub(prev_key)) as u64, out);
        encode_varint(count, out);
        proof {
            let next = entries@.take(k + 1);
            assert(next.drop_last() =~= entries@.take(k as int));
            assert(next.last() == entries@[k as int]);
            assert(out@ =~= before + pair_entry(prev_key, entries@[k as int]));
            assert(out@ =~= old(out)@ + pair_bytes(next));
        }
        prev_key = key;
        k = k + 1;
    }
    assert(entries@.take(k as int) =~= entries@);
}

/// Decodes a list of `n` entries from `pos` on.
pub fn read_pairs(index: &[u8], pos: usize, n: u64) -> (r: Option<Vec<(i32, u64)>>)
    ensures
        match r {
            None => pairs_at(index@, pos as int, 0, n as nat) is None,
            Some(entries) => pairs_at(index@, pos as int, 0, n as nat) == Some(entries@),
        },
{
    let mut entries: Vec<(i32, u64)> = Vec::new();
    let mut current_key: i32 = 0;
    let mut offset: usize = pos;
    let mut k: u64 = 0;
    assert(forall|rest: Seq<(i32, u64)>| #[trigger] (entries@ + rest) =~= rest);
    while k < n
        invariant
            k <= n,
            pairs_at(index@, pos as int, 0, n as nat) == match pairs_at(
                index@,
                offset as int,
                current_key,
                (n - k) as nat,
            ) {
                None => None,
                Some(rest) => Some(entries@ + rest),
            },
        decreases n - k,
    {
        let ghost start = offset as int;
        let ghost prev = current_key;
        let ghost before = entries@;
        match decode_varint(index, &mut offset) {
            None => {
                return None;
            },
            Some(delta) => {
                current_key = current_key.wrapping_add(
                    zigzag_decode((delta % 0x1_0000_0000) as u32),
                );
            },
        }
        match decode_varint(index, &mut offset) {
            None => {
                return None;
            },
            Some(count) => {
                entries.push((current_key, count));
                proof {
                    match pairs_at(index@, offset as int, current_key, (n - k - 1) as nat) {
                        None => {},
                        Some(rest) => {
                            assert(before + (seq![(current_key, count)] + rest) =~= entries@
                                + rest);
                        },
                    }
                }
            },
        }
        k = k + 1;
    }
    assert(entries@ + Seq::<(i32, u64)>::empty() =~= entries@);
    Some(entries)
}

/// Searches a list by halving.
pub fn search(entries: &Vec<(i32, u64)>, query: i32) -> (r: Lookup)
    ensures
        r == bisect_list(entries@, 0, entries@.len() as int, query),
{
    let mut left: usize = 0;
    let mut right: usize = entries.len();
    while left < right
        invariant
            left <= right <= entries@.len(),
            bisect_list(entries@, 0, entries@.len() as int, query) == bisect_list(
                entries@,
                left as int,
                right as int,
                query,
            ),
        decreases right - left,
    {
        let mid: usize = left + (right - left) / 2;
        assert(mid as int == (left + right) as int / 2);
        let (val, count) = entries[mid];
        if val == query {
            return Lookup::Found(count);
        } else if val < query {
            left = mid + 1;
        } else {
            right = mid;
        }
    }
    Lookup::Absent
}

} // verus!
