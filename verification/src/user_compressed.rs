//! A list of the values that occur often enough, in variable-length numbers.
use vstd::prelude::*;

use crate::bytes::{
    holds, into_boxed_slice, lemma_byte_held, lemma_holds_split, lemma_holds_whole, push_u32,
    read_u32, u32_at, u32_bytes, u32_round_trip,
};
use crate::double::Double;
use crate::exact::{lemma_unit, near_decimal, near_mul, near_of, scaled, unit, whole_parts_are_next};
use crate::pairs::{bisect_list, bisect_list_finds, search};
use crate::parameter::Parameter;
use crate::table::{lemma_entry_counted, partial, partial_answer};
use crate::tally::{
    ascending, ascending_entries, ascending_lists_agree, count_values, counted, distinct, has_key,
    is_tally, key_set, keys_differ, lemma_ascending_differ, lemma_few_values, lemma_key_set,
    lemma_lists_tally, lemma_missing_value, lemma_occurs, occurrences,
};
use crate::varint::{
    decode_u32, encode_u32, u32_varint_at, u32_varint_round_trip, unzigzag, varint_bytes, zigzag,
    zigzag_decode, zigzag_encode, zigzag_round_trip,
};

verus! {

pub const INDEX_VERSION: u8 = 2;

/// The greater of a factor and one.
pub open spec fn at_least_one(factor: i64) -> int {
    if factor < 1 {
        1
    } else {
        factor as int
    }
}

/// The number of occurrences from which on an entry of three bytes pays in a block of
/// `rows` values.
pub open spec fn paying_count(parameter: Parameter, rows: nat) -> nat {
    Double::spec_of(rows as int).spec_mul(
        Double::spec_of(at_least_one(parameter.factor_size)).spec_div(
            Double::spec_of(at_least_one(parameter.factor_skip)),
        ),
    ).spec_mul(Double::spec_decimal(3, 1024)).spec_ceil()
}

/// The number of occurrences from which on a value is listed: every value, where there
/// are few different ones.
pub open spec fn threshold(parameter: Parameter, rows: nat, distinct: nat) -> nat {
    let paying = paying_count(parameter, rows);
    if distinct <= 4096 || paying < 1 {
        1
    } else if paying > u32::MAX {
        u32::MAX as nat
    } else {
        paying
    }
}

/// Whether the entries are the values that occur at least `least` times, in ascending
/// order.
pub open spec fn is_kept(keep: Seq<(i32, u64)>, data: Seq<i32>, least: nat) -> bool {
    &&& ascending(keep)
    &&& counted(keep, data)
    &&& forall|v: i32| #[trigger]
        has_key(keep, v) <==> data.contains(v) && occurrences(data, v) >= least
}

/// The bytes of an entry.
pub open spec fn kept_entry(entry: (i32, u64)) -> Seq<u8> {
    varint_bytes(zigzag(entry.0) as nat) + varint_bytes(entry.1 as nat)
}

pub open spec fn kept_bytes(entries: Seq<(i32, u64)>) -> Seq<u8>
    decreases entries.len(),
{
    if entries.len() == 0 {
        Seq::empty()
    } else {
        kept_bytes(entries.drop_last()) + kept_entry(entries.last())
    }
}

/// The version, the number of entries modulo 2^32, and the list.
pub open spec fn kept_index(entries: Seq<(i32, u64)>) -> Seq<u8> {
    seq![INDEX_VERSION] + u32_bytes((entries.len() % 0x1_0000_0000) as u32) + kept_bytes(entries)
}

/// Whether `index` is the index of `data`.
pub open spec fn is_index(parameter: Parameter, data: Seq<i32>, index: Seq<u8>) -> bool {
    exists|keep: Seq<(i32, u64)>| #[trigger]
        is_kept(keep, data, threshold(parameter, data.len(), distinct(data))) && index
            == kept_index(keep)
}

/// The list of `n` entries from `pos` on, unless the bytes do not hold one.
pub open spec fn kept_at(s: Seq<u8>, pos: int, n: nat) -> Option<Seq<(i32, u64)>>
    decreases n,
{
    if n == 0 {
        Some(Seq::empty())
    } else {
        let (value, middle) = u32_varint_at(s, pos);
        match value {
            None => None,
            Some(v) => {
                let (count, end) = u32_varint_at(s, middle);
                match count {
                    None => None,
                    Some(c) => match kept_at(s, end, (n - 1) as nat) {
                        None => None,
                        Some(rest) => Some(seq![(unzigzag(v), c as u64)] + rest),
                    },
                }
            },
        }
    }
}

/// The answer that the bytes of an index give.
pub open spec fn answer(index: Seq<u8>, query: i32) -> Option<u64> {
    if index.len() < 5 || index[0] != INDEX_VERSION {
        None
    } else {
        match kept_at(index, 5, u32_at(index, 1) as nat) {
            None => None,
            Some(entries) => partial_answer(
                bisect_list(entries, 0, entries.len() as int, query),
            ),
        }
    }
}

/// Each entry of a list reads back as it was written.
proof fn lemma_kept_read(s: Seq<u8>, base: int, entries: Seq<(i32, u64)>, i: int)
    requires
        holds(s, base, kept_bytes(entries)),
        0 <= i < entries.len(),
        entries[i].1 <= u32::MAX,
    ensures
        ({
            let pos = base + kept_bytes(entries.take(i)).len();
            let middle = pos + varint_bytes(zigzag(entries[i].0) as nat).len();
            &&& u32_varint_at(s, pos) == (Some(zigzag(entries[i].0)), middle)
            &&& u32_varint_at(s, middle) == (
                Some(entries[i].1 as u32),
                base + kept_bytes(entries.take(i + 1)).len(),
            )
        }),
    decreases entries.len(),
{
    let front = entries.drop_last();
    let last = entries.last();
    lemma_holds_split(s, base, kept_bytes(front), kept_entry(last));
    if i < entries.len() - 1 {
        lemma_kept_read(s, base, front, i);
        assert(front.take(i) =~= entries.take(i));
        assert(front.take(i + 1) =~= entries.take(i + 1));
    } else {
        let pos = base + kept_bytes(front).len();
        let value = zigzag(last.0);
        assert(entries.take(i) =~= front);
        assert(entries.take(i + 1) =~= entries);
        lemma_holds_split(s, pos, varint_bytes(value as nat), varint_bytes(last.1 as nat));
        u32_varint_round_trip(s, pos, value);
        u32_varint_round_trip(s, pos + varint_bytes(value as nat).len(), last.1 as u32);
    }
}

proof fn lemma_kept_step(
    s: Seq<u8>,
    pos: int,
    n: nat,
    value: i32,
    middle: int,
    count: u32,
    end: int,
    rest: Seq<(i32, u64)>,
)
    requires
        n > 0,
        u32_varint_at(s, pos) == (Some(zigzag(value)), middle),
        u32_varint_at(s, middle) == (Some(count), end),
        kept_at(s, end, (n - 1) as nat) == Some(rest),
    ensures
        kept_at(s, pos, n) == Some(seq![(value, count as u64)] + rest),
{
    zigzag_round_trip(value);
}

/// An entry takes a byte for each seven bits of the folded value and of its count, behind
/// the version 2 and four bytes for the number of entries.
pub proof fn kept_grow(entries: Seq<(i32, u64)>, entry: (i32, u64))
    ensures
        kept_bytes(Seq::empty()).len() == 0,
        kept_bytes(entries.push(entry)) == kept_bytes(entries) + varint_bytes(
            if entry.0 < 0 {
                (-2 * entry.0 - 1) as nat
            } else {
                (2 * entry.0) as nat
            },
        ) + varint_bytes(entry.1 as nat),
        kept_index(entries).len() == 5 + kept_bytes(entries).len(),
        kept_index(entries)[0] == 2,
{
    assert(entries.push(entry).drop_last() =~= entries);
    assert(kept_bytes(entries.push(entry)) =~= kept_bytes(entries) + varint_bytes(
        zigzag(entry.0) as nat,
    ) + varint_bytes(entry.1 as nat));
}

/// A list of counts that fit in 32 bits reads back as it was written, from any of its
/// entries on.
pub proof fn kept_round_trip(s: Seq<u8>, base: int, entries: Seq<(i32, u64)>, from: nat)
    requires
        holds(s, base, kept_bytes(entries)),
        from <= entries.len(),
        forall|i: int| 0 <= i < entries.len() ==> (#[trigger] entries[i]).1 <= u32::MAX,
    ensures
        kept_at(
            s,
            base + kept_bytes(entries.take(from as int)).len(),
            (entries.len() - from) as nat,
        ) == Some(entries.skip(from as int)),
    decreases entries.len() - from,
{
    if from < entries.len() {
        let i = from as int;
        let (value, count) = entries[i];
        let pos = base + kept_bytes(entries.take(i)).len();
        let middle = pos + varint_bytes(zigzag(value) as nat).len();
        let end = base + kept_bytes(entries.take(i + 1)).len();
        lemma_kept_read(s, base, entries, i);
        kept_round_trip(s, base, entries, from + 1);
        let n = (entries.len() - from) as nat;
        lemma_kept_step(s, pos, n, value, middle, count as u32, end, entries.skip(i + 1));
        assert(entries.skip(i) =~= seq![(value, count)] + entries.skip(i + 1));
    } else {
        assert(entries.skip(from as int) =~= Seq::empty());
    }
}

proof fn lemma_kept_layout(index: Seq<u8>, keep: Seq<(i32, u64)>)
    requires
        index == kept_index(keep),
    ensures
        index.len() >= 5,
        index[0] == INDEX_VERSION,
        u32_at(index, 1) == keep.len() % 0x1_0000_0000,
        holds(index, 5, kept_bytes(keep)),
{
    let n = (keep.len() % 0x1_0000_0000) as u32;
    lemma_holds_whole(index);
    lemma_holds_split(index, 0, seq![INDEX_VERSION] + u32_bytes(n), kept_bytes(keep));
    lemma_holds_split(index, 0, seq![INDEX_VERSION], u32_bytes(n));
    lemma_byte_held(index, 0, INDEX_VERSION);
    u32_round_trip(index, 1, n);
}

proof fn lemma_kept_answers(
    index: Seq<u8>,
    keep: Seq<(i32, u64)>,
    data: Seq<i32>,
    least: nat,
    query: i32,
)
    requires
        forall|v: i32| #[trigger] occurrences(data, v) <= u32::MAX,
        is_kept(keep, data, least),
        keep.len() < 0x1_0000_0000,
        index.len() >= 5,
        index[0] == INDEX_VERSION,
        u32_at(index, 1) == keep.len(),
        holds(index, 5, kept_bytes(keep)),
    ensures
        answer(index, query) matches Some(count) ==> count == occurrences(data, query),
        answer(index, query) is Some <==> data.contains(query) && occurrences(data, query) >= least,
{
    assert forall|i: int| 0 <= i < keep.len() implies (#[trigger] keep[i]).1 <= u32::MAX by {
        assert(keep[i].1 == occurrences(data, keep[i].0));
    }
    assert(keep.take(0) =~= Seq::empty());
    assert(keep.skip(0) =~= keep);
    kept_round_trip(index, 5, keep, 0);
    bisect_list_finds(keep, 0, keep.len() as int, query);
    lemma_entry_counted(keep, data, query);
}

proof fn lemma_index_answers(
    index: Seq<u8>,
    keep: Seq<(i32, u64)>,
    data: Seq<i32>,
    least: nat,
    query: i32,
)
    requires
        forall|v: i32| #[trigger] occurrences(data, v) <= u32::MAX,
        is_kept(keep, data, least),
        least >= 1,
        index.len() >= 5,
        index[0] == INDEX_VERSION,
        u32_at(index, 1) == keep.len() % 0x1_0000_0000,
        holds(index, 5, kept_bytes(keep)),
    ensures
        answer(index, query) matches Some(count) ==> count == occurrences(data, query),
        answer(index, query) is Some ==> occurrences(data, query) >= least,
        (exists|v: i32| #[trigger] occurrences(data, v) < least) ==> (answer(index, query) is Some
            <==> occurrences(data, query) >= least),
{
    lemma_ascending_differ(keep);
    lemma_few_values(keep);
    lemma_occurs(data, query);
    if exists|v: i32| #[trigger] occurrences(data, v) < least {
        let missing = choose|v: i32| #[trigger] occurrences(data, v) < least;
        assert(!has_key(keep, missing));
        lemma_missing_value(keep, missing);
    }
    if keep.len() < 0x1_0000_0000 {
        lemma_kept_answers(index, keep, data, least, query);
    } else {
        assert(kept_at(index, 5, 0) == Some(Seq::<(i32, u64)>::empty()));
    }
}

/// An answer is the number of occurrences of a value that occurs often enough. All of
/// these values get one, unless every one of the 2^32 values is among them.
pub proof fn answers_are_counts(parameter: Parameter, data: Seq<i32>, index: Seq<u8>, query: i32)
    requires
        forall|v: i32| #[trigger] occurrences(data, v) <= u32::MAX,
        is_index(parameter, data, index),
    ensures
        answer(index, query) matches Some(count) ==> count == occurrences(data, query),
        answer(index, query) is Some ==> occurrences(data, query) >= threshold(
            parameter,
            data.len(),
            distinct(data),
        ),
        (exists|v: i32|
            #[trigger] occurrences(data, v) < threshold(parameter, data.len(), distinct(data)))
            ==> (answer(index, query) is Some <==> occurrences(data, query) >= threshold(
            parameter,
            data.len(),
            distinct(data),
        )),
{
    let least = threshold(parameter, data.len(), distinct(data));
    let keep = choose|keep: Seq<(i32, u64)>| #[trigger]
        is_kept(keep, data, least) && index == kept_index(keep);
    lemma_kept_layout(index, keep);
    lemma_index_answers(index, keep, data, least, query);
}

/// A list of values of a block is no longer than there are different ones.
proof fn lemma_kept_len(keep: Seq<(i32, u64)>, data: Seq<i32>)
    requires
        keys_differ(keep),
        counted(keep, data),
    ensures
        keep.len() <= distinct(data),
{
    let n = keep.len() as int;
    lemma_key_set(keep, n);
    vstd::seq_lib::seq_to_set_is_finite(data);
    assert(keep.take(n) =~= keep);
    assert forall|v: i32| #[trigger] key_set(keep, n).contains(v) implies data.to_set().contains(
        v,
    ) by {
        let i = choose|i: int| 0 <= i < keep.len() && (#[trigger] keep[i]).0 == v;
        assert(data.contains(keep[i].0));
    }
    vstd::set_lib::lemma_len_subset(key_set(keep, n), data.to_set());
}

proof fn lemma_answered_from(
    parameter: Parameter,
    data: Seq<i32>,
    index: Seq<u8>,
    query: i32,
    least: nat,
)
    requires
        forall|v: i32| #[trigger] occurrences(data, v) <= u32::MAX,
        distinct(data) < 0x1_0000_0000,
        is_index(parameter, data, index),
        least == threshold(parameter, data.len(), distinct(data)),
    ensures
        answer(index, query) matches Some(count) ==> count == occurrences(data, query),
        answer(index, query) is Some <==> data.contains(query) && occurrences(data, query) >= least,
{
    let keep = choose|keep: Seq<(i32, u64)>| #[trigger]
        is_kept(keep, data, least) && index == kept_index(keep);
    lemma_ascending_differ(keep);
    lemma_kept_len(keep, data);
    lemma_kept_layout(index, keep);
    lemma_kept_answers(index, keep, data, least, query);
}

/// Of a block with at most 4096 different values every value is answered with the number
/// of its occurrences, whatever the factors, and no other value is answered.
pub proof fn few_values_are_all_answered(
    parameter: Parameter,
    data: Seq<i32>,
    index: Seq<u8>,
    query: i32,
)
    requires
        forall|v: i32| #[trigger] occurrences(data, v) <= u32::MAX,
        distinct(data) <= 4096,
        is_index(parameter, data, index),
    ensures
        data.contains(query) ==> answer(index, query) == Some(occurrences(data, query) as u64),
        !data.contains(query) ==> answer(index, query) is None,
{
    lemma_occurs(data, query);
    lemma_answered_from(
        parameter,
        data,
        index,
        query,
        threshold(parameter, data.len(), distinct(data)),
    );
}

/// Of a block with more different values, those are answered that pay: an entry takes three
/// bytes, which cost `factor_size / 1024` each, and a scan that it saves earns `factor_skip`
/// for one row in so many. A factor below one counts as one. Rounding leaves open what is
/// within thirteen parts in 2^52 of the price.
pub proof fn paying_values_are_answered(
    parameter: Parameter,
    data: Seq<i32>,
    index: Seq<u8>,
    query: i32,
    size: nat,
    skip: nat,
)
    requires
        forall|v: i32| #[trigger] occurrences(data, v) <= u32::MAX,
        data.len() <= u64::MAX,
        4096 < distinct(data) < 0x1_0000_0000,
        is_index(parameter, data, index),
        size == if parameter.factor_size < 1 {
            1
        } else {
            parameter.factor_size as nat
        },
        skip == if parameter.factor_skip < 1 {
            1
        } else {
            parameter.factor_skip as nat
        },
    ensures
        !data.contains(query) ==> answer(index, query) is None,
        data.contains(query) && data.len() * size * 3 * 0x10_0000_0000_000d <= occurrences(
            data,
            query,
        ) * (skip * 1024) * 0x10_0000_0000_0000 ==> answer(index, query) == Some(
            occurrences(data, query) as u64,
        ),
        occurrences(data, query) < u32::MAX && occurrences(data, query) * (skip * 1024)
            * 0x10_0000_0000_0000 < data.len() * size * 3 * 0xf_ffff_ffff_fff3 ==> answer(
            index,
            query,
        ) is None,
{
    let rows = data.len();
    let c = occurrences(data, query);
    lemma_occurs(data, query);
    lemma_answered_from(
        parameter,
        data,
        index,
        query,
        threshold(parameter, rows, distinct(data)),
    );
    lemma_price(parameter, rows, size, skip, c);
}

proof fn lemma_price(parameter: Parameter, rows: nat, size: nat, skip: nat, c: nat)
    requires
        rows <= u64::MAX,
        size == at_least_one(parameter.factor_size),
        skip == at_least_one(parameter.factor_skip),
    ensures
        rows * size * 3 * 0x10_0000_0000_000d <= c * (skip * 1024) * 0x10_0000_0000_0000
            ==> paying_count(parameter, rows) <= c,
        c * (skip * 1024) * 0x10_0000_0000_0000 < rows * size * 3 * 0xf_ffff_ffff_fff3 ==> c
            < paying_count(parameter, rows),
{
    let r = Double::spec_of(rows as int);
    let q = Double::spec_of(size as int).spec_div(Double::spec_of(skip as int));
    let t = Double::spec_decimal(3, 1024);
    near_of(rows);
    near_decimal(size, skip);
    near_decimal(3, 1024);
    Double::lemma_of_within(rows as int);
    near_mul(r, rows, 1, 1, q, size, skip, 4);
    Double::lemma_mul_within(r, q, 157, 157);
    assert(1 * skip == skip) by (nonlinear_arith);
    near_mul(r.spec_mul(q), rows * size, skip, 7, t, 3, 1024, 4);
    let x = r.spec_mul(q).spec_mul(t);
    Double::lemma_mul_within(r.spec_mul(q), t, 368, 157);
    whole_parts_are_next(x);
    lemma_unit();
    let u = unit() as int;
    let v = scaled(x);
    let p = 0x10_0000_0000_0000int;
    let n = (rows * size * 3) as int;
    let d = (skip * 1024) as int;
    let k = paying_count(parameter, rows) as int;
    assert(d > 0);
    if n * 0x10_0000_0000_000d <= c * d * p && k > c {
        // c d p >= n (p + 13), so x <= c
        assert(v * d * p <= (c * d * p) * u) by (nonlinear_arith)
            requires
                (v * d) * p <= (n * u) * 0x10_0000_0000_000d,
                n * 0x10_0000_0000_000d <= c * d * p,
                u > 0,
        ;
        assert(v <= c * u) by (nonlinear_arith)
            requires
                v * d * p <= (c * d * p) * u,
                d > 0,
                p > 0,
        ;
        assert(c * u <= (k - 1) * u) by (nonlinear_arith)
            requires
                c <= k - 1,
                u > 0,
        ;
    }
    if c * d * p < n * 0xf_ffff_ffff_fff3 && k <= c {
        assert((c * d * p) * u < v * d * p) by (nonlinear_arith)
            requires
                (n * u) * 0xf_ffff_ffff_fff3 <= (v * d) * p,
                c * d * p < n * 0xf_ffff_ffff_fff3,
                u > 0,
        ;
        assert(c * u < v) by (nonlinear_arith)
            requires
                (c * d * p) * u < v * d * p,
                d > 0,
                p > 0,
        ;
        assert(k * u <= c * u) by (nonlinear_arith)
            requires
                k <= c,
                u > 0,
        ;
    }
}

/// A block has one index.
pub proof fn index_is_unique(parameter: Parameter, data: Seq<i32>, a: Seq<u8>, b: Seq<u8>)
    requires
        is_index(parameter, data, a),
        is_index(parameter, data, b),
    ensures
        a == b,
{
    let least = threshold(parameter, data.len(), distinct(data));
    let x = choose|keep: Seq<(i32, u64)>| #[trigger]
        is_kept(keep, data, least) && a == kept_index(keep);
    let y = choose|keep: Seq<(i32, u64)>| #[trigger]
        is_kept(keep, data, least) && b == kept_index(keep);
    ascending_lists_agree(x, y, data);
}

/// The number of occurrences from which on a value is listed.
fn calculate_threshold(parameter: &Parameter, rows: usize, distinct_count: usize) -> (least: u32)
    ensures
        least == threshold(*parameter, rows as nat, distinct_count as nat),
        least >= 1,
{
    if distinct_count <= 4096 {
        return 1;
    }
    let size: u64 = if parameter.factor_size < 1 {
        1
    } else {
        parameter.factor_size as u64
    };
    let skip: u64 = if parameter.factor_skip < 1 {
        1
    } else {
        parameter.factor_skip as u64
    };
    let fs = Double::of_u64(size);
    let fa = Double::of_u64(skip);
    let n_rows = Double::of_u64(rows as u64);
    let kilobytes = Double::decimal(3, 1024);
    proof {
        Double::lemma_div_within(fs, fa, 52, 52);
        let ratio = fs.spec_div(fa);
        Double::lemma_mul_within(n_rows, ratio, 52, 157);
        Double::lemma_mul_within(n_rows.spec_mul(ratio), kilobytes, 263, 157);
    }
    let paying = n_rows.mul(fs.div(fa)).mul(kilobytes).ceil();
    if paying < 1 {
        1
    } else if paying > u32::MAX as u64 {
        u32::MAX
    } else {
        paying as u32
    }
}

/// Keeps the entries with a count of at least `least`.
fn keep_frequent(entries: &Vec<(i32, u64)>, least: u32, Ghost(data): Ghost<Seq<i32>>) -> (keep: Vec<
    (i32, u64),
>)
    requires
        is_tally(entries@, data),
        ascending(entries@),
        least >= 1,
    ensures
        is_kept(keep@, data, least as nat),
{
    let mut keep: Vec<(i32, u64)> = Vec::new();
    let mut i: usize = 0;
    while i < entries.len()
        invariant
            i <= entries@.len(),
            ascending(entries@),
            counted(entries@, data),
            ascending(keep@),
            counted(keep@, data),
            forall|j: int, k: int|
                0 <= j < keep@.len() && i <= k < entries@.len() ==> (#[trigger] keep@[j]).0 < (
                #[trigger] entries@[k]).0,
            forall|j: int| 0 <= j < keep@.len() ==> (#[trigger] keep@[j]).1 >= least,
            forall|k: int|
                0 <= k < i && (#[trigger] entries@[k]).1 >= least ==> has_key(
                    keep@,
                    entries@[k].0,
                ),
        decreases entries@.len() - i,
    {
        let (val, count) = entries[i];
        let ghost before = keep@;
        if count >= least as u64 {
            keep.push((val, count));
            proof {
                assert(keep@[before.len() as int] == entries@[i as int]);
                assert forall|k: int| 0 <= k < i + 1 && (#[trigger] entries@[k]).1
                    >= least implies has_key(keep@, entries@[k].0) by {
                    if k < i {
                        assert(has_key(before, entries@[k].0));
                        let j = choose|j: int|
                            0 <= j < before.len() && (#[trigger] before[j]).0 == entries@[k].0;
                        assert(keep@[j].0 == entries@[k].0);
                    }
                }
            }
        }
        i = i + 1;
    }
    proof {
        assert forall|v: i32| #[trigger] has_key(keep@, v) <==> data.contains(v) && occurrences(
            data,
            v,
        ) >= least by {
            if has_key(keep@, v) {
                let j = choose|j: int| 0 <= j < keep@.len() && (#[trigger] keep@[j]).0 == v;
                assert(data.contains(keep@[j].0));
            }
            if data.contains(v) && occurrences(data, v) >= least {
                assert(has_key(entries@, v));
                let k = choose|k: int| 0 <= k < entries@.len() && (#[trigger] entries@[k]).0 == v;
                assert(entries@[k].1 >= least);
            }
        }
    }
    keep
}

/// Appends a list of counts that fit in 32 bits.
fn push_kept(out: &mut Vec<u8>, entries: &Vec<(i32, u64)>)
    requires
        forall|i: int| 0 <= i < entries@.len() ==> (#[trigger] entries@[i]).1 <= u32::MAX,
    ensures
        final(out)@ == old(out)@ + kept_bytes(entries@),
{
    let mut k: usize = 0;
    while k < entries.len()
        invariant
            k <= entries@.len(),
            forall|i: int| 0 <= i < entries@.len() ==> (#[trigger] entries@[i]).1 <= u32::MAX,
            out@ == old(out)@ + kept_bytes(entries@.take(k as int)),
        decreases entries@.len() - k,
    {
        let (val, count) = entries[k];
        let ghost before = out@;
        assert(entries@[k as int].1 <= u32::MAX);
        encode_u32(zigzag_encode(val), out);
        encode_u32(count as u32, out);
        proof {
            let next = entries@.take(k + 1);
            assert(next.drop_last() =~= entries@.take(k as int));
            assert(next.last() == entries@[k as int]);
            assert(out@ =~= before + kept_entry(entries@[k as int]));
            assert(out@ =~= old(out)@ + kept_bytes(next));
        }
        k = k + 1;
    }
    assert(entries@.take(k as int) =~= entries@);
}

/// Bytes that are no index, or stop short of its header, tell nothing.
pub proof fn damaged_indexes_tell_nothing(index: Seq<u8>, query: i32)
    ensures
        index.len() == 0 ==> answer(index, query) is None,
        index.len() > 0 && index[0] != 2 ==> answer(index, query) is None,
        0 < index.len() < 5 && index[0] == 2 ==> answer(index, query) is None,
{
}

/// Builds the index of a block in which no value occurs more than 2^32 - 1 times.
pub fn build_idx(parameter: &Parameter, data: &[i32]) -> (index: Box<[u8]>)
    requires
        forall|v: i32| #[trigger] occurrences(data@, v) <= u32::MAX,
    ensures
        is_index(*parameter, data@, index@),
{
    let freq = count_values(data);
    let least = calculate_threshold(parameter, data.len(), freq.len());
    let entries = ascending_entries(&freq);
    proof {
        lemma_lists_tally(entries@, freq@, data@);
    }
    let keep = keep_frequent(&entries, least, Ghost(data@));
    proof {
        assert forall|i: int| 0 <= i < keep@.len() implies (#[trigger] keep@[i]).1 <= u32::MAX by {
            assert(keep@[i].1 == occurrences(data@, keep@[i].0));
        }
    }
    let mut out: Vec<u8> = Vec::new();
    out.push(INDEX_VERSION);
    push_u32(&mut out, (keep.len() as u64 % 0x1_0000_0000) as u32);
    push_kept(&mut out, &keep);
    assert(out@ =~= kept_index(keep@));
    into_boxed_slice(out)
}

/// Decodes a list of `n` entries from `pos` on.
fn read_kept(index: &[u8], pos: usize, n: u32) -> (r: Option<Vec<(i32, u64)>>)
    ensures
        match r {
            None => kept_at(index@, pos as int, n as nat) is None,
            Some(entries) => kept_at(index@, pos as int, n as nat) == Some(entries@),
        },
{
    let mut entries: Vec<(i32, u64)> = Vec::new();
    let mut offset: usize = pos;
    let mut k: u32 = 0;
    assert(forall|rest: Seq<(i32, u64)>| #[trigger] (entries@ + rest) =~= rest);
    while k < n
        invariant
            k <= n,
            kept_at(index@, pos as int, n as nat) == match kept_at(
                index@,
                offset as int,
                (n - k) as nat,
            ) {
                None => None,
                Some(rest) => Some(entries@ + rest),
            },
        decreases n - k,
    {
        let ghost before = entries@;
        let val = match decode_u32(index, &mut offset) {
            None => {
                return None;
            },
            Some(encoded) => zigzag_decode(encoded),
        };
        match decode_u32(index, &mut offset) {
            None => {
                return None;
            },
            Some(count) => {
                entries.push((val, count as u64));
                proof {
                    match kept_at(index@, offset as int, (n - k - 1) as nat) {
                        None => {},
                        Some(rest) => {
                            assert(before + (seq![(val, count as u64)] + rest) =~= entries@ + rest);
                        },
                    }
                }
            },
        }
        k = k + 1;
    }
    assert(entries@ + Seq::<(i32, u64)>::empty() =~= entries@);
    Some(entries)
}

/// Answers a query from the bytes of an index, where they tell.
pub fn query_idx(_parameter: &Parameter, index: &[u8], query: &i32) -> (r: Option<u64>)
    ensures
        r == answer(index@, *query),
{
    if index.len() < 5 {
        return None;
    }
    let version = index[0];
    let num_entries = read_u32(index, 1);
    if version != INDEX_VERSION {
        return None;
    }
    match read_kept(index, 5, num_entries) {
        None => None,
        Some(pairs) => partial(search(&pairs, *query)),
    }
}

} // verus!
