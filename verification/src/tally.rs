//! How often each value occurs in a block.
use std::collections::HashMap;
use vstd::prelude::*;
use vstd::std_specs::iter::IteratorSpec;

use crate::sort::{sort, Ranking};

verus! {

/// The number of positions at which `v` stands in `data`.
pub open spec fn occurrences(data: Seq<i32>, v: i32) -> nat
    decreases data.len(),
{
    if data.len() == 0 {
        0
    } else {
        occurrences(data.drop_last(), v) + (if data.last() == v {
            1nat
        } else {
            0nat
        })
    }
}

/// The number of different values in `data`.
pub open spec fn distinct(data: Seq<i32>) -> nat {
    data.to_set().len()
}

/// The least value of a nonempty block.
pub open spec fn lowest(data: Seq<i32>) -> i32
    decreases data.len(),
{
    if data.len() <= 1 || data.last() < lowest(data.drop_last()) {
        data.last()
    } else {
        lowest(data.drop_last())
    }
}

/// The greatest value of a nonempty block.
pub open spec fn highest(data: Seq<i32>) -> i32
    decreases data.len(),
{
    if data.len() <= 1 || data.last() > highest(data.drop_last()) {
        data.last()
    } else {
        highest(data.drop_last())
    }
}

/// Whether the map takes exactly the values of `data` to their counts.
pub open spec fn is_count_map(m: Map<i32, u64>, data: Seq<i32>) -> bool {
    &&& forall|v: i32| #[trigger] m.contains_key(v) <==> data.contains(v)
    &&& forall|v: i32| #[trigger] m.contains_key(v) ==> m[v] == occurrences(data, v)
}

/// Whether the entries are those of the map, each once.
pub open spec fn lists(entries: Seq<(i32, u64)>, m: Map<i32, u64>) -> bool {
    &&& keys_differ(entries)
    &&& forall|i: int|
        0 <= i < entries.len() ==> m.contains_key((#[trigger] entries[i]).0) && m[entries[i].0]
            == entries[i].1
    &&& forall|v: i32| #[trigger] m.contains_key(v) ==> has_key(entries, v)
}

/// The count of a value, zero where it has none.
pub open spec fn count_in(m: Map<i32, u64>, v: i32) -> u64 {
    if m.contains_key(v) {
        m[v]
    } else {
        0
    }
}

/// Whether every key of the map lies in the range.
pub open spec fn keys_in_range(m: Map<i32, u64>, min_val: i32, max_val: i32) -> bool {
    forall|v: i32| #[trigger] m.contains_key(v) ==> min_val <= v <= max_val
}

/// The counts of the values of a block.
pub open spec fn histogram(data: Seq<i32>) -> Map<i32, u64> {
    Map::new(|v: i32| data.contains(v), |v: i32| occurrences(data, v) as u64)
}

/// Whether some entry has the key `v`.
pub open spec fn has_key(entries: Seq<(i32, u64)>, v: i32) -> bool {
    exists|i: int| 0 <= i < entries.len() && (#[trigger] entries[i]).0 == v
}

pub open spec fn keys_differ(entries: Seq<(i32, u64)>) -> bool {
    forall|i: int, j: int|
        0 <= i < j < entries.len() ==> (#[trigger] entries[i]).0 != (#[trigger] entries[j]).0
}

/// Whether each entry is a value of `data` with its count.
pub open spec fn counted(entries: Seq<(i32, u64)>, data: Seq<i32>) -> bool {
    forall|i: int|
        0 <= i < entries.len() ==> data.contains((#[trigger] entries[i]).0) && entries[i].1
            == occurrences(data, entries[i].0)
}

/// Whether the entries list every value of `data` once, with its count.
pub open spec fn is_tally(entries: Seq<(i32, u64)>, data: Seq<i32>) -> bool {
    &&& keys_differ(entries)
    &&& counted(entries, data)
    &&& forall|v: i32| #[trigger] data.contains(v) ==> has_key(entries, v)
}

pub open spec fn ascending(entries: Seq<(i32, u64)>) -> bool {
    forall|i: int, j: int|
        0 <= i < j < entries.len() ==> (#[trigger] entries[i]).0 < (#[trigger] entries[j]).0
}

/// Whether the counts never rise along the entries.
pub open spec fn most_frequent_first(entries: Seq<(i32, u64)>) -> bool {
    forall|i: int, j: int|
        0 <= i <= j < entries.len() ==> (#[trigger] entries[i]).1 >= (#[trigger] entries[j]).1
}

/// Whether the entries are `k` most frequent values of `data` (all of them
/// where there are no more), with their counts: no value that is left out
/// occurs more often than one that is listed.
pub open spec fn is_top(top: Seq<(i32, u64)>, k: nat, data: Seq<i32>) -> bool {
    &&& top.len() == if k < distinct(data) {
        k
    } else {
        distinct(data)
    }
    &&& keys_differ(top)
    &&& counted(top, data)
    &&& forall|v: i32, i: int|
        data.contains(v) && !has_key(top, v) && 0 <= i < top.len() ==> #[trigger] occurrences(
            data,
            v,
        ) <= (#[trigger] top[i]).1
}

/// Whether the entries are `k` most frequent keys of a map (all of them where there are
/// no more), with their counts: no key that is left out has a greater count than one
/// that is listed.
pub open spec fn is_top_of(top: Seq<(i32, u64)>, k: nat, m: Map<i32, u64>) -> bool {
    &&& top.len() == if k < m.len() {
        k
    } else {
        m.len()
    }
    &&& keys_differ(top)
    &&& forall|i: int|
        0 <= i < top.len() ==> m.contains_key((#[trigger] top[i]).0) && m[top[i].0] == top[i].1
    &&& forall|v: i32, i: int| #[trigger]
        m.contains_key(v) && !has_key(top, v) && 0 <= i < top.len() ==> m[v] <= (
        #[trigger] top[i]).1
}

/// The sum of the counts of the first `n` entries.
pub open spec fn count_sum(entries: Seq<(i32, u64)>, n: nat) -> nat
    decreases n,
{
    if n == 0 {
        0
    } else {
        count_sum(entries, (n - 1) as nat) + (if n <= entries.len() {
            entries[n - 1].1 as nat
        } else {
            0nat
        })
    }
}

pub proof fn lemma_occurs(data: Seq<i32>, v: i32)
    ensures
        data.contains(v) <==> occurrences(data, v) > 0,
        occurrences(data, v) <= data.len(),
    decreases data.len(),
{
    if data.len() > 0 {
        lemma_occurs(data.drop_last(), v);
        if data.contains(v) && data.last() != v {
            let i = choose|i: int| 0 <= i < data.len() && data[i] == v;
            assert(data.drop_last()[i] == v);
        }
        if data.drop_last().contains(v) {
            let i = choose|i: int| 0 <= i < data.drop_last().len() && data.drop_last()[i] == v;
            assert(data[i] == v);
        }
        if data.last() == v {
            assert(data[data.len() - 1] == v);
        }
    }
}

/// Every value of a block lies between its lowest and its highest, which are
/// values of the block.
pub proof fn range_covers(data: Seq<i32>)
    requires
        data.len() > 0,
    ensures
        data.contains(lowest(data)),
        data.contains(highest(data)),
        forall|v: i32| #[trigger] data.contains(v) ==> lowest(data) <= v <= highest(data),
    decreases data.len(),
{
    let rest = data.drop_last();
    if data.len() > 1 {
        range_covers(rest);
        let i = choose|i: int| 0 <= i < rest.len() && rest[i] == lowest(rest);
        assert(data[i] == lowest(rest));
        let j = choose|j: int| 0 <= j < rest.len() && rest[j] == highest(rest);
        assert(data[j] == highest(rest));
    }
    assert(data[data.len() - 1] == data.last());
    assert forall|v: i32| #[trigger] data.contains(v) implies lowest(data) <= v <= highest(
        data,
    ) by {
        let k = choose|k: int| 0 <= k < data.len() && data[k] == v;
        if k < data.len() - 1 {
            assert(rest[k] == v);
            assert(rest.contains(v));
        }
    }
}

pub proof fn lemma_ascending_differ(entries: Seq<(i32, u64)>)
    requires
        ascending(entries),
    ensures
        keys_differ(entries),
{
}

/// A tally has as many entries as there are different values.
pub proof fn tally_has_distinct_entries(entries: Seq<(i32, u64)>, data: Seq<i32>)
    requires
        is_tally(entries, data),
    ensures
        entries.len() == distinct(data),
{
    let keys = entries.map_values(|e: (i32, u64)| e.0);
    assert(keys.no_duplicates());
    keys.unique_seq_to_set();
    assert forall|v: i32| keys.to_set().contains(v) <==> data.to_set().contains(v) by {
        if keys.contains(v) {
            let i = choose|i: int| 0 <= i < keys.len() && keys[i] == v;
            assert(entries[i].0 == v);
        }
        if data.contains(v) {
            assert(has_key(entries, v));
            let i = choose|i: int| 0 <= i < entries.len() && (#[trigger] entries[i]).0 == v;
            assert(keys[i] == v);
        }
    }
    assert(keys.to_set() =~= data.to_set());
}

/// There are no more different values than the range of a block has places.
pub proof fn distinct_fits_range(data: Seq<i32>)
    requires
        data.len() > 0,
    ensures
        0 < distinct(data) <= highest(data) - lowest(data) + 1,
{
    range_covers(data);
    let values = data.to_set();
    let lo = lowest(data) as int;
    let hi = highest(data) as int;
    vstd::seq_lib::seq_to_set_is_finite(data);
    vstd::set_lib::lemma_int_range(lo, hi + 1);
    let as_ints = values.map(|v: i32| v as int);
    vstd::set_lib::lemma_map_size(values, as_ints, |v: i32| v as int);
    assert(as_ints.subset_of(vstd::set_lib::set_int_range(lo, hi + 1)));
    vstd::set_lib::lemma_len_subset(as_ints, vstd::set_lib::set_int_range(lo, hi + 1));
    assert(values.contains(lowest(data)));
    if values.len() == 0 {
        assert(values =~= Set::empty());
    }
}

pub proof fn lemma_distinct_empty(data: Seq<i32>)
    requires
        data.len() == 0,
    ensures
        distinct(data) == 0,
{
    data.unique_seq_to_set();
}

/// Two lists in ascending order of the same values of a block are the same.
pub proof fn ascending_lists_agree(a: Seq<(i32, u64)>, b: Seq<(i32, u64)>, data: Seq<i32>)
    requires
        ascending(a),
        ascending(b),
        counted(a, data),
        counted(b, data),
        forall|v: i32| #[trigger] has_key(a, v) <==> has_key(b, v),
    ensures
        a == b,
{
    lemma_key_set(a, a.len() as int);
    lemma_key_set(b, b.len() as int);
    assert(a.take(a.len() as int) =~= a);
    assert(b.take(b.len() as int) =~= b);
    assert(key_set(a, a.len() as int) =~= key_set(b, b.len() as int));
    assert forall|i: int| 0 <= i < a.len() implies a[i] == b[i] by {
        lemma_ascending_agree(a, b, data, i);
    }
    assert(a =~= b);
}

/// Two tallies of one block in ascending order are the same.
pub proof fn ascending_tally_is_unique(
    a: Seq<(i32, u64)>,
    b: Seq<(i32, u64)>,
    data: Seq<i32>,
)
    requires
        is_tally(a, data),
        is_tally(b, data),
        ascending(a),
        ascending(b),
    ensures
        a == b,
{
    assert forall|v: i32| #[trigger] has_key(a, v) <==> has_key(b, v) by {
        if has_key(a, v) {
            let i = choose|i: int| 0 <= i < a.len() && (#[trigger] a[i]).0 == v;
            assert(data.contains(a[i].0));
        }
        if has_key(b, v) {
            let i = choose|i: int| 0 <= i < b.len() && (#[trigger] b[i]).0 == v;
            assert(data.contains(b[i].0));
        }
    }
    ascending_lists_agree(a, b, data);
}

/// The different values of the block in ascending order.
pub open spec fn values_in_order(data: Seq<i32>) -> Seq<i32> {
    data.to_set().to_sorted_seq(|a: i32, b: i32| a <= b)
}

/// The tally of the block in ascending order.
pub open spec fn in_order(data: Seq<i32>) -> Seq<(i32, u64)> {
    values_in_order(data).map_values(|v: i32| (v, occurrences(data, v) as u64))
}

proof fn lemma_set_to_seq(values: Set<i32>)
    requires
        values.finite(),
    ensures
        values.to_seq().no_duplicates(),
        values.to_seq().to_set() == values,
{
    lemma_to_seq_len(values);
    values.lemma_to_seq_to_set_id();
    values.to_seq().lemma_no_dup_set_cardinality();
}

proof fn lemma_to_seq_len(values: Set<i32>)
    requires
        values.finite(),
    ensures
        values.to_seq().len() == values.len(),
    decreases values.len(),
{
    if values.len() > 0 {
        let x = values.choose();
        lemma_to_seq_len(values.remove(x));
    }
}

proof fn lemma_values_in_order(data: Seq<i32>)
    ensures
        forall|i: int, j: int|
            0 <= i < j < values_in_order(data).len() ==> (#[trigger] values_in_order(data)[i]) < (
            #[trigger] values_in_order(data)[j]),
        forall|v: i32| #[trigger] values_in_order(data).contains(v) <==> data.contains(v),
{
    broadcast use vstd::seq_lib::group_to_multiset_ensures;

    let leq = |a: i32, b: i32| a <= b;
    vstd::seq_lib::seq_to_set_is_finite(data);
    let unsorted = data.to_set().to_seq();
    let sorted = values_in_order(data);
    lemma_set_to_seq(data.to_set());
    assert(vstd::relations::total_ordering(leq));
    unsorted.lemma_sort_by_ensures(leq);
    unsorted.lemma_multiset_has_no_duplicates();
    sorted.lemma_multiset_has_no_duplicates_conv();
    assert forall|i: int, j: int| 0 <= i < j < sorted.len() implies (#[trigger] sorted[i]) < (
    #[trigger] sorted[j]) by {
        assert(leq(sorted[i], sorted[j]));
    }
    assert forall|v: i32| #[trigger] sorted.contains(v) <==> data.contains(v) by {
        assert(sorted.contains(v) <==> sorted.to_multiset().count(v) > 0);
        assert(unsorted.contains(v) <==> unsorted.to_multiset().count(v) > 0);
        assert(unsorted.contains(v) <==> unsorted.to_set().contains(v));
        assert(data.contains(v) <==> data.to_set().contains(v));
    }
}

/// The tally in ascending order is one.
pub proof fn in_order_is_tally(data: Seq<i32>)
    requires
        forall|v: i32| #[trigger] data.contains(v) ==> occurrences(data, v) <= u64::MAX,
    ensures
        is_tally(in_order(data), data),
        ascending(in_order(data)),
{
    let values = values_in_order(data);
    let entries = in_order(data);
    lemma_values_in_order(data);
    assert forall|i: int| 0 <= i < entries.len() implies data.contains((#[trigger] entries[i]).0)
        && entries[i].1 == occurrences(data, entries[i].0) by {
        assert(values.contains(values[i]));
    }
    assert forall|i: int, j: int| 0 <= i < j < entries.len() implies (#[trigger] entries[i]).0 < (
    #[trigger] entries[j]).0 by {
        assert(values[i] < values[j]);
    }
    assert forall|v: i32| #[trigger] data.contains(v) implies has_key(entries, v) by {
        assert(values.contains(v));
        let i = choose|i: int| 0 <= i < values.len() && values[i] == v;
        assert(entries[i].0 == v);
    }
}

/// Any tally in ascending order is that one.
pub proof fn lemma_in_order(entries: Seq<(i32, u64)>, data: Seq<i32>)
    requires
        is_tally(entries, data),
        ascending(entries),
    ensures
        in_order(data) == entries,
{
    assert forall|v: i32| #[trigger] data.contains(v) implies occurrences(data, v) <= u64::MAX by {
        assert(has_key(entries, v));
    }
    in_order_is_tally(data);
    ascending_tally_is_unique(entries, in_order(data), data);
}

proof fn lemma_ascending_agree(
    a: Seq<(i32, u64)>,
    b: Seq<(i32, u64)>,
    data: Seq<i32>,
    i: int,
)
    requires
        ascending(a),
        ascending(b),
        counted(a, data),
        counted(b, data),
        forall|v: i32| #[trigger] has_key(a, v) <==> has_key(b, v),
        a.len() == b.len(),
        0 <= i < a.len(),
    ensures
        a[i] == b[i],
    decreases i,
{
    assert forall|k: int| 0 <= k < i implies a[k] == b[k] by {
        lemma_ascending_agree(a, b, data, k);
    }
    assert(has_key(a, a[i].0));
    assert(has_key(b, b[i].0) && has_key(a, b[i].0));
    let p = choose|p: int| 0 <= p < b.len() && (#[trigger] b[p]).0 == a[i].0;
    let q = choose|q: int| 0 <= q < a.len() && (#[trigger] a[q]).0 == b[i].0;
    if p < i {
        assert(a[p] == b[p]);
    }
    if q < i {
        assert(a[q] == b[q]);
    }
}

/// Rearranged entries keep their keys apart.
pub proof fn lemma_sorted_differ(a: Seq<(i32, u64)>, b: Seq<(i32, u64)>)
    requires
        a.to_multiset() == b.to_multiset(),
        keys_differ(a),
    ensures
        keys_differ(b),
        a.len() == b.len(),
        forall|x: (i32, u64)| #[trigger] a.contains(x) <==> b.contains(x),
        forall|v: i32| #[trigger] has_key(a, v) <==> has_key(b, v),
{
    broadcast use vstd::seq_lib::group_to_multiset_ensures;

    assert(a.no_duplicates());
    a.lemma_multiset_has_no_duplicates();
    b.lemma_multiset_has_no_duplicates_conv();
    assert(a.len() == a.to_multiset().len());
    assert(b.len() == b.to_multiset().len());
    assert forall|x: (i32, u64)| #[trigger] a.contains(x) <==> b.contains(x) by {
        assert(a.contains(x) <==> a.to_multiset().count(x) > 0);
        assert(b.contains(x) <==> b.to_multiset().count(x) > 0);
    }
    assert forall|i: int, j: int| 0 <= i < j < b.len() implies (#[trigger] b[i]).0 != (
    #[trigger] b[j]).0 by {
        if b[i].0 == b[j].0 {
            assert(b.contains(b[i]) && b.contains(b[j]));
            assert(a.contains(b[i]) && a.contains(b[j]));
            let p = choose|p: int| 0 <= p < a.len() && a[p] == b[i];
            let q = choose|q: int| 0 <= q < a.len() && a[q] == b[j];
            if p < q {
                assert(a[p].0 != a[q].0);
            } else if q < p {
                assert(a[q].0 != a[p].0);
            }
            assert(b[i] == b[j]);
        }
    }
    assert forall|v: i32| #[trigger] has_key(a, v) <==> has_key(b, v) by {
        if has_key(a, v) {
            let i = choose|i: int| 0 <= i < a.len() && (#[trigger] a[i]).0 == v;
            assert(a.contains(a[i]));
            assert(b.contains(a[i]));
            let j = choose|j: int| 0 <= j < b.len() && b[j] == a[i];
            assert(b[j].0 == v);
        }
        if has_key(b, v) {
            let i = choose|i: int| 0 <= i < b.len() && (#[trigger] b[i]).0 == v;
            assert(b.contains(b[i]));
            assert(a.contains(b[i]));
            let j = choose|j: int| 0 <= j < a.len() && a[j] == b[i];
            assert(a[j].0 == v);
        }
    }
}

pub proof fn lemma_lists_rearranged(
    a: Seq<(i32, u64)>,
    b: Seq<(i32, u64)>,
    m: Map<i32, u64>,
)
    requires
        a.to_multiset() == b.to_multiset(),
        lists(a, m),
    ensures
        lists(b, m),
{
    lemma_sorted_differ(a, b);
    assert forall|i: int| 0 <= i < b.len() implies m.contains_key((#[trigger] b[i]).0)
        && m[b[i].0] == b[i].1 by {
        assert(b.contains(b[i]));
        assert(a.contains(b[i]));
        let j = choose|j: int| 0 <= j < a.len() && a[j] == b[i];
        assert(m.contains_key(a[j].0));
    }
    assert forall|v: i32| #[trigger] m.contains_key(v) implies has_key(b, v) by {
        assert(has_key(a, v));
    }
}

/// The entries of a count map are a tally.
pub proof fn lemma_lists_tally(entries: Seq<(i32, u64)>, m: Map<i32, u64>, data: Seq<i32>)
    requires
        lists(entries, m),
        is_count_map(m, data),
    ensures
        is_tally(entries, data),
{
    assert forall|i: int| 0 <= i < entries.len() implies data.contains((#[trigger] entries[i]).0)
        && entries[i].1 == occurrences(data, entries[i].0) by {
        assert(m.contains_key(entries[i].0));
    }
    assert forall|v: i32| #[trigger] data.contains(v) implies has_key(entries, v) by {
        assert(m.contains_key(v));
    }
}

/// The most frequent entries of a tally are a top selection.
pub proof fn lemma_prefix_is_top(full: Seq<(i32, u64)>, k: nat, data: Seq<i32>)
    requires
        is_tally(full, data),
        most_frequent_first(full),
    ensures
        is_top(full.take(if k < full.len() { k as int } else { full.len() as int }), k, data),
{
    tally_has_distinct_entries(full, data);
    let n: int = if k < full.len() { k as int } else { full.len() as int };
    let top = full.take(n);
    assert forall|i: int| 0 <= i < top.len() implies data.contains((#[trigger] top[i]).0)
        && top[i].1 == occurrences(data, top[i].0) by {
        assert(top[i] == full[i]);
    }
    assert forall|v: i32, i: int|
        data.contains(v) && !has_key(top, v) && 0 <= i < top.len() implies #[trigger] occurrences(
        data,
        v,
    ) <= (#[trigger] top[i]).1 by {
        assert(has_key(full, v));
        let j = choose|j: int| 0 <= j < full.len() && (#[trigger] full[j]).0 == v;
        if j < n {
            assert(top[j].0 == v);
        }
        assert(top[i] == full[i]);
        assert(full[i].1 >= full[j].1);
    }
}

/// The entries of a map are as many as its keys.
pub proof fn lemma_lists_len(entries: Seq<(i32, u64)>, m: Map<i32, u64>)
    requires
        lists(entries, m),
    ensures
        m.dom().finite(),
        m.len() == entries.len(),
{
    let n = entries.len() as int;
    lemma_key_set(entries, n);
    assert(entries.take(n) =~= entries);
    assert forall|v: i32| #[trigger] key_set(entries, n).contains(v) <==> m.dom().contains(v) by {
        if has_key(entries, v) {
            let i = choose|i: int| 0 <= i < entries.len() && (#[trigger] entries[i]).0 == v;
            assert(m.contains_key(entries[i].0));
        }
        if m.dom().contains(v) {
            assert(m.contains_key(v));
        }
    }
    assert(key_set(entries, n) =~= m.dom());
}

/// A tally lists the histogram of its block.
pub proof fn lemma_tally_lists(entries: Seq<(i32, u64)>, data: Seq<i32>)
    requires
        is_tally(entries, data),
    ensures
        lists(entries, histogram(data)),
        forall|v: i32| #[trigger] count_in(histogram(data), v) == occurrences(data, v),
{
    let m = histogram(data);
    assert forall|i: int| 0 <= i < entries.len() implies m.contains_key((#[trigger] entries[i]).0)
        && m[entries[i].0] == entries[i].1 by {
        assert(data.contains(entries[i].0));
    }
    assert forall|v: i32| #[trigger] m.contains_key(v) implies has_key(entries, v) by {
        assert(data.contains(v));
    }
    assert forall|v: i32| #[trigger] count_in(m, v) == occurrences(data, v) by {
        lemma_occurs(data, v);
        if data.contains(v) {
            assert(has_key(entries, v));
        }
    }
}

/// The first entries of a map with the greatest counts first are a top selection.
pub proof fn lemma_prefix_is_top_of(full: Seq<(i32, u64)>, k: nat, m: Map<i32, u64>)
    requires
        lists(full, m),
        most_frequent_first(full),
    ensures
        is_top_of(full.take(if k < full.len() { k as int } else { full.len() as int }), k, m),
{
    lemma_lists_len(full, m);
    let n: int = if k < full.len() { k as int } else { full.len() as int };
    let top = full.take(n);
    assert forall|i: int| 0 <= i < top.len() implies m.contains_key((#[trigger] top[i]).0)
        && m[top[i].0] == top[i].1 by {
        assert(top[i] == full[i]);
    }
    assert forall|v: i32, i: int| #[trigger]
        m.contains_key(v) && !has_key(top, v) && 0 <= i < top.len() implies m[v] <= (
    #[trigger] top[i]).1 by {
        assert(has_key(full, v));
        let j = choose|j: int| 0 <= j < full.len() && (#[trigger] full[j]).0 == v;
        if j < n {
            assert(top[j].0 == v);
        }
        assert(top[i] == full[i]);
        assert(full[i].1 >= full[j].1);
    }
}

/// A top selection of a count map is one of its block.
pub proof fn lemma_top_of_counts(
    top: Seq<(i32, u64)>,
    k: nat,
    m: Map<i32, u64>,
    data: Seq<i32>,
)
    requires
        is_top_of(top, k, m),
        is_count_map(m, data),
    ensures
        is_top(top, k, data),
{
    assert(m.dom() =~= data.to_set());
    assert forall|i: int| 0 <= i < top.len() implies data.contains((#[trigger] top[i]).0)
        && top[i].1 == occurrences(data, top[i].0) by {
        assert(m.contains_key(top[i].0));
    }
    assert forall|v: i32, i: int|
        data.contains(v) && !has_key(top, v) && 0 <= i < top.len() implies #[trigger] occurrences(
        data,
        v,
    ) <= (#[trigger] top[i]).1 by {
        assert(m.contains_key(v));
    }
}

/// A rearrangement of a top selection of a map is one too.
pub proof fn lemma_top_of_rearranged(
    a: Seq<(i32, u64)>,
    b: Seq<(i32, u64)>,
    k: nat,
    m: Map<i32, u64>,
)
    requires
        a.to_multiset() == b.to_multiset(),
        is_top_of(a, k, m),
    ensures
        is_top_of(b, k, m),
{
    lemma_sorted_differ(a, b);
    assert forall|i: int| 0 <= i < b.len() implies m.contains_key((#[trigger] b[i]).0)
        && m[b[i].0] == b[i].1 by {
        assert(b.contains(b[i]));
        assert(a.contains(b[i]));
        let j = choose|j: int| 0 <= j < a.len() && a[j] == b[i];
        assert(m.contains_key(a[j].0));
    }
    assert forall|v: i32, i: int| #[trigger]
        m.contains_key(v) && !has_key(b, v) && 0 <= i < b.len() implies m[v] <= (
    #[trigger] b[i]).1 by {
        assert(!has_key(a, v));
        assert(b.contains(b[i]));
        assert(a.contains(b[i]));
        let j = choose|j: int| 0 <= j < a.len() && a[j] == b[i];
        assert(m[v] <= a[j].1);
    }
}

/// A rearrangement of a top selection is one too.
pub proof fn lemma_top_rearranged(a: Seq<(i32, u64)>, b: Seq<(i32, u64)>, k: nat, data: Seq<i32>)
    requires
        a.to_multiset() == b.to_multiset(),
        is_top(a, k, data),
    ensures
        is_top(b, k, data),
{
    lemma_sorted_differ(a, b);
    assert forall|i: int| 0 <= i < b.len() implies data.contains((#[trigger] b[i]).0) && b[i].1
        == occurrences(data, b[i].0) by {
        assert(b.contains(b[i]));
        assert(a.contains(b[i]));
        let j = choose|j: int| 0 <= j < a.len() && a[j] == b[i];
        assert(data.contains(a[j].0));
    }
    assert forall|v: i32, i: int|
        data.contains(v) && !has_key(b, v) && 0 <= i < b.len() implies #[trigger] occurrences(
        data,
        v,
    ) <= (#[trigger] b[i]).1 by {
        assert(!has_key(a, v));
        assert(b.contains(b[i]));
        assert(a.contains(b[i]));
        let j = choose|j: int| 0 <= j < a.len() && a[j] == b[i];
        assert(occurrences(data, v) <= a[j].1);
    }
}

/// The values of a block that a top selection lists number `k`, or all there are, and no
/// other value of the block occurs more often.
pub proof fn lemma_told_values(top: Seq<(i32, u64)>, k: nat, data: Seq<i32>, told: Set<i32>)
    requires
        is_top(top, k, data),
        forall|v: i32| #[trigger] told.contains(v) <==> data.contains(v) && has_key(top, v),
    ensures
        told.finite(),
        told.len() == if k < distinct(data) {
            k
        } else {
            distinct(data)
        },
        forall|v: i32, w: i32| #[trigger]
            told.contains(v) && #[trigger] data.contains(w) && !told.contains(w) ==> occurrences(
                data,
                w,
            ) <= occurrences(data, v),
{
    let n = top.len() as int;
    lemma_key_set(top, n);
    assert(top.take(n) =~= top);
    assert forall|v: i32| #[trigger] told.contains(v) <==> key_set(top, n).contains(v) by {
        if has_key(top, v) {
            let i = choose|i: int| 0 <= i < top.len() && (#[trigger] top[i]).0 == v;
            assert(data.contains(top[i].0));
        }
    }
    assert(told =~= key_set(top, n));
    assert forall|v: i32, w: i32| #[trigger]
        told.contains(v) && #[trigger] data.contains(w) && !told.contains(w) implies occurrences(
        data,
        w,
    ) <= occurrences(data, v) by {
        let i = choose|i: int| 0 <= i < top.len() && (#[trigger] top[i]).0 == v;
        assert(!has_key(top, w));
        assert(occurrences(data, w) <= top[i].1);
    }
}

/// The number of positions of `data` at which a listed value stands.
pub open spec fn covered(data: Seq<i32>, entries: Seq<(i32, u64)>) -> nat
    decreases data.len(),
{
    if data.len() == 0 {
        0
    } else {
        covered(data.drop_last(), entries) + (if has_key(entries, data.last()) {
            1nat
        } else {
            0nat
        })
    }
}

proof fn lemma_covered_step(data: Seq<i32>, entries: Seq<(i32, u64)>, n: int)
    requires
        keys_differ(entries),
        0 <= n < entries.len(),
    ensures
        covered(data, entries.take(n + 1)) == covered(data, entries.take(n)) + occurrences(
            data,
            entries[n].0,
        ),
    decreases data.len(),
{
    if data.len() > 0 {
        lemma_covered_step(data.drop_last(), entries, n);
        let v = data.last();
        let fewer = entries.take(n);
        let more = entries.take(n + 1);
        if has_key(fewer, v) {
            let i = choose|i: int| 0 <= i < fewer.len() && (#[trigger] fewer[i]).0 == v;
            assert(more[i].0 == v);
            assert(entries[i].0 != entries[n].0);
        }
        if entries[n].0 == v {
            assert(more[n].0 == v);
        }
        if has_key(more, v) && entries[n].0 != v {
            let i = choose|i: int| 0 <= i < more.len() && (#[trigger] more[i]).0 == v;
            assert(fewer[i].0 == v);
        }
    }
}

proof fn lemma_covered_bound(data: Seq<i32>, entries: Seq<(i32, u64)>)
    ensures
        covered(data, entries) <= data.len(),
        (forall|v: i32| #[trigger] data.contains(v) ==> has_key(entries, v)) ==> covered(
            data,
            entries,
        ) == data.len(),
        entries.len() == 0 ==> covered(data, entries) == 0,
    decreases data.len(),
{
    if data.len() > 0 {
        let rest = data.drop_last();
        lemma_covered_bound(rest, entries);
        assert(data.contains(data[data.len() - 1]));
        assert forall|v: i32| #[trigger] rest.contains(v) implies data.contains(v) by {
            let i = choose|i: int| 0 <= i < rest.len() && rest[i] == v;
            assert(data[i] == v);
        }
    }
}

/// The counts of listed values add up to the number of positions at which these
/// values stand, and so to no more than the length of the block. Those of a tally
/// add up to its length.
pub proof fn counts_add_up(entries: Seq<(i32, u64)>, data: Seq<i32>, n: nat)
    requires
        keys_differ(entries),
        counted(entries, data),
        n <= entries.len(),
    ensures
        count_sum(entries, n) == covered(data, entries.take(n as int)),
        count_sum(entries, n) <= data.len(),
        is_tally(entries, data) && n == entries.len() ==> count_sum(entries, n) == data.len(),
    decreases n,
{
    if n > 0 {
        counts_add_up(entries, data, (n - 1) as nat);
        lemma_covered_step(data, entries, n - 1);
    }
    lemma_covered_bound(data, entries.take(n as int));
    if n == entries.len() {
        assert(entries.take(n as int) =~= entries);
    }
}

/// A sum over more entries is no smaller.
pub proof fn lemma_count_sum_grows(entries: Seq<(i32, u64)>, n: nat, m: nat)
    requires
        n <= m,
    ensures
        count_sum(entries, n) <= count_sum(entries, m),
    decreases m,
{
    if n < m {
        lemma_count_sum_grows(entries, n, (m - 1) as nat);
    }
}

/// A tally of the block, the most frequent values first.
pub open spec fn by_count(data: Seq<i32>) -> Seq<(i32, u64)> {
    choose|full: Seq<(i32, u64)>| #[trigger] is_tally(full, data) && most_frequent_first(full)
}

/// The sum of the `n` greatest counts of a block.
pub open spec fn top_sum(data: Seq<i32>, n: nat) -> nat {
    count_sum(by_count(data), n)
}

/// The keys of the first `n` entries.
pub open spec fn key_set(entries: Seq<(i32, u64)>, n: int) -> Set<i32> {
    entries.take(n).map_values(|e: (i32, u64)| e.0).to_set()
}

pub proof fn lemma_key_set(entries: Seq<(i32, u64)>, n: int)
    requires
        keys_differ(entries),
        0 <= n <= entries.len(),
    ensures
        key_set(entries, n).finite(),
        key_set(entries, n).len() == n,
        forall|v: i32| #[trigger]
            key_set(entries, n).contains(v) <==> has_key(entries.take(n), v),
{
    let first = entries.take(n);
    let keys = first.map_values(|e: (i32, u64)| e.0);
    assert(keys.no_duplicates());
    keys.unique_seq_to_set();
    vstd::seq_lib::seq_to_set_is_finite(keys);
    assert forall|v: i32| #[trigger] key_set(entries, n).contains(v) <==> has_key(first, v) by {
        if keys.contains(v) {
            let i = choose|i: int| 0 <= i < keys.len() && keys[i] == v;
            assert(first[i].0 == v);
        }
        if has_key(first, v) {
            let i = choose|i: int| 0 <= i < first.len() && (#[trigger] first[i]).0 == v;
            assert(keys[i] == v);
        }
    }
}

proof fn lemma_key_range(entries: Seq<(i32, u64)>) -> (keys: Set<int>)
    requires
        keys_differ(entries),
    ensures
        keys.finite(),
        keys.len() == entries.len(),
        forall|k: int| #[trigger]
            keys.contains(k) ==> -0x8000_0000 <= k < 0x8000_0000 && has_key(entries, k as i32),
{
    let keys = entries.map_values(|e: (i32, u64)| e.0 as int);
    assert(keys.no_duplicates());
    keys.unique_seq_to_set();
    assert forall|k: int| #[trigger] keys.to_set().contains(k) implies -0x8000_0000 <= k
        < 0x8000_0000 && has_key(entries, k as i32) by {
        let i = choose|i: int| 0 <= i < keys.len() && keys[i] == k;
        assert(entries[i].0 == k as i32);
    }
    keys.to_set()
}

/// A list of different values has at most 2^32 entries.
pub proof fn lemma_few_values(entries: Seq<(i32, u64)>)
    requires
        keys_differ(entries),
    ensures
        entries.len() <= 0x1_0000_0000,
{
    let keys = lemma_key_range(entries);
    let all = vstd::set_lib::set_int_range(-0x8000_0000, 0x8000_0000);
    vstd::set_lib::lemma_int_range(-0x8000_0000, 0x8000_0000);
    assert(keys.subset_of(all));
    vstd::set_lib::lemma_len_subset(keys, all);
}

/// A list that misses a value has fewer than 2^32 entries.
pub proof fn lemma_missing_value(entries: Seq<(i32, u64)>, v: i32)
    requires
        keys_differ(entries),
        !has_key(entries, v),
    ensures
        entries.len() < 0x1_0000_0000,
{
    let keys = lemma_key_range(entries);
    let others = vstd::set_lib::set_int_range(-0x8000_0000, 0x8000_0000).remove(v as int);
    vstd::set_lib::lemma_int_range(-0x8000_0000, 0x8000_0000);
    assert(keys.subset_of(others));
    vstd::set_lib::lemma_len_subset(keys, others);
}

proof fn lemma_rank_no_less(a: Seq<(i32, u64)>, b: Seq<(i32, u64)>, data: Seq<i32>, i: int)
    requires
        is_tally(a, data),
        is_tally(b, data),
        most_frequent_first(a),
        most_frequent_first(b),
        0 <= i < a.len(),
        i < b.len(),
    ensures
        a[i].1 >= b[i].1,
{
    if a[i].1 < b[i].1 {
        let above = key_set(b, i + 1);
        let below = key_set(a, i);
        lemma_key_set(b, i + 1);
        lemma_key_set(a, i);
        assert forall|v: i32| #[trigger] above.contains(v) implies below.contains(v) by {
            let first = b.take(i + 1);
            let j = choose|j: int| 0 <= j < first.len() && (#[trigger] first[j]).0 == v;
            assert(b[j].0 == v);
            assert(b[j].1 >= b[i].1);
            assert(data.contains(b[j].0));
            assert(has_key(a, v));
            let k = choose|k: int| 0 <= k < a.len() && (#[trigger] a[k]).0 == v;
            if i <= k {
                assert(a[i].1 >= a[k].1);
            }
            assert(a.take(i)[k].0 == v);
        }
        assert(above.subset_of(below));
        vstd::set_lib::lemma_len_subset(above, below);
    }
}

/// Two tallies of one block with the most frequent values first have the same
/// counts at the same places.
pub proof fn ranked_counts_are_unique(a: Seq<(i32, u64)>, b: Seq<(i32, u64)>, data: Seq<i32>)
    requires
        is_tally(a, data),
        is_tally(b, data),
        most_frequent_first(a),
        most_frequent_first(b),
    ensures
        a.len() == b.len(),
        forall|i: int| 0 <= i < a.len() ==> (#[trigger] a[i]).1 == b[i].1,
{
    tally_has_distinct_entries(a, data);
    tally_has_distinct_entries(b, data);
    assert forall|i: int| 0 <= i < a.len() implies (#[trigger] a[i]).1 == b[i].1 by {
        lemma_rank_no_less(a, b, data, i);
        lemma_rank_no_less(b, a, data, i);
    }
}

proof fn lemma_same_sums(a: Seq<(i32, u64)>, b: Seq<(i32, u64)>, n: nat)
    requires
        a.len() == b.len(),
        forall|i: int| 0 <= i < a.len() ==> (#[trigger] a[i]).1 == b[i].1,
    ensures
        count_sum(a, n) == count_sum(b, n),
    decreases n,
{
    if n > 0 {
        lemma_same_sums(a, b, (n - 1) as nat);
        if n <= a.len() {
            assert(a[n - 1].1 == b[n - 1].1);
        }
    }
}

/// Any tally with the most frequent values first gives the sum of the greatest
/// counts.
pub proof fn top_sum_of_tally(full: Seq<(i32, u64)>, data: Seq<i32>, n: nat)
    requires
        is_tally(full, data),
        most_frequent_first(full),
    ensures
        top_sum(data, n) == count_sum(full, n),
        top_sum(data, n) <= data.len(),
{
    let other = by_count(data);
    assert(is_tally(other, data) && most_frequent_first(other));
    ranked_counts_are_unique(full, other, data);
    lemma_same_sums(full, other, n);
    counts_add_up(full, data, full.len());
    lemma_count_sum_stops(full, n);
    if n < full.len() {
        lemma_count_sum_grows(full, n, full.len());
    }
}

/// Adds up the counts of the first `n` entries, or of all where there are fewer.
pub fn sum_counts(entries: &Vec<(i32, u64)>, n: usize) -> (sum: u64)
    requires
        count_sum(entries@, entries@.len()) <= u64::MAX,
    ensures
        sum == count_sum(entries@, n as nat),
{
    let mut sum: u64 = 0;
    let mut k: usize = 0;
    while k < n && k < entries.len()
        invariant
            k <= n,
            k <= entries@.len(),
            sum == count_sum(entries@, k as nat),
            count_sum(entries@, entries@.len()) <= u64::MAX,
        decreases entries@.len() - k,
    {
        proof {
            lemma_count_sum_grows(entries@, (k + 1) as nat, entries@.len());
        }
        sum = sum + entries[k].1;
        k = k + 1;
    }
    proof {
        lemma_count_sum_stops(entries@, n as nat);
    }
    sum
}

proof fn lemma_count_sum_stops(entries: Seq<(i32, u64)>, n: nat)
    ensures
        n >= entries.len() ==> count_sum(entries, n) == count_sum(entries, entries.len()),
    decreases n,
{
    if n > entries.len() {
        lemma_count_sum_stops(entries, (n - 1) as nat);
    }
}

/// Counts each value of the block.
pub fn count_values(data: &[i32]) -> (counts: HashMap<i32, u64>)
    ensures
        is_count_map(counts@, data@),
        counts@.len() == distinct(data@),
        counts@.dom().finite(),
{
    let mut counts: HashMap<i32, u64> = HashMap::new();
    let mut i: usize = 0;
    while i < data.len()
        invariant
            i <= data@.len(),
            is_count_map(counts@, data@.take(i as int)),
        decreases data@.len() - i,
    {
        let val = data[i];
        let ghost seen = data@.take(i as int);
        let ghost old_counts = counts@;
        proof {
            lemma_occurs(seen, val);
            assert(data@.take(i + 1).drop_last() =~= seen);
        }
        *counts.entry(val).or_insert(0) += 1;
        proof {
            let next = data@.take(i + 1);
            assert(counts@ == old_counts.insert(
                val,
                (occurrences(seen, val) + 1) as u64,
            ));
            assert forall|v: i32| #[trigger] counts@.contains_key(v) <==> next.contains(v) by {
                lemma_occurs(next, v);
                lemma_occurs(seen, v);
                assert(old_counts.contains_key(v) <==> seen.contains(v));
            }
            assert forall|v: i32| #[trigger] counts@.contains_key(v) implies counts@[v]
                == occurrences(next, v) by {
                if v != val {
                    assert(old_counts.contains_key(v));
                }
            }
        }
        i = i + 1;
    }
    assert(data@.take(i as int) =~= data@);
    assert(counts@.dom() =~= data@.to_set());
    counts
}

/// Lists the entries of a count map, in the order in which the map walks them.
pub fn entries_of(counts: &HashMap<i32, u64>) -> (entries: Vec<(i32, u64)>)
    ensures
        lists(entries@, counts@),
{
    let mut entries: Vec<(i32, u64)> = Vec::new();
    let iter = counts.iter();
    let ghost order = iter.remaining();
    for (k, c) in it: iter
        invariant
            it.seq() == order,
            entries@.len() == it.index(),
            forall|j: int|
                0 <= j < entries@.len() ==> (#[trigger] entries@[j]).0 == *order[j].0
                    && entries@[j].1 == *order[j].1,
    {
        entries.push((*k, *c));
    }
    proof {
        assert(entries@.len() == order.len());
        assert forall|i: int, j: int| 0 <= i < j < entries@.len() implies (#[trigger] entries@[i]).0
            != (#[trigger] entries@[j]).0 by {
            assert(counts@.contains_key(*order[i].0));
            assert(counts@.contains_key(*order[j].0));
            if *order[i].0 == *order[j].0 {
                assert(order[i] == order[j]);
            }
        }
        assert forall|i: int| 0 <= i < entries@.len() implies counts@.contains_key(
            (#[trigger] entries@[i]).0,
        ) && counts@[entries@[i].0] == entries@[i].1 by {
            assert(counts@.contains_key(*order[i].0));
        }
        assert forall|v: i32| #[trigger] counts@.contains_key(v) implies has_key(entries@, v) by {
            assert(order.contains((&v, &counts@[v])));
            let i = choose|i: int| 0 <= i < order.len() && order[i] == (&v, &counts@[v]);
            assert(entries@[i].0 == v);
        }
    }
    entries
}

/// The order of the values.
pub struct ByKey;

impl Ranking<(i32, u64)> for ByKey {
    open spec fn rank(x: (i32, u64)) -> int {
        x.0 as int
    }

    fn before(a: &(i32, u64), b: &(i32, u64)) -> (r: bool) {
        a.0 <= b.0
    }
}

/// The order of the counts, the largest first.
pub struct ByCount;

impl Ranking<(i32, u64)> for ByCount {
    open spec fn rank(x: (i32, u64)) -> int {
        -(x.1 as int)
    }

    fn before(a: &(i32, u64), b: &(i32, u64)) -> (r: bool) {
        a.1 >= b.1
    }
}

/// Sorts entries with different keys by their keys.
pub fn sort_by_key(entries: Vec<(i32, u64)>) -> (sorted: Vec<(i32, u64)>)
    requires
        keys_differ(entries@),
    ensures
        ascending(sorted@),
        sorted@.to_multiset() == entries@.to_multiset(),
{
    let sorted = sort::<(i32, u64), ByKey>(entries);
    proof {
        lemma_sorted_differ(entries@, sorted@);
        assert forall|i: int, j: int| 0 <= i < j < sorted@.len() implies (#[trigger] sorted@[i]).0
            < (#[trigger] sorted@[j]).0 by {
            assert(ByKey::rank(sorted@[i]) <= ByKey::rank(sorted@[j]));
        }
    }
    sorted
}

/// The entries of a count map in ascending order of the values.
pub fn ascending_entries(counts: &HashMap<i32, u64>) -> (entries: Vec<(i32, u64)>)
    ensures
        lists(entries@, counts@),
        ascending(entries@),
{
    let listed = entries_of(counts);
    let sorted = sort_by_key(listed);
    proof {
        lemma_lists_rearranged(listed@, sorted@, counts@);
    }
    sorted
}

/// Sorts entries by their counts, the greatest first.
pub fn sort_by_count(entries: Vec<(i32, u64)>) -> (sorted: Vec<(i32, u64)>)
    ensures
        most_frequent_first(sorted@),
        sorted@.to_multiset() == entries@.to_multiset(),
{
    let sorted = sort::<(i32, u64), ByCount>(entries);
    assert forall|i: int, j: int| 0 <= i <= j < sorted@.len() implies (#[trigger] sorted@[i]).1 >= (
    #[trigger] sorted@[j]).1 by {
        assert(ByCount::rank(sorted@[i]) <= ByCount::rank(sorted@[j]));
    }
    sorted
}

/// The entries of a count map, the most frequent values first.
pub fn entries_by_count(counts: &HashMap<i32, u64>) -> (entries: Vec<(i32, u64)>)
    ensures
        lists(entries@, counts@),
        most_frequent_first(entries@),
{
    let listed = entries_of(counts);
    let sorted = sort_by_count(listed);
    proof {
        lemma_lists_rearranged(listed@, sorted@, counts@);
    }
    sorted
}

/// The first `k` entries, or all where there are fewer.
pub fn first_entries(entries: &Vec<(i32, u64)>, k: usize) -> (first: Vec<(i32, u64)>)
    ensures
        first@ == entries@.take(if k < entries@.len() { k as int } else { entries@.len() as int }),
{
    let mut first: Vec<(i32, u64)> = Vec::new();
    let mut i: usize = 0;
    while i < k && i < entries.len()
        invariant
            i <= k,
            i <= entries@.len(),
            first@ == entries@.take(i as int),
        decreases entries@.len() - i,
    {
        first.push(entries[i]);
        assert(first@ =~= entries@.take(i + 1));
        i = i + 1;
    }
    first
}

/// The `k` most frequent entries, the most frequent first.
pub fn top_entries(counts: &HashMap<i32, u64>, k: usize) -> (top: Vec<(i32, u64)>)
    ensures
        most_frequent_first(top@),
        is_top_of(top@, k as nat, counts@),
{
    let full = entries_by_count(counts);
    proof {
        lemma_prefix_is_top_of(full@, k as nat, counts@);
    }
    first_entries(&full, k)
}

/// The least value of the block.
pub fn min_value(data: &[i32]) -> (m: i32)
    requires
        data@.len() > 0,
    ensures
        m == lowest(data@),
{
    let mut m: i32 = data[0];
    let mut i: usize = 1;
    assert(data@.take(1).last() == data@[0]);
    while i < data.len()
        invariant
            1 <= i <= data@.len(),
            m == lowest(data@.take(i as int)),
        decreases data@.len() - i,
    {
        assert(data@.take(i + 1).drop_last() =~= data@.take(i as int));
        if data[i] < m {
            m = data[i];
        }
        i = i + 1;
    }
    assert(data@.take(i as int) =~= data@);
    m
}

/// The greatest value of the block.
pub fn max_value(data: &[i32]) -> (m: i32)
    requires
        data@.len() > 0,
    ensures
        m == highest(data@),
{
    let mut m: i32 = data[0];
    let mut i: usize = 1;
    assert(data@.take(1).last() == data@[0]);
    while i < data.len()
        invariant
            1 <= i <= data@.len(),
            m == highest(data@.take(i as int)),
        decreases data@.len() - i,
    {
        assert(data@.take(i + 1).drop_last() =~= data@.take(i as int));
        if data[i] > m {
            m = data[i];
        }
        i = i + 1;
    }
    assert(data@.take(i as int) =~= data@);
    m
}

} // verus!
