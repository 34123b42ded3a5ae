//! Statistics of a data set: its extent, the counts of its values, and how these are
//! distributed.
use std::collections::HashMap;
use vstd::prelude::*;

use crate::double::{Double, MANTISSA_END};
use crate::exact::{
    count_is_exact, lemma_unit, lemma_without_unit, nearest_is_close, quotient_is_close, scaled,
    size_of, unit,
};
use crate::frequencies::{
    count_frequencies, is_frequency_map, lemma_widened, ranked_frequencies, widened,
};
use crate::percentile::{lies_at, percentile, percentile_lies_between, percentile_of};
use crate::sort::{sort, Ranking};
use crate::tally::{
    distinct, has_key, highest, is_tally, keys_differ, lemma_lists_tally, lemma_occurs, lowest,
    max_value, min_value, most_frequent_first, occurrences, range_covers,
};

verus! {

/// The number of different values that occur so often.
#[derive(Clone, Copy, Debug, PartialEq, Eq, Structural)]
pub struct FrequencyBucket {
    pub frequency: usize,
    pub count: usize,
}

/// The values below which so many percent of a data set lie.
#[derive(Clone, Copy, Debug)]
pub struct Percentiles {
    pub p25: Double,
    pub p50: Double,
    pub p75: Double,
    pub p90: Double,
    pub p95: Double,
    pub p99: Double,
}

/// What a data set consists of.
#[derive(Debug)]
pub struct Statistics {
    pub total_values: usize,
    pub distinct_count: usize,
    pub min: i32,
    pub max: i32,
    pub mean: Double,
    pub median: Double,
    /// The values that occur most often.
    pub mode: Vec<i32>,
    pub mode_frequency: usize,
    pub frequency_map: HashMap<i32, usize>,
    pub frequency_buckets: Vec<FrequencyBucket>,
    pub percentiles: Percentiles,
}

/// The values of all blocks, one after the other.
pub open spec fn flattened(blocks: Seq<Vec<i32>>) -> Seq<i32>
    decreases blocks.len(),
{
    if blocks.len() == 0 {
        Seq::empty()
    } else {
        flattened(blocks.drop_last()) + blocks.last()@
    }
}

/// The sum of all values.
pub open spec fn sum_of(data: Seq<i32>) -> int
    decreases data.len(),
{
    if data.len() == 0 {
        0
    } else {
        sum_of(data.drop_last()) + data.last()
    }
}

/// Whether adding the values up one by one stays within 64 bits.
pub open spec fn sums_fit(data: Seq<i32>) -> bool {
    forall|n: int| 0 <= n <= data.len() ==> i64::MIN <= #[trigger] sum_of(data.take(n)) <= i64::MAX
}

/// The number of different values of `data` that occur `frequency` times.
pub open spec fn values_with(data: Seq<i32>, frequency: nat) -> nat {
    data.to_set().filter(|v: i32| occurrences(data, v) == frequency).len()
}

/// The values of a data set in ascending order, each as often as it occurs.
pub open spec fn sorted_values(data: Seq<i32>) -> Seq<i32> {
    data.sort_by(|a: i32, b: i32| a <= b)
}

/// The sum of all values divided by their number.
pub open spec fn mean_of(data: Seq<i32>) -> Double {
    Double::spec_of(sum_of(data)).spec_div(Double::spec_of(data.len() as int))
}

/// Whether these are the percentiles of a data set.
pub open spec fn are_percentiles(percentiles: Percentiles, data: Seq<i32>) -> bool {
    &&& percentiles.p25 == percentile_of(sorted_values(data), 25)
    &&& percentiles.p50 == percentile_of(sorted_values(data), 50)
    &&& percentiles.p75 == percentile_of(sorted_values(data), 75)
    &&& percentiles.p90 == percentile_of(sorted_values(data), 90)
    &&& percentiles.p95 == percentile_of(sorted_values(data), 95)
    &&& percentiles.p99 == percentile_of(sorted_values(data), 99)
}

/// Whether the values are those that occur `frequency` times, each once.
pub open spec fn are_all_with(values: Seq<i32>, data: Seq<i32>, frequency: nat) -> bool {
    &&& values.no_duplicates()
    &&& forall|v: i32| #[trigger]
        values.contains(v) <==> data.contains(v) && occurrences(data, v) == frequency
}

/// Whether `frequency` is the greatest number of occurrences of a value.
pub open spec fn is_greatest_frequency(frequency: nat, data: Seq<i32>) -> bool {
    &&& exists|v: i32| data.contains(v) && #[trigger] occurrences(data, v) == frequency
    &&& forall|v: i32| #[trigger] occurrences(data, v) <= frequency
}

/// Whether there is one bucket for each number of occurrences of a value, in ascending
/// order, with the number of values that occur so often.
pub open spec fn are_buckets(buckets: Seq<FrequencyBucket>, data: Seq<i32>) -> bool {
    &&& forall|i: int, j: int|
        0 <= i < j < buckets.len() ==> (#[trigger] buckets[i]).frequency < (
        #[trigger] buckets[j]).frequency
    &&& forall|i: int|
        0 <= i < buckets.len() ==> (#[trigger] buckets[i]).count > 0 && buckets[i].count
            == values_with(data, buckets[i].frequency as nat)
    &&& forall|v: i32| #[trigger]
        data.contains(v) ==> has_bucket(buckets, occurrences(data, v))
}

/// Whether there is a bucket for `frequency`.
pub open spec fn has_bucket(buckets: Seq<FrequencyBucket>, frequency: nat) -> bool {
    exists|i: int| 0 <= i < buckets.len() && (#[trigger] buckets[i]).frequency == frequency
}

/// Whether these are the statistics of a data set.
pub open spec fn are_statistics(stats: Statistics, data: Seq<i32>) -> bool {
    &&& stats.total_values == data.len()
    &&& stats.distinct_count == distinct(data)
    &&& stats.min == lowest(data)
    &&& stats.max == highest(data)
    &&& stats.mean == mean_of(data)
    &&& stats.median == percentile_of(sorted_values(data), 50)
    &&& are_percentiles(stats.percentiles, data)
    &&& is_greatest_frequency(stats.mode_frequency as nat, data)
    &&& are_all_with(stats.mode@, data, stats.mode_frequency as nat)
    &&& is_frequency_map(stats.frequency_map@, data)
    &&& are_buckets(stats.frequency_buckets@, data)
}

/// The number of entries from `i` on with this count.
pub open spec fn entries_with(entries: Seq<(i32, u64)>, i: int, count: nat) -> nat
    decreases entries.len() - i,
{
    if i < 0 || i >= entries.len() {
        0
    } else {
        entries_with(entries, i + 1, count) + (if entries[i].1 == count {
            1nat
        } else {
            0nat
        })
    }
}

/// The keys from the entry `i` on that have this count.
spec fn keys_with(entries: Seq<(i32, u64)>, i: int, count: nat) -> Set<i32>
    decreases entries.len() - i,
{
    if i < 0 || i >= entries.len() {
        Set::empty()
    } else if entries[i].1 == count {
        keys_with(entries, i + 1, count).insert(entries[i].0)
    } else {
        keys_with(entries, i + 1, count)
    }
}

proof fn lemma_keys_with(entries: Seq<(i32, u64)>, i: int, count: nat)
    requires
        keys_differ(entries),
        0 <= i <= entries.len(),
    ensures
        keys_with(entries, i, count).finite(),
        keys_with(entries, i, count).len() == entries_with(entries, i, count),
        forall|v: i32| #[trigger]
            keys_with(entries, i, count).contains(v) <==> exists|k: int|
                i <= k < entries.len() && (#[trigger] entries[k]).0 == v && entries[k].1 == count,
    decreases entries.len() - i,
{
    if i < entries.len() {
        let rest = keys_with(entries, i + 1, count);
        lemma_keys_with(entries, i + 1, count);
        if rest.contains(entries[i].0) {
            let k = choose|k: int|
                i + 1 <= k < entries.len() && (#[trigger] entries[k]).0 == entries[i].0
                    && entries[k].1 == count;
            assert(entries[i].0 != entries[k].0);
        }
        assert forall|v: i32| #[trigger]
            keys_with(entries, i, count).contains(v) implies exists|k: int|
            i <= k < entries.len() && (#[trigger] entries[k]).0 == v && entries[k].1 == count by {
            if rest.contains(v) {
                let k = choose|k: int|
                    i + 1 <= k < entries.len() && (#[trigger] entries[k]).0 == v && entries[k].1
                        == count;
                assert(entries[k].0 == v);
            } else {
                assert(entries[i].0 == v);
            }
        }
        assert forall|v: i32|
            (exists|k: int|
                i <= k < entries.len() && (#[trigger] entries[k]).0 == v && entries[k].1
                    == count) implies #[trigger] keys_with(entries, i, count).contains(v) by {
            let k = choose|k: int|
                i <= k < entries.len() && (#[trigger] entries[k]).0 == v && entries[k].1 == count;
            if k > i {
                assert(rest.contains(v));
            }
        }
    }
}

/// A tally has as many entries with a count as there are values that occur so often.
pub proof fn entries_with_is_values_with(
    entries: Seq<(i32, u64)>,
    data: Seq<i32>,
    count: nat,
)
    requires
        is_tally(entries, data),
    ensures
        entries_with(entries, 0, count) == values_with(data, count),
{
    lemma_keys_with(entries, 0, count);
    let keys = keys_with(entries, 0, count);
    let values = data.to_set().filter(|v: i32| occurrences(data, v) == count);
    assert forall|v: i32| #[trigger] keys.contains(v) <==> values.contains(v) by {
        if keys.contains(v) {
            let k = choose|k: int|
                0 <= k < entries.len() && (#[trigger] entries[k]).0 == v && entries[k].1 == count;
            assert(data.contains(entries[k].0));
        }
        if values.contains(v) {
            assert(has_key(entries, v));
            let k = choose|k: int| 0 <= k < entries.len() && (#[trigger] entries[k]).0 == v;
            assert(entries[k].1 == occurrences(data, v));
        }
    }
    assert(keys =~= values);
}

/// The values in the first `n` buckets.
pub open spec fn bucket_sum(buckets: Seq<FrequencyBucket>, n: nat) -> nat
    decreases n,
{
    if n == 0 {
        0
    } else {
        bucket_sum(buckets, (n - 1) as nat) + buckets[n - 1].count as nat
    }
}

/// The different values of `data` whose number of occurrences has one of the first `n`
/// buckets.
spec fn values_in(buckets: Seq<FrequencyBucket>, data: Seq<i32>, n: int) -> Set<i32> {
    data.to_set().filter(|v: i32| has_bucket(buckets.take(n), occurrences(data, v)))
}

proof fn lemma_values_in(buckets: Seq<FrequencyBucket>, data: Seq<i32>, n: nat)
    requires
        are_buckets(buckets, data),
        n <= buckets.len(),
    ensures
        values_in(buckets, data, n as int).len() == bucket_sum(buckets, n),
    decreases n,
{
    vstd::seq_lib::seq_to_set_is_finite(data);
    let all = values_in(buckets, data, n as int);
    if n == 0 {
        assert(all =~= Set::empty());
    } else {
        let m = n - 1;
        let frequency = buckets[m].frequency as nat;
        let others = values_in(buckets, data, m);
        let last = data.to_set().filter(|v: i32| occurrences(data, v) == frequency);
        lemma_values_in(buckets, data, (n - 1) as nat);
        assert forall|v: i32| #[trigger] all.contains(v) <==> others.contains(v) || last.contains(
            v,
        ) by {
            let count = occurrences(data, v);
            if has_bucket(buckets.take(n as int), count) && count != frequency {
                let i = choose|i: int|
                    0 <= i < n && (#[trigger] buckets.take(n as int)[i]).frequency == count;
                assert(buckets.take(m)[i].frequency == count);
            }
            if has_bucket(buckets.take(m), count) {
                let i = choose|i: int|
                    0 <= i < m && (#[trigger] buckets.take(m)[i]).frequency == count;
                assert(buckets.take(n as int)[i].frequency == count);
            }
            if count == frequency {
                assert(buckets.take(n as int)[m].frequency == count);
            }
        }
        assert forall|v: i32| #[trigger] others.contains(v) implies !last.contains(v) by {
            let count = occurrences(data, v);
            let i = choose|i: int| 0 <= i < m && (#[trigger] buckets.take(m)[i]).frequency == count;
            assert(buckets[i].frequency < buckets[m].frequency);
        }
        assert(all =~= others + last);
        assert(others.disjoint(last));
        vstd::set_lib::lemma_set_disjoint_lens(others, last);
    }
}

/// Every different value of a data set is in one bucket.
pub proof fn buckets_hold_every_value(buckets: Seq<FrequencyBucket>, data: Seq<i32>)
    requires
        are_buckets(buckets, data),
    ensures
        bucket_sum(buckets, buckets.len()) == distinct(data),
{
    lemma_values_in(buckets, data, buckets.len());
    let all = values_in(buckets, data, buckets.len() as int);
    assert(buckets.take(buckets.len() as int) =~= buckets);
    assert forall|v: i32| #[trigger] all.contains(v) <==> data.to_set().contains(v) by {
        if data.to_set().contains(v) {
            assert(data.contains(v));
        }
    }
    assert(all =~= data.to_set());
}

/// The occurrences of a value are its copies in the multiset.
pub proof fn lemma_occurrences_counted(data: Seq<i32>, v: i32)
    ensures
        occurrences(data, v) == data.to_multiset().count(v),
    decreases data.len(),
{
    broadcast use vstd::seq_lib::group_to_multiset_ensures;

    if data.len() > 0 {
        lemma_occurrences_counted(data.drop_last(), v);
        assert(data =~= data.drop_last().push(data.last()));
    }
}

/// Taking a value out takes it off the sum.
proof fn lemma_sum_without(data: Seq<i32>, i: int)
    requires
        0 <= i < data.len(),
    ensures
        sum_of(data.remove(i)) == sum_of(data) - data[i],
    decreases data.len(),
{
    if i == data.len() - 1 {
        assert(data.remove(i) =~= data.drop_last());
    } else {
        let rest = data.remove(i);
        lemma_sum_without(data.drop_last(), i);
        assert(rest.drop_last() =~= data.drop_last().remove(i));
        assert(rest.last() == data.last());
    }
}

proof fn lemma_same_sum(a: Seq<i32>, b: Seq<i32>)
    requires
        a.to_multiset() == b.to_multiset(),
    ensures
        sum_of(a) == sum_of(b),
    decreases a.len(),
{
    broadcast use vstd::seq_lib::group_to_multiset_ensures;

    vstd::seq_lib::to_multiset_len(a);
    vstd::seq_lib::to_multiset_len(b);
    if a.len() > 0 {
        let last = a.len() - 1;
        let v = a[last];
        assert(a.contains(v));
        assert(b.to_multiset().count(v) > 0);
        assert(b.contains(v));
        let i = choose|i: int| 0 <= i < b.len() && b[i] == v;
        lemma_sum_without(a, last);
        lemma_sum_without(b, i);
        lemma_same_sum(a.remove(last), b.remove(i));
    }
}

proof fn lemma_same_values(a: Seq<i32>, b: Seq<i32>)
    requires
        a.to_multiset() == b.to_multiset(),
    ensures
        a.len() == b.len(),
        a.to_set() == b.to_set(),
        forall|v: i32| #[trigger] a.contains(v) <==> b.contains(v),
        forall|v: i32| #[trigger] occurrences(a, v) == occurrences(b, v),
        forall|frequency: nat| #[trigger] values_with(a, frequency) == values_with(b, frequency),
        sorted_values(a) == sorted_values(b),
{
    broadcast use vstd::seq_lib::group_to_multiset_ensures;

    vstd::seq_lib::to_multiset_len(a);
    vstd::seq_lib::to_multiset_len(b);
    assert forall|v: i32| #[trigger] occurrences(a, v) == occurrences(b, v) by {
        lemma_occurrences_counted(a, v);
        lemma_occurrences_counted(b, v);
    }
    assert forall|v: i32| #[trigger] a.contains(v) <==> b.contains(v) by {
        lemma_occurs(a, v);
        lemma_occurs(b, v);
        assert(occurrences(a, v) == occurrences(b, v));
    }
    assert(a.to_set() =~= b.to_set());
    assert forall|frequency: nat| #[trigger]
        values_with(a, frequency) == values_with(b, frequency) by {
        assert(a.to_set().filter(|v: i32| occurrences(a, v) == frequency) =~= b.to_set().filter(
            |v: i32| occurrences(b, v) == frequency,
        ));
    }
    let leq = |x: i32, y: i32| x <= y;
    assert(vstd::relations::total_ordering(leq));
    a.lemma_sort_by_ensures(leq);
    b.lemma_sort_by_ensures(leq);
    vstd::seq_lib::lemma_sorted_unique(sorted_values(a), sorted_values(b), leq);
}

/// The buckets of a data set come in one order.
proof fn lemma_same_bucket(a: Seq<FrequencyBucket>, b: Seq<FrequencyBucket>, i: int)
    requires
        forall|j: int, k: int|
            0 <= j < k < a.len() ==> (#[trigger] a[j]).frequency < (#[trigger] a[k]).frequency,
        forall|j: int, k: int|
            0 <= j < k < b.len() ==> (#[trigger] b[j]).frequency < (#[trigger] b[k]).frequency,
        forall|j: int| 0 <= j < a.len() ==> has_bucket(b, (#[trigger] a[j]).frequency as nat),
        forall|j: int| 0 <= j < b.len() ==> has_bucket(a, (#[trigger] b[j]).frequency as nat),
        0 <= i < a.len(),
    ensures
        i < b.len(),
        a[i].frequency == b[i].frequency,
    decreases i,
{
    assert forall|j: int| 0 <= j < i implies j < b.len() && (#[trigger] a[j]).frequency
        == b[j].frequency by {
        lemma_same_bucket(a, b, j);
    }
    assert(has_bucket(b, a[i].frequency as nat));
    let k = choose|k: int| 0 <= k < b.len() && (#[trigger] b[k]).frequency == a[i].frequency;
    if k < i {
        assert(a[k].frequency < a[i].frequency);
    } else if k > i {
        assert(has_bucket(a, b[i].frequency as nat));
        let l = choose|l: int| 0 <= l < a.len() && (#[trigger] a[l]).frequency == b[i].frequency;
        assert(b[i].frequency < b[k].frequency);
        if l < i {
            assert(a[l].frequency == b[l].frequency);
            assert(b[l].frequency < b[i].frequency);
        } else if l > i {
            assert(a[i].frequency < a[l].frequency);
        }
    }
}

/// A bucket has a value.
proof fn lemma_bucket_value(buckets: Seq<FrequencyBucket>, data: Seq<i32>, i: int) -> (v: i32)
    requires
        are_buckets(buckets, data),
        0 <= i < buckets.len(),
    ensures
        data.contains(v),
        occurrences(data, v) == buckets[i].frequency,
{
    let frequency = buckets[i].frequency as nat;
    let values = data.to_set().filter(|v: i32| occurrences(data, v) == frequency);
    vstd::seq_lib::seq_to_set_is_finite(data);
    assert(values.len() > 0);
    if values =~= Set::empty() {
        assert(values.len() == 0);
    }
    let v = values.choose();
    assert(values.contains(v));
    v
}

proof fn lemma_same_buckets(
    a: Seq<FrequencyBucket>,
    d1: Seq<i32>,
    b: Seq<FrequencyBucket>,
    d2: Seq<i32>,
)
    requires
        are_buckets(a, d1),
        are_buckets(b, d2),
        d1.to_multiset() == d2.to_multiset(),
    ensures
        a == b,
{
    lemma_same_values(d1, d2);
    assert forall|j: int| 0 <= j < a.len() implies has_bucket(
        b,
        (#[trigger] a[j]).frequency as nat,
    ) by {
        let v = lemma_bucket_value(a, d1, j);
        assert(d2.contains(v));
        assert(occurrences(d1, v) == occurrences(d2, v));
    }
    assert forall|j: int| 0 <= j < b.len() implies has_bucket(
        a,
        (#[trigger] b[j]).frequency as nat,
    ) by {
        let v = lemma_bucket_value(b, d2, j);
        assert(d1.contains(v));
        assert(occurrences(d1, v) == occurrences(d2, v));
    }
    if a.len() > 0 {
        lemma_same_bucket(a, b, a.len() - 1);
    }
    if b.len() > 0 {
        lemma_same_bucket(b, a, b.len() - 1);
    }
    assert forall|i: int| 0 <= i < a.len() implies a[i] == b[i] by {
        lemma_same_bucket(a, b, i);
        assert(values_with(d1, a[i].frequency as nat) == values_with(d2, a[i].frequency as nat));
    }
    assert(a =~= b);
}

proof fn lemma_same_modes(s1: Statistics, d1: Seq<i32>, s2: Statistics, d2: Seq<i32>)
    requires
        forall|v: i32| #[trigger] d1.contains(v) <==> d2.contains(v),
        forall|v: i32| #[trigger] occurrences(d1, v) == occurrences(d2, v),
        is_greatest_frequency(s1.mode_frequency as nat, d1),
        are_all_with(s1.mode@, d1, s1.mode_frequency as nat),
        is_greatest_frequency(s2.mode_frequency as nat, d2),
        are_all_with(s2.mode@, d2, s2.mode_frequency as nat),
    ensures
        s1.mode_frequency == s2.mode_frequency,
        s1.mode@.to_set() == s2.mode@.to_set(),
{
    let v1 = choose|v: i32|
        d1.contains(v) && #[trigger] occurrences(d1, v) == s1.mode_frequency as nat;
    let v2 = choose|v: i32|
        d2.contains(v) && #[trigger] occurrences(d2, v) == s2.mode_frequency as nat;
    assert(occurrences(d2, v1) == s1.mode_frequency);
    assert(occurrences(d1, v2) == s2.mode_frequency);
    assert forall|v: i32| #[trigger] s1.mode@.contains(v) <==> s2.mode@.contains(v) by {
        assert(occurrences(d1, v) == occurrences(d2, v));
        assert(d1.contains(v) <==> d2.contains(v));
    }
    assert(s1.mode@.to_set() =~= s2.mode@.to_set());
}

proof fn lemma_same_frequencies(
    m1: Map<i32, usize>,
    d1: Seq<i32>,
    m2: Map<i32, usize>,
    d2: Seq<i32>,
)
    requires
        forall|v: i32| #[trigger] d1.contains(v) <==> d2.contains(v),
        forall|v: i32| #[trigger] occurrences(d1, v) == occurrences(d2, v),
        is_frequency_map(m1, d1),
        is_frequency_map(m2, d2),
    ensures
        m1 == m2,
{
    assert forall|v: i32| #[trigger] m1.contains_key(v) <==> m2.contains_key(v) by {
        assert(d1.contains(v) <==> d2.contains(v));
    }
    assert forall|v: i32| #[trigger] m1.contains_key(v) implies m1[v] == m2[v] by {
        assert(occurrences(d1, v) == occurrences(d2, v));
        assert(m2.contains_key(v));
    }
    assert(m1 =~= m2);
}

proof fn lemma_same_range(d1: Seq<i32>, d2: Seq<i32>)
    requires
        d1.len() > 0,
        d2.len() > 0,
        forall|v: i32| #[trigger] d1.contains(v) <==> d2.contains(v),
    ensures
        lowest(d1) == lowest(d2),
        highest(d1) == highest(d2),
{
    range_covers(d1);
    range_covers(d2);
    assert(d1.contains(lowest(d2)) && d1.contains(highest(d2)));
}

/// The statistics do not depend on the order of the values, nor on how they are split into
/// blocks. The order in which the most frequent values are given is open.
pub proof fn order_does_not_matter(s1: Statistics, d1: Seq<i32>, s2: Statistics, d2: Seq<i32>)
    requires
        d1.len() > 0,
        d1.to_multiset() == d2.to_multiset(),
        are_statistics(s1, d1),
        are_statistics(s2, d2),
    ensures
        s1.total_values == s2.total_values,
        s1.distinct_count == s2.distinct_count,
        s1.min == s2.min,
        s1.max == s2.max,
        s1.mean == s2.mean,
        s1.median == s2.median,
        s1.percentiles == s2.percentiles,
        s1.mode_frequency == s2.mode_frequency,
        s1.mode@.to_set() == s2.mode@.to_set(),
        s1.frequency_map@ == s2.frequency_map@,
        s1.frequency_buckets@ == s2.frequency_buckets@,
{
    lemma_same_values(d1, d2);
    lemma_same_sum(d1, d2);
    lemma_same_range(d1, d2);
    lemma_same_buckets(s1.frequency_buckets@, d1, s2.frequency_buckets@, d2);
    lemma_same_modes(s1, d1, s2, d2);
    lemma_same_frequencies(s1.frequency_map@, d1, s2.frequency_map@, d2);
}

/// The median is the percentile 50.
pub proof fn median_is_percentile(stats: Statistics, data: Seq<i32>)
    requires
        are_statistics(stats, data),
    ensures
        stats.median == stats.percentiles.p50,
{
}

/// The blocks of a data set are joined in their order.
pub proof fn blocks_are_joined(blocks: Seq<Vec<i32>>)
    ensures
        flattened(blocks) == blocks.map_values(|block: Vec<i32>| block@).flatten(),
    decreases blocks.len(),
{
    let views = blocks.map_values(|block: Vec<i32>| block@);
    views.lemma_flatten_and_flatten_alt_are_equivalent();
    if blocks.len() > 0 {
        let before = blocks.drop_last().map_values(|block: Vec<i32>| block@);
        blocks_are_joined(blocks.drop_last());
        before.lemma_flatten_and_flatten_alt_are_equivalent();
        assert(views.drop_last() =~= before);
    }
}

/// The sum of a data set is that of its parts, and the sum of one value is the value.
pub proof fn sums_add_up(a: Seq<i32>, b: Seq<i32>, v: i32)
    ensures
        sum_of(a + b) == sum_of(a) + sum_of(b),
        sum_of(seq![v]) == v,
    decreases b.len(),
{
    assert(seq![v].drop_last() =~= Seq::empty());
    assert(sum_of(Seq::empty()) == 0);
    if b.len() == 0 {
        assert(a + b =~= a);
    } else {
        sums_add_up(a, b.drop_last(), v);
        assert((a + b).drop_last() =~= a + b.drop_last());
    }
}

/// The mean times the number of values is the sum, up to one part in 2^51.
pub proof fn mean_is_the_average(stats: Statistics, data: Seq<i32>)
    requires
        0 < data.len() <= MANTISSA_END,
        i64::MIN <= sum_of(data) <= i64::MAX,
        are_statistics(stats, data),
    ensures
        stats.mean is Finite,
        0x8_0000_0000_0000 * (scaled(stats.mean) * data.len() - sum_of(data) * unit()) <= size_of(
            sum_of(data) * unit(),
        ),
        0x8_0000_0000_0000 * (sum_of(data) * unit() - scaled(stats.mean) * data.len()) <= size_of(
            sum_of(data) * unit(),
        ),
{
    let sum = sum_of(data);
    let n = data.len();
    let a = Double::spec_of(sum);
    let b = Double::spec_of(n as int);
    let u = unit() as int;
    lemma_unit();
    vstd::arithmetic::power2::lemma2_to64();
    vstd::arithmetic::power2::lemma2_to64_rest();
    Double::lemma_of_within(sum);
    nearest_is_close(sum, 0, 63);
    count_is_exact(n);
    quotient_is_close(a, b);
    let v = scaled(a);
    let q = scaled(stats.mean);
    assert(v * u - q * (n * u) == (v - q * n) * u && q * (n * u) == (q * n) * u)
        by (nonlinear_arith);
    lemma_without_unit(v - q * n, q * n, u);
}

/// Each percentile lies where it says among the values in ascending order, for up to 2^42
/// values.
pub proof fn percentiles_lie_between(stats: Statistics, data: Seq<i32>, sorted: Seq<i32>)
    requires
        0 < data.len() <= 0x400_0000_0000,
        are_statistics(stats, data),
        sorted.to_multiset() == data.to_multiset(),
        forall|i: int, j: int| 0 <= i <= j < sorted.len() ==> sorted[i] <= sorted[j],
    ensures
        lies_at(stats.percentiles.p25, 25, sorted),
        lies_at(stats.percentiles.p50, 50, sorted),
        lies_at(stats.median, 50, sorted),
        lies_at(stats.percentiles.p75, 75, sorted),
        lies_at(stats.percentiles.p90, 90, sorted),
        lies_at(stats.percentiles.p95, 95, sorted),
        lies_at(stats.percentiles.p99, 99, sorted),
{
    let leq = |a: i32, b: i32| a <= b;
    assert(vstd::relations::total_ordering(leq));
    data.lemma_sort_by_ensures(leq);
    assert(vstd::relations::sorted_by(sorted, leq));
    vstd::seq_lib::lemma_sorted_unique(sorted, sorted_values(data), leq);
    vstd::seq_lib::to_multiset_len(data);
    vstd::seq_lib::to_multiset_len(sorted);
    percentile_lies_between(sorted, 25);
    percentile_lies_between(sorted, 50);
    percentile_lies_between(sorted, 75);
    percentile_lies_between(sorted, 90);
    percentile_lies_between(sorted, 95);
    percentile_lies_between(sorted, 99);
}

/// Puts the blocks together.
fn flatten(blocks: &[Vec<i32>]) -> (values: Vec<i32>)
    requires
        flattened(blocks@).len() <= usize::MAX,
    ensures
        values@ == flattened(blocks@),
{
    let mut values: Vec<i32> = Vec::new();
    let mut b: usize = 0;
    while b < blocks.len()
        invariant
            b <= blocks@.len(),
            values@ == flattened(blocks@.take(b as int)),
        decreases blocks@.len() - b,
    {
        let block = &blocks[b];
        let ghost before = values@;
        let mut i: usize = 0;
        while i < block.len()
            invariant
                i <= block@.len(),
                values@ == before + block@.take(i as int),
            decreases block@.len() - i,
        {
            values.push(block[i]);
            assert(values@ =~= before + block@.take(i + 1));
            i = i + 1;
        }
        proof {
            let next = blocks@.take(b + 1);
            assert(block@.take(i as int) =~= block@);
            assert(next.drop_last() =~= blocks@.take(b as int));
            assert(next.last() == blocks@[b as int]);
        }
        b = b + 1;
    }
    assert(blocks@.take(b as int) =~= blocks@);
    values
}

/// Adds the values up.
fn sum_values(data: &Vec<i32>) -> (sum: i64)
    requires
        sums_fit(data@),
    ensures
        sum == sum_of(data@),
{
    let mut sum: i64 = 0;
    let mut i: usize = 0;
    while i < data.len()
        invariant
            i <= data@.len(),
            sums_fit(data@),
            sum == sum_of(data@.take(i as int)),
        decreases data@.len() - i,
    {
        proof {
            let next = data@.take(i + 1);
            assert(next.drop_last() =~= data@.take(i as int));
            assert(sum_of(next) == sum + data@[i as int]);
            assert(i64::MIN <= sum_of(data@.take(i + 1)) <= i64::MAX);
        }
        sum = sum + data[i] as i64;
        i = i + 1;
    }
    assert(data@.take(i as int) =~= data@);
    sum
}

/// The order of the integers.
pub struct ByValue;

impl Ranking<i32> for ByValue {
    open spec fn rank(x: i32) -> int {
        x as int
    }

    fn before(a: &i32, b: &i32) -> (r: bool) {
        *a <= *b
    }
}

/// Sorts the values.
fn sort_values(values: Vec<i32>) -> (sorted: Vec<i32>)
    ensures
        sorted@ == sorted_values(values@),
        sorted@.len() == values@.len(),
{
    let sorted = sort::<i32, ByValue>(values);
    proof {
        let leq = |a: i32, b: i32| a <= b;
        assert(vstd::relations::total_ordering(leq));
        values@.lemma_sort_by_ensures(leq);
        assert forall|i: int, j: int| 0 <= i < j < sorted@.len() implies #[trigger] leq(
            sorted@[i],
            sorted@[j],
        ) by {
            assert(ByValue::rank(sorted@[i]) <= ByValue::rank(sorted@[j]));
        }
        vstd::seq_lib::lemma_sorted_unique(sorted@, sorted_values(values@), leq);
    }
    sorted
}

/// The values that occur most often, given a tally with the most frequent values first.
fn most_frequent(full: &Vec<(i32, u64)>, Ghost(data): Ghost<Seq<i32>>) -> (mode: Vec<i32>)
    requires
        full@.len() > 0,
        is_tally(full@, data),
        most_frequent_first(full@),
    ensures
        are_all_with(mode@, data, full@[0].1 as nat),
{
    let greatest = full[0].1;
    let mut mode: Vec<i32> = Vec::new();
    let mut i: usize = 0;
    while i < full.len() && full[i].1 == greatest
        invariant
            i <= full@.len(),
            full@.len() > 0,
            greatest == full@[0].1,
            mode@.len() == i,
            forall|k: int| 0 <= k < i ==> #[trigger] mode@[k] == full@[k].0,
            forall|k: int| 0 <= k < i ==> (#[trigger] full@[k]).1 == greatest,
        decreases full@.len() - i,
    {
        mode.push(full[i].0);
        i = i + 1;
    }
    proof {
        assert forall|a: int, b: int|
            0 <= a < mode@.len() && 0 <= b < mode@.len() && a != b implies mode@[a] != mode@[b] by {
            assert(full@[a].0 != full@[b].0);
        }
        assert forall|v: i32| #[trigger] mode@.contains(v) <==> data.contains(v) && occurrences(
            data,
            v,
        ) == greatest by {
            if mode@.contains(v) {
                let k = choose|k: int| 0 <= k < mode@.len() && mode@[k] == v;
                assert(data.contains(full@[k].0));
            }
            if data.contains(v) && occurrences(data, v) == greatest {
                assert(has_key(full@, v));
                let k = choose|k: int| 0 <= k < full@.len() && (#[trigger] full@[k]).0 == v;
                if k >= i {
                    assert(full@[i as int].1 >= full@[k].1);
                    assert(full@[0].1 >= full@[i as int].1);
                }
                assert(mode@[k] == v);
            }
        }
    }
    mode
}

/// Groups a tally with the most frequent values first by its counts.
fn group_by_count(full: &Vec<(i32, u64)>, Ghost(data): Ghost<Seq<i32>>) -> (buckets: Vec<
    FrequencyBucket,
>)
    requires
        is_tally(full@, data),
        most_frequent_first(full@),
        data.len() <= usize::MAX,
    ensures
        are_buckets(buckets@, data),
{
    let mut buckets: Vec<FrequencyBucket> = Vec::new();
    let mut i: usize = full.len();
    while i > 0
        invariant
            i <= full@.len(),
            data.len() <= usize::MAX,
            is_tally(full@, data),
            most_frequent_first(full@),
            i < full@.len() ==> buckets@.len() > 0,
            i < full@.len() ==> buckets@.last().frequency == full@[i as int].1,
            i == full@.len() ==> buckets@.len() == 0,
            forall|a: int, b: int|
                0 <= a < b < buckets@.len() ==> (#[trigger] buckets@[a]).frequency < (
                #[trigger] buckets@[b]).frequency,
            forall|a: int|
                0 <= a < buckets@.len() ==> (#[trigger] buckets@[a]).count > 0 && buckets@[a].count
                    == entries_with(full@, i as int, buckets@[a].frequency as nat),
            forall|a: int|
                0 <= a < buckets@.len() ==> (#[trigger] buckets@[a]).count <= full@.len() - i,
            forall|k: int|
                i <= k < full@.len() ==> has_bucket(buckets@, (#[trigger] full@[k]).1 as nat),
        decreases i,
    {
        let ghost before = buckets@;
        let count = full[i - 1].1;
        proof {
            lemma_occurs(data, full@[i - 1].0);
            assert(count == occurrences(data, full@[i - 1].0));
            if i < full@.len() {
                assert(full@[i - 1].1 >= full@[i as int].1);
            }
        }
        let frequency = count as usize;
        let last = buckets.len();
        let same = last > 0 && buckets[last - 1].frequency == frequency;
        if same {
            let old_count = buckets[last - 1].count;
            assert(full@.len() == full.len());
            buckets.set(last - 1, FrequencyBucket { frequency, count: old_count + 1 });
        } else {
            proof {
                lemma_no_such_count(full@, i as int, frequency as nat);
            }
            buckets.push(FrequencyBucket { frequency, count: 1 });
        }
        proof {
            assert forall|a: int| 0 <= a < buckets@.len() implies (#[trigger] buckets@[a]).count > 0
                && buckets@[a].count == entries_with(
                full@,
                i - 1,
                buckets@[a].frequency as nat,
            ) by {
                if a < before.len() {
                    assert(before[a].count == entries_with(
                        full@,
                        i as int,
                        before[a].frequency as nat,
                    ));
                    if a < before.len() - 1 {
                        assert(before[a].frequency < before[before.len() - 1].frequency);
                    }
                }
            }
            assert forall|k: int| i - 1 <= k < full@.len() implies has_bucket(
                buckets@,
                (#[trigger] full@[k]).1 as nat,
            ) by {
                if k == i - 1 {
                    assert(buckets@[buckets@.len() - 1].frequency == frequency);
                } else {
                    assert(has_bucket(before, full@[k].1 as nat));
                    let a = choose|a: int|
                        0 <= a < before.len() && (#[trigger] before[a]).frequency == full@[k].1;
                    assert(buckets@[a].frequency == full@[k].1);
                }
            }
        }
        i = i - 1;
    }
    proof {
        assert forall|a: int| 0 <= a < buckets@.len() implies (#[trigger] buckets@[a]).count > 0
            && buckets@[a].count == values_with(data, buckets@[a].frequency as nat) by {
            entries_with_is_values_with(full@, data, buckets@[a].frequency as nat);
        }
        assert forall|v: i32| #[trigger] data.contains(v) implies has_bucket(
            buckets@,
            occurrences(data, v),
        ) by {
            assert(has_key(full@, v));
            let k = choose|k: int| 0 <= k < full@.len() && (#[trigger] full@[k]).0 == v;
            assert(has_bucket(buckets@, full@[k].1 as nat));
        }
    }
    buckets
}

/// A greater count than that of the entry `i` does not occur from there on.
proof fn lemma_no_such_count(entries: Seq<(i32, u64)>, i: int, count: nat)
    requires
        most_frequent_first(entries),
        0 <= i <= entries.len(),
        i < entries.len() ==> entries[i].1 < count,
    ensures
        entries_with(entries, i, count) == 0,
    decreases entries.len() - i,
{
    if i < entries.len() {
        if i + 1 < entries.len() {
            assert(entries[i].1 >= entries[i + 1].1);
        }
        lemma_no_such_count(entries, i + 1, count);
    }
}

/// The greatest number of occurrences of a value is that of the first entry of a tally
/// with the most frequent values first.
proof fn lemma_greatest_first(full: Seq<(i32, u64)>, data: Seq<i32>)
    requires
        data.len() > 0,
        is_tally(full, data),
        most_frequent_first(full),
    ensures
        full.len() > 0,
        is_greatest_frequency(full[0].1 as nat, data),
        full[0].1 <= data.len(),
{
    assert(data.contains(data[0]));
    assert(has_key(full, data[0]));
    assert(data.contains(full[0].0));
    lemma_occurs(data, full[0].0);
    assert forall|v: i32| #[trigger] occurrences(data, v) <= full[0].1 by {
        lemma_occurs(data, v);
        if data.contains(v) {
            assert(has_key(full, v));
            let k = choose|k: int| 0 <= k < full.len() && (#[trigger] full[k]).0 == v;
            assert(full[0].1 >= full[k].1);
        }
    }
    assert(occurrences(data, full[0].0) == full[0].1);
}

/// Analyzes a data set that is not empty.
pub fn analyze_data(blocks: &[Vec<i32>]) -> (stats: Statistics)
    requires
        0 < flattened(blocks@).len() <= usize::MAX,
        flattened(blocks@).len() <= MANTISSA_END,
        sums_fit(flattened(blocks@)),
    ensures
        are_statistics(stats, flattened(blocks@)),
{
    let all_values = flatten(blocks);
    let ghost data = all_values@;
    let total_values = all_values.len();
    let frequency_map = count_frequencies(all_values.as_slice());
    let distinct_count = frequency_map.len();
    let min = min_value(all_values.as_slice());
    let max = max_value(all_values.as_slice());
    let sum = sum_values(&all_values);
    let mean = Double::of_i64(sum).div(Double::of_u64(total_values as u64));
    let full = ranked_frequencies(&frequency_map);
    proof {
        lemma_widened(frequency_map@, data);
        lemma_lists_tally(full@, widened(frequency_map@), data);
        lemma_greatest_first(full@, data);
    }
    let mode_frequency = full[0].1 as usize;
    let mode = most_frequent(&full, Ghost(data));
    let frequency_buckets = group_by_count(&full, Ghost(data));
    let sorted = sort_values(all_values);
    let median = percentile(&sorted, 50);
    let percentiles = Percentiles {
        p25: percentile(&sorted, 25),
        p50: median,
        p75: percentile(&sorted, 75),
        p90: percentile(&sorted, 90),
        p95: percentile(&sorted, 95),
        p99: percentile(&sorted, 99),
    };
    Statistics {
        total_values,
        distinct_count,
        min,
        max,
        mean,
        median,
        mode,
        mode_frequency,
        frequency_map,
        frequency_buckets,
        percentiles,
    }
}

} // verus!
