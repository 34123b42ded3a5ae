//! Tables of how often each value of a data set occurs.
use std::collections::HashMap;
use vstd::prelude::*;
use vstd::std_specs::iter::IteratorSpec;

use crate::tally::{
    distinct, first_entries, has_key, is_count_map, is_top_of, lemma_lists_rearranged, lemma_occurs,
    lemma_prefix_is_top_of, lists, most_frequent_first, occurrences, sort_by_count,
};

verus! {

/// Whether the map takes exactly the values of `data` to their counts.
pub open spec fn is_frequency_map(m: Map<i32, usize>, data: Seq<i32>) -> bool {
    &&& forall|v: i32| #[trigger] m.contains_key(v) <==> data.contains(v)
    &&& forall|v: i32| #[trigger] m.contains_key(v) ==> m[v] == occurrences(data, v)
}

/// The same counts in 64 bits.
pub open spec fn widened(m: Map<i32, usize>) -> Map<i32, u64> {
    m.map_values(|count: usize| count as u64)
}

/// The counts of a data set in 64 bits are its counts.
pub proof fn lemma_widened(m: Map<i32, usize>, data: Seq<i32>)
    requires
        is_frequency_map(m, data),
    ensures
        is_count_map(widened(m), data),
{
    assert forall|v: i32| #[trigger] widened(m).contains_key(v) <==> data.contains(v) by {
        assert(m.contains_key(v) <==> data.contains(v));
    }
    assert forall|v: i32| #[trigger] widened(m).contains_key(v) implies widened(m)[v]
        == occurrences(data, v) by {
        assert(m.contains_key(v));
    }
}

/// Counts each value of a data set.
pub fn count_frequencies(data: &[i32]) -> (frequencies: HashMap<i32, usize>)
    ensures
        is_frequency_map(frequencies@, data@),
        frequencies@.len() == distinct(data@),
        frequencies@.dom().finite(),
{
    let mut frequencies: HashMap<i32, usize> = HashMap::new();
    let mut i: usize = 0;
    while i < data.len()
        invariant
            i <= data@.len(),
            is_frequency_map(frequencies@, data@.take(i as int)),
        decreases data@.len() - i,
    {
        let val = data[i];
        let ghost seen = data@.take(i as int);
        let ghost before = frequencies@;
        proof {
            lemma_occurs(seen, val);
            assert(data@.take(i + 1).drop_last() =~= seen);
        }
        *frequencies.entry(val).or_insert(0) += 1;
        proof {
            let next = data@.take(i + 1);
            assert(frequencies@ == before.insert(val, (occurrences(seen, val) + 1) as usize));
            assert forall|v: i32| #[trigger] frequencies@.contains_key(v) <==> next.contains(v) by {
                lemma_occurs(next, v);
                lemma_occurs(seen, v);
                assert(before.contains_key(v) <==> seen.contains(v));
            }
            assert forall|v: i32| #[trigger] frequencies@.contains_key(v) implies frequencies@[v]
                == occurrences(next, v) by {
                if v != val {
                    assert(before.contains_key(v));
                }
            }
        }
        i = i + 1;
    }
    assert(data@.take(i as int) =~= data@);
    assert(frequencies@.dom() =~= data@.to_set());
    frequencies
}

/// Lists the entries of the table, in the order in which the map walks them.
fn list_frequencies(frequencies: &HashMap<i32, usize>) -> (entries: Vec<(i32, u64)>)
    ensures
        lists(entries@, widened(frequencies@)),
{
    let mut entries: Vec<(i32, u64)> = Vec::new();
    let iter = frequencies.iter();
    let ghost order = iter.remaining();
    for (k, c) in it: iter
        invariant
            it.seq() == order,
            entries@.len() == it.index(),
            forall|j: int|
                0 <= j < entries@.len() ==> (#[trigger] entries@[j]).0 == *order[j].0
                    && entries@[j].1 == *order[j].1,
    {
        entries.push((*k, *c as u64));
    }
    proof {
        let wide = widened(frequencies@);
        assert(entries@.len() == order.len());
        assert forall|i: int, j: int| 0 <= i < j < entries@.len() implies (#[trigger] entries@[i]).0
            != (#[trigger] entries@[j]).0 by {
            assert(frequencies@.contains_key(*order[i].0));
            assert(frequencies@.contains_key(*order[j].0));
            if *order[i].0 == *order[j].0 {
                assert(order[i] == order[j]);
            }
        }
        assert forall|i: int| 0 <= i < entries@.len() implies wide.contains_key(
            (#[trigger] entries@[i]).0,
        ) && wide[entries@[i].0] == entries@[i].1 by {
            assert(frequencies@.contains_key(*order[i].0));
        }
        assert forall|v: i32| #[trigger] wide.contains_key(v) implies has_key(entries@, v) by {
            assert(order.contains((&v, &frequencies@[v])));
            let i = choose|i: int| 0 <= i < order.len() && order[i] == (&v, &frequencies@[v]);
            assert(entries@[i].0 == v);
        }
    }
    entries
}

/// The entries of the table, the most frequent values first.
pub fn ranked_frequencies(frequencies: &HashMap<i32, usize>) -> (entries: Vec<(i32, u64)>)
    ensures
        lists(entries@, widened(frequencies@)),
        most_frequent_first(entries@),
{
    let listed = list_frequencies(frequencies);
    let sorted = sort_by_count(listed);
    proof {
        lemma_lists_rearranged(listed@, sorted@, widened(frequencies@));
    }
    sorted
}

/// The `k` most frequent values of the table, the most frequent first.
pub fn top_frequencies(frequencies: &HashMap<i32, usize>, k: usize) -> (top: Vec<(i32, u64)>)
    ensures
        most_frequent_first(top@),
        is_top_of(top@, k as nat, widened(frequencies@)),
{
    let full = ranked_frequencies(frequencies);
    proof {
        lemma_prefix_is_top_of(full@, k as nat, widened(frequencies@));
    }
    first_entries(&full, k)
}

} // verus!
