//! What holds of every index, size and order, on examples.
use skip_list::compressed::{build_hybrid_index, query_hybrid_index};
use skip_list::double::Double;
use skip_list::frequencies::top_frequencies;
use skip_list::parameter::Parameter;
use skip_list::percentile::percentile;
use skip_list::sizing::{bloom_bytes, probes};
use skip_list::statistics::analyze_data;
use skip_list::tally::{count_values, entries_by_count, top_entries};
use skip_list::{
    user, user_adaptive_v1, user_bitmap_counts_v1, user_cheetos_v2, user_cheetos_v7,
    user_heavy_hitters_v1,
};
use std::collections::HashMap;

const ANY: Parameter = Parameter { factor_size: 1, factor_skip: 1 };

fn value(d: Double) -> f64 {
    match d {
        Double::Finite { negative, mantissa, exponent } => {
            let magnitude = mantissa as f64 * 2f64.powi(exponent);
            if negative {
                -magnitude
            } else {
                magnitude
            }
        }
        _ => f64::NAN,
    }
}

fn whole(n: u64) -> Double {
    Double::decimal(n, 1)
}

fn hundredths(n: u64) -> Double {
    Double::decimal(n, 100)
}

fn map(pairs: &[(i32, u64)]) -> HashMap<i32, u64> {
    pairs.iter().cloned().collect()
}

#[test]
fn a_list_of_all_keys_answers_everything() {
    let counts = map(&[(i32::MIN, 3), (-1, 1), (0, 9), (i32::MAX, u64::MAX)]);
    let index = user::build_compressed_hashmap(&counts);
    for query in [i32::MIN, i32::MIN + 1, -2, -1, 0, 1, i32::MAX - 1, i32::MAX] {
        let expected = counts.get(&query).copied().unwrap_or(0);
        assert_eq!(user::query_idx(&ANY, &index, &query), Some(expected));
    }
    let none = user::build_compressed_hashmap(&HashMap::new());
    assert_eq!(user::query_idx(&ANY, &none, &7), Some(0));
}

#[test]
fn a_list_of_the_most_frequent_keys_answers_as_many() {
    let mut counts = HashMap::new();
    for v in 0..400 {
        counts.insert(v - 200, (v as u64 * 37) % 90 + 1);
    }
    for (ratio, k) in [(1, 50), (3, 100), (6, 200)] {
        let index = user::build_topk_index(&counts, whole(ratio));
        let mut listed = 0;
        let mut least = u64::MAX;
        let mut most_left_out = 0;
        for query in -1000..1000 {
            match (user::query_idx(&ANY, &index, &query), counts.get(&query)) {
                (Some(count), expected) => {
                    assert_eq!(Some(&count), expected);
                    listed += 1;
                    least = least.min(count);
                }
                (None, Some(count)) => most_left_out = most_left_out.max(*count),
                (None, None) => {}
            }
        }
        assert_eq!(listed, k);
        assert!(most_left_out <= least);
    }
    let few = map(&[(5, 1), (6, 2)]);
    let index = user::build_topk_index(&few, whole(1));
    assert_eq!(user::query_idx(&ANY, &index, &5), Some(1));
    assert_eq!(user::query_idx(&ANY, &index, &6), Some(2));
    assert_eq!(user::query_idx(&ANY, &index, &7), None);
}

#[test]
fn the_most_frequent_keys_of_a_map() {
    let counts = map(&[(1, 5), (2, 9), (3, 5), (4, 1)]);
    assert_eq!(top_entries(&counts, 1), vec![(2, 9)]);
    let three = top_entries(&counts, 3);
    assert_eq!(three[0], (2, 9));
    assert_eq!(three[1].1, 5);
    assert_eq!(three[2].1, 5);
    assert_eq!(top_entries(&counts, 9).len(), 4);
    assert!(top_entries(&counts, 0).is_empty());
}

#[test]
fn a_bitmap_answers_what_is_absent() {
    let counts = map(&[(-3, 1), (0, 4), (12, 2)]);
    let index = user_bitmap_counts_v1::build_bitmap_index(-8, 20, &counts);
    for query in -30..40 {
        let expected = if counts.contains_key(&query) { None } else { Some(0) };
        assert_eq!(user_bitmap_counts_v1::query_idx(&ANY, &index, &query), expected);
    }
}

#[test]
fn bitmaps_with_counts_answer_everything() {
    let counts = map(&[(-3, 1), (0, u64::MAX), (12, 300)]);
    let hybrid = user_bitmap_counts_v1::build_hybrid_index(-8, 20, &counts);
    let dense = user_cheetos_v7::build_dense_bitmap(&counts, -8, 20);
    for query in -30..40 {
        let expected = Some(counts.get(&query).copied().unwrap_or(0));
        assert_eq!(user_bitmap_counts_v1::query_idx(&ANY, &hybrid, &query), expected);
        assert_eq!(user_cheetos_v7::query_idx(&ANY, &dense, &query), expected);
    }
    let none = user_bitmap_counts_v1::build_hybrid_index(3, 3, &HashMap::new());
    assert_eq!(user_bitmap_counts_v1::query_idx(&ANY, &none, &3), Some(0));
}

#[test]
fn a_bitmap_with_a_table_answers_everything() {
    let data = [4, -9, 4, 31, 4, -9];
    let index = user_adaptive_v1::build_bitmap_index(&data, &count_values(&data));
    for query in -50..50 {
        let expected = data.iter().filter(|v| **v == query).count() as u64;
        assert_eq!(user_adaptive_v1::query_idx(&ANY, &index, &query), Some(expected));
    }
}

#[test]
fn a_filter_misses_no_value() {
    let data: Vec<i32> = (0..3000).map(|i| i * 17 - 20_000).collect();
    for size in [1, 512, 20_000] {
        let index = user_cheetos_v2::build_bloom_only(&data, size);
        assert_eq!(index.len(), 2 + size);
        for v in &data {
            assert_eq!(user_cheetos_v2::query_idx(&ANY, &index, v), None);
        }
        let empty = user_cheetos_v2::build_bloom_only(&[], size);
        for query in [i32::MIN, -1, 0, 77, i32::MAX] {
            assert_eq!(user_cheetos_v2::query_idx(&ANY, &empty, &query), Some(0));
        }
    }
}

#[test]
fn list_lengths_of_heavy_hitters() {
    let top_k = user_heavy_hitters_v1::calculate_top_k;
    assert_eq!(top_k(whole(40), 10_000, hundredths(60)), 250);
    assert_eq!(top_k(whole(40), 10_000, hundredths(50)), 180);
    assert_eq!(top_k(whole(40), 60, hundredths(60)), 20);
    assert_eq!(top_k(whole(40), 0, hundredths(60)), 10);
    assert_eq!(top_k(whole(1), 10_000, hundredths(99)), 15);
    for ratio in [1, 4, 7, 11, 16, 26, 36] {
        let mut last = 0;
        for step in 0..100u64 {
            let distinct = step as usize * 9;
            let k = top_k(whole(ratio), distinct, hundredths(step));
            assert!(last <= k && 10 <= k && k <= 250 && k <= 10.max(distinct / 3));
            last = k;
        }
    }
}

#[test]
fn filter_sizes_of_heavy_hitters() {
    let size = user_heavy_hitters_v1::calculate_bloom_size;
    let limits = [
        (31, 1024, 5120),
        (21, 768, 4096),
        (13, 640, 3072),
        (7, 512, 2048),
        (4, 384, 1280),
        (3, 256, 896),
    ];
    for (ratio, lo, hi) in limits {
        assert_eq!(size(whole(ratio), 0, hundredths(10)), lo);
        assert_eq!(size(whole(ratio), usize::MAX, hundredths(10)), hi);
        let mut last = lo;
        for distinct in (0..10_000).step_by(100) {
            let now = size(whole(ratio), distinct, hundredths(10));
            assert!(last <= now && now <= hi);
            last = now;
        }
    }
    let bits = (1500.0 * 4.017383521085972 / 0.4804530139182014f64).ceil() as usize;
    assert_eq!(size(whole(7), 1500, hundredths(10)), (bits + 7) / 8);
}

#[test]
fn list_lengths_follow_the_concentration() {
    let top_k = user_cheetos_v7::calculate_adaptive_top_k;
    assert_eq!(top_k(whole(26), 10_000, hundredths(51)), 300);
    assert_eq!(top_k(whole(26), 10_000, hundredths(50)), 260);
    assert_eq!(top_k(whole(26), 10_000, hundredths(30)), 229);
    assert_eq!(top_k(whole(26), 10_000, hundredths(15)), 200);
    assert_eq!(top_k(whole(26), 100, hundredths(51)), 50);
    assert_eq!(top_k(whole(26), 0, hundredths(51)), 10);
    let mut last = 0;
    for step in 0..60u64 {
        let distinct = step as usize * 12;
        let k = top_k(whole(step), distinct, hundredths(step));
        assert!(last <= k && 10 <= k && k <= 300 && k <= 10.max(distinct / 2));
        last = k;
    }
}

#[test]
fn filter_sizes_follow_the_ratio() {
    let size = user_cheetos_v7::calculate_adaptive_bloom_size;
    for (ratio, lo, hi) in [(21, 768, 6144), (16, 768, 4096), (11, 512, 4096), (3, 512, 3072)] {
        assert_eq!(size(whole(ratio), 0, hundredths(10)), lo);
        assert_eq!(size(whole(ratio), usize::MAX, hundredths(10)), hi);
        let mut last = lo;
        for distinct in (0..10_000).step_by(100) {
            let now = size(whole(ratio), distinct, hundredths(10));
            assert!(last <= now && now <= hi);
            last = now;
        }
    }
}

#[test]
fn adaptive_parameters_stay_in_range() {
    let data: Vec<i32> = (0..4000).map(|i| (i * i) % 1009).collect();
    let full = entries_by_count(&count_values(&data));
    let params = user_cheetos_v2::calculate_adaptive_params;
    for factor_skip in [1, 10, 100, 10_000, 1_000_000] {
        let parameter = Parameter { factor_size: 1, factor_skip };
        let (k, size) = params(&parameter, &data, &full);
        assert!(5 <= k && k <= 100);
        assert!(512 <= size && size <= 8192);
        let rest = full.len().saturating_sub(k);
        assert_eq!(
            size,
            user_cheetos_v2::calculate_optimal_bloom_size(rest, parameter.ratio())
        );
    }
    for factor_skip in [0, -1, -1000] {
        let parameter = Parameter { factor_size: 3, factor_skip };
        assert_eq!(params(&parameter, &data, &full).0, 10);
    }
}

#[test]
fn filters_have_no_fixed_limit() {
    let exponent = Double::decimal(4605170185988091, 1_000_000_000_000_000);
    let bits = (1_000_000.0 * 4.605170185988091 / 0.4804530139182014f64).ceil() as usize;
    assert_eq!(bloom_bytes(exponent, 1_000_000, 512, 1 << 28), (bits + 7) / 8);
    assert_eq!(bloom_bytes(exponent, 1_000_000, 512, 100_000), 100_000);
    assert_eq!(bloom_bytes(exponent, 0, 512, 1 << 28), 512);
    assert_eq!(value(probes(1 << 20, 1000)), 8388608.0 / 1000.0 * 0.6931471805599453);
    assert_eq!(user_cheetos_v2::calculate_optimal_hash_count(1 << 20, 1_000_000), 6);
    assert_eq!(user_cheetos_v2::calculate_optimal_hash_count(1 << 20, 0), 7);
}

#[test]
fn a_list_with_a_large_filter_and_a_wider_range() {
    let data: Vec<i32> = (0..500).map(|i| (i * i) % 211).collect();
    let full = entries_by_count(&count_values(&data));
    let index = build_hybrid_index(9, &data, &full, 20, 20_000, 3, 5, -1000, 1000);
    assert_eq!(index[0], 9);
    assert_eq!(index[1..5], (-1000i32).to_le_bytes());
    assert_eq!(index[5..9], 1000i32.to_le_bytes());
    let mut listed = 0;
    for query in -1500..1500 {
        let expected = data.iter().filter(|v| **v == query).count() as u64;
        match query_hybrid_index(&index, &query) {
            Some(count) => {
                assert_eq!(count, expected);
                if count > 0 {
                    listed += 1;
                }
            }
            None => assert!(-1000 <= query && query <= 1000),
        }
    }
    assert_eq!(listed, 20);
}

#[test]
fn the_outer_percentiles_are_the_ends() {
    for n in 1..60 {
        let sorted: Vec<i32> = (0..n).map(|i| i * i * i - 5000).collect();
        assert_eq!(value(percentile(&sorted, 0)), sorted[0] as f64);
        assert_eq!(value(percentile(&sorted, 100)), sorted[sorted.len() - 1] as f64);
    }
}

#[test]
fn medians_are_exact() {
    let sorted = vec![i32::MIN, -7, -4, 0, 1, 6, i32::MAX - 1, i32::MAX];
    for n in 1..=sorted.len() {
        for start in 0..=sorted.len() - n {
            let part = sorted[start..start + n].to_vec();
            let expected = if n % 2 == 1 {
                part[n / 2] as f64
            } else {
                (part[n / 2 - 1] as i64 + part[n / 2] as i64) as f64 / 2.0
            };
            assert_eq!(value(percentile(&part, 50)), expected);
        }
    }
    assert_eq!(value(percentile(&vec![1, 2, 3, 4], 50)), 2.5);
}

#[test]
fn the_order_of_the_values_does_not_matter() {
    let data: Vec<i32> = (0..300).map(|i| (i * 7919) % 101 - 50).collect();
    let mut reversed = data.clone();
    reversed.reverse();
    let a = analyze_data(&[data[..100].to_vec(), data[100..].to_vec()]);
    let b = analyze_data(&[reversed]);
    assert_eq!(a.total_values, b.total_values);
    assert_eq!(a.distinct_count, b.distinct_count);
    assert_eq!((a.min, a.max), (b.min, b.max));
    assert_eq!(a.mean, b.mean);
    assert_eq!(a.median, b.median);
    assert_eq!(a.median, a.percentiles.p50);
    assert_eq!(a.percentiles.p25, b.percentiles.p25);
    assert_eq!(a.percentiles.p99, b.percentiles.p99);
    assert_eq!(a.mode_frequency, b.mode_frequency);
    let (mut m, mut n) = (a.mode.clone(), b.mode.clone());
    m.sort();
    n.sort();
    assert_eq!(m, n);
    assert_eq!(a.frequency_map, b.frequency_map);
    assert_eq!(a.frequency_buckets, b.frequency_buckets);
}

#[test]
fn the_most_frequent_values_of_a_data_set() {
    let stats = analyze_data(&[vec![4, 4, 4, 9], vec![9, -2]]);
    assert_eq!(stats.frequency_map.get(&4), Some(&3usize));
    assert_eq!(top_frequencies(&stats.frequency_map, 2), vec![(4, 3), (9, 2)]);
    assert_eq!(top_frequencies(&stats.frequency_map, 10).len(), 3);
}
