//! Statistics of data sets.
use skip_list::double::Double;
use skip_list::percentile::percentile;
use skip_list::statistics::{analyze_data, FrequencyBucket};

fn value(d: Double) -> f64 {
    match d {
        Double::Finite { negative, mantissa, exponent } => {
            let magnitude = mantissa as f64 * 2f64.powi(exponent);
            if negative {
                -magnitude
            } else {
                magnitude
            }
        }
        _ => f64::NAN,
    }
}

/// The same interpolation in the arithmetic of the machine.
fn interpolated(sorted: &[i32], p: f64) -> f64 {
    let rank = (p / 100.0) * (sorted.len() - 1) as f64;
    let lower = rank.floor() as usize;
    let upper = rank.ceil() as usize;
    let fraction = rank - lower as f64;
    if lower == upper {
        sorted[lower] as f64
    } else {
        sorted[lower] as f64 * (1.0 - fraction) + sorted[upper] as f64 * fraction
    }
}

#[test]
fn statistics_of_a_small_data_set() {
    let stats = analyze_data(&[vec![3, 1, 3], vec![], vec![-2, 1, 7]]);
    assert_eq!(stats.total_values, 6);
    assert_eq!(stats.distinct_count, 4);
    assert_eq!(stats.min, -2);
    assert_eq!(stats.max, 7);
    assert_eq!(value(stats.mean), 13.0 / 6.0);
    assert_eq!(value(stats.median), 2.0);
    assert_eq!(value(stats.percentiles.p25), 1.0);
    assert_eq!(value(stats.percentiles.p50), 2.0);
    assert_eq!(value(stats.percentiles.p75), 3.0);
    assert_eq!(value(stats.percentiles.p90), 5.0);
    assert_eq!(value(stats.percentiles.p95), 6.0);
    assert_eq!(stats.mode_frequency, 2);
    let mut mode = stats.mode.clone();
    mode.sort();
    assert_eq!(mode, vec![1, 3]);
    assert_eq!(stats.frequency_map.len(), 4);
    assert_eq!(stats.frequency_map.get(&3), Some(&2));
    assert_eq!(stats.frequency_map.get(&7), Some(&1));
    assert_eq!(
        stats.frequency_buckets,
        vec![
            FrequencyBucket { frequency: 1, count: 2 },
            FrequencyBucket { frequency: 2, count: 2 },
        ]
    );
}

#[test]
fn statistics_of_a_single_value() {
    let stats = analyze_data(&[vec![-5]]);
    assert_eq!(stats.total_values, 1);
    assert_eq!(stats.min, -5);
    assert_eq!(stats.max, -5);
    assert_eq!(value(stats.mean), -5.0);
    assert_eq!(value(stats.percentiles.p99), -5.0);
    assert_eq!(stats.mode, vec![-5]);
    assert_eq!(stats.frequency_buckets, vec![FrequencyBucket { frequency: 1, count: 1 }]);
}

#[test]
fn statistics_of_extreme_values() {
    let stats = analyze_data(&[vec![i32::MIN, i32::MAX, i32::MIN]]);
    assert_eq!(stats.min, i32::MIN);
    assert_eq!(stats.max, i32::MAX);
    assert_eq!(value(stats.mean), (2 * i32::MIN as i64 + i32::MAX as i64) as f64 / 3.0);
    assert_eq!(stats.mode, vec![i32::MIN]);
    assert_eq!(stats.mode_frequency, 2);
    assert_eq!(value(stats.percentiles.p75), interpolated(&[i32::MIN, i32::MIN, i32::MAX], 75.0));
}

#[test]
fn buckets_cover_all_values() {
    let mut data = Vec::new();
    for i in 0..50 {
        for _ in 0..(i % 7) + 1 {
            data.push(i);
        }
    }
    let stats = analyze_data(&[data.clone()]);
    let values: usize = stats.frequency_buckets.iter().map(|b| b.count).sum();
    let positions: usize = stats.frequency_buckets.iter().map(|b| b.count * b.frequency).sum();
    assert_eq!(values, stats.distinct_count);
    assert_eq!(positions, stats.total_values);
    assert_eq!(stats.frequency_buckets[0], FrequencyBucket { frequency: 1, count: 8 });
    assert_eq!(stats.frequency_buckets[6], FrequencyBucket { frequency: 7, count: 7 });
    assert_eq!(stats.mode_frequency, 7);
    assert_eq!(stats.mode.len(), 7);
}

#[test]
fn percentiles_are_interpolated() {
    let mut x = 12345u64;
    for n in 1..200usize {
        let mut sorted = Vec::new();
        for _ in 0..n {
            x = x.wrapping_mul(6364136223846793005).wrapping_add(1442695040888963407);
            sorted.push((x >> 32) as i32);
        }
        sorted.sort();
        for p in [0u64, 1, 10, 25, 33, 50, 75, 90, 95, 99, 100] {
            assert_eq!(value(percentile(&sorted, p)), interpolated(&sorted, p as f64));
        }
    }
}

#[test]
fn a_percentile_is_a_value_where_the_place_is_whole() {
    let sorted = vec![10, 20, 30, 40, 50];
    assert_eq!(percentile(&sorted, 25), Double::of_i64(20));
    assert_eq!(percentile(&sorted, 50), Double::of_i64(30));
    assert_eq!(percentile(&sorted, 75), Double::of_i64(40));
    assert_eq!(value(percentile(&sorted, 90)), interpolated(&sorted, 90.0));
}
