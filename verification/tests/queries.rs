//! Queries against the indexes of small blocks, and against bytes that are no index.
use skip_list::parameter::Parameter;
use skip_list::{
    user, user_adaptive_v1, user_adaptive_v3, user_bitmap_counts_v1, user_cheetos_v1,
    user_cheetos_v2, user_cheetos_v3, user_cheetos_v7, user_compressed, user_heavy_hitters_v1,
};

type Build = fn(&Parameter, &[i32]) -> Box<[u8]>;
type Query = fn(&Parameter, &[u8], &i32) -> Option<u64>;

fn factors(factor_size: i64, factor_skip: i64) -> Parameter {
    Parameter { factor_size, factor_skip }
}

fn le(values: &[i32]) -> Vec<u8> {
    values.iter().flat_map(|v| v.to_le_bytes()).collect()
}

/// `n` values with gaps between them, of which the first ones occur more than once.
fn spread(n: i32, gap: i32) -> Vec<i32> {
    let mut out = Vec::new();
    for i in 0..n {
        for _ in 0..(if i < 30 { 40 - i } else { 1 }) {
            out.push(i * gap - 50);
        }
    }
    out
}

fn occurrences(data: &[i32], v: i32) -> u64 {
    data.iter().filter(|x| **x == v).count() as u64
}

/// Every answer is the number of occurrences.
fn answers_are_right(query: Query, index: &[u8], data: &[i32], queries: &[i32]) {
    for q in queries {
        if let Some(count) = query(&factors(1, 1), index, q) {
            assert_eq!(count, occurrences(data, *q));
        }
    }
}

/// Every query is answered.
fn answers_everything(query: Query, index: &[u8], data: &[i32], queries: &[i32]) {
    for q in queries {
        assert_eq!(query(&factors(1, 1), index, q), Some(occurrences(data, *q)));
    }
}

/// Only the values outside the range of the block are answered.
fn answers_outside(query: Query, index: &[u8], data: &[i32], queries: &[i32]) {
    let min = *data.iter().min().unwrap();
    let max = *data.iter().max().unwrap();
    for q in queries {
        let expected = if *q < min || *q > max { Some(0) } else { None };
        assert_eq!(query(&factors(1, 1), index, q), expected);
    }
}

fn some_queries() -> Vec<i32> {
    let mut out: Vec<i32> = (-100..2000).step_by(7).collect();
    out.extend([-50, -47, -44, 0, 1, 5000, -5000, 100_000]);
    out
}

/// Cut off anywhere, an index is not answered wrongly.
fn survives_truncation(build: Build, query: Query, parameter: Parameter, data: &[i32]) {
    let index = build(&parameter, data);
    let step = 1 + index.len() / 300;
    for n in (0..index.len()).step_by(step) {
        for q in [-50, -47, 0, 3, 10_000_000] {
            let _ = query(&parameter, &index[..n], &q);
        }
    }
}

const ALL: [(Build, Query); 8] = [
    (user::build_idx, user::query_idx),
    (user_adaptive_v3::build_idx, user_adaptive_v3::query_idx),
    (user_cheetos_v1::build_idx, user_cheetos_v1::query_idx),
    (user_cheetos_v2::build_idx, user_cheetos_v2::query_idx),
    (user_cheetos_v3::build_idx, user_cheetos_v3::query_idx),
    (user_cheetos_v7::build_idx, user_cheetos_v7::query_idx),
    (user_compressed::build_idx, user_compressed::query_idx),
    (user_heavy_hitters_v1::build_idx, user_heavy_hitters_v1::query_idx),
];

#[test]
fn no_bytes_give_no_answer() {
    for (_, query) in ALL {
        assert_eq!(query(&factors(1, 1), &[], &0), None);
    }
    assert_eq!(user_adaptive_v1::query_idx(&factors(1, 1), &[], &0), None);
    assert_eq!(user_bitmap_counts_v1::query_idx(&factors(1, 1), &[], &0), None);
}

#[test]
fn unknown_tags_give_no_answer() {
    for (_, query) in ALL {
        for tag in [0, 9, 255] {
            let bytes = vec![tag; 40];
            assert_eq!(query(&factors(1, 1), &bytes, &0), None);
        }
    }
    assert_eq!(user_adaptive_v1::query_idx(&factors(1, 1), &[0, 1, 2, 3], &0), None);
    assert_eq!(user_adaptive_v1::query_idx(&factors(1, 1), &[77; 30], &0), None);
    assert_eq!(user_bitmap_counts_v1::query_idx(&factors(1, 1), &[77; 30], &0), None);
}

#[test]
fn cut_off_indexes_are_harmless() {
    for (build, query) in ALL {
        for (size, skip) in [(10, 1), (1, 1), (1, 4), (1, 30)] {
            for n in [3, 150, 700] {
                survives_truncation(build, query, factors(size, skip), &spread(n, 3));
            }
        }
    }
}

#[test]
fn a_lone_tag_gives_no_answer() {
    for (_, query) in ALL {
        for tag in 1..5 {
            assert_eq!(query(&factors(1, 1), &[tag], &0), None);
        }
    }
    for tag in 1..5 {
        assert_eq!(user_adaptive_v1::query_idx(&factors(1, 1), &[tag], &0), None);
        assert_eq!(user_bitmap_counts_v1::query_idx(&factors(1, 1), &[tag], &0), None);
    }
}

#[test]
fn empty_blocks_have_a_tag_alone() {
    let builds: [Build; 5] = [
        user_cheetos_v1::build_idx,
        user_cheetos_v2::build_idx,
        user_cheetos_v3::build_idx,
        user_cheetos_v7::build_idx,
        user_heavy_hitters_v1::build_idx,
    ];
    for build in builds {
        assert_eq!(&*build(&factors(1, 5), &[]), &[0]);
    }
    let index = user_compressed::build_idx(&factors(1, 5), &[]);
    assert_eq!(&*index, &[2, 0, 0, 0, 0]);
    assert_eq!(user_compressed::query_idx(&factors(1, 5), &index, &3), None);
    let index = user_adaptive_v1::build_idx(&factors(1, 5), &[]);
    assert_eq!(&*index, &[2, 0, 0, 0, 0]);
    assert_eq!(user_adaptive_v1::query_idx(&factors(1, 5), &index, &3), Some(0));
    let index = user_adaptive_v3::build_idx(&factors(1, 5), &[]);
    assert_eq!(&*index, &[2, 0, 0, 0, 0]);
    assert_eq!(user_adaptive_v3::query_idx(&factors(1, 5), &index, &3), Some(0));
}

#[test]
fn user_keeps_the_range_where_size_is_dear() {
    let data = [5, -3, 5, 9];
    let index = user::build_idx(&factors(10, 1), &data);
    let mut expected = vec![1];
    expected.extend(le(&[-3, 9]));
    assert_eq!(&*index, &expected[..]);
    answers_outside(user::query_idx, &index, &data, &some_queries());
}

#[test]
fn user_lists_few_values() {
    let data = [5, -3, 5, 300];
    let index = user::build_idx(&factors(1, 1), &data);
    assert_eq!(&*index, &[2, 3, 5, 1, 16, 2, 0xce, 4, 1]);
    answers_everything(user::query_idx, &index, &data, &some_queries());
}

#[test]
fn user_lists_the_most_frequent_of_many_values() {
    let data = spread(900, 3);
    let index = user::build_idx(&factors(1, 2), &data);
    assert_eq!(index[0], 3);
    assert_eq!(index[1], 50);
    for i in 0..30 {
        let q = i * 3 - 50;
        assert_eq!(user::query_idx(&factors(1, 2), &index, &q), Some(40 - i as u64));
    }
    assert_eq!(user::query_idx(&factors(1, 2), &index, &-49), None);
    assert_eq!(user::query_idx(&factors(1, 2), &index, &1_000_000), None);
    answers_are_right(user::query_idx, &index, &data, &some_queries());
}

#[test]
fn user_lists_that_grow_too_large_give_way() {
    let mut wide = Vec::new();
    for i in 0..1900i32 {
        for _ in 0..128 {
            wide.push(i.wrapping_mul(2_000_003));
        }
    }
    let index = user::build_idx(&factors(1, 11), &wide);
    assert_eq!(index[0], 3);
    assert!(index.len() < 3072);
    let narrow: Vec<i32> = (0..1900).collect();
    let index = user::build_idx(&factors(1, 11), &narrow);
    assert_eq!(index[0], 2);
    assert_eq!(index.len(), 3 + 2 * 1900);
    answers_everything(user::query_idx, &index, &narrow, &some_queries());
}

#[test]
fn a_list_of_too_many_pairs_gives_no_answer() {
    let mut bytes = vec![2];
    bytes.extend([0xff; 9]);
    bytes.push(1);
    bytes.extend([1, 1]);
    assert_eq!(user::query_idx(&factors(1, 1), &bytes, &0), None);
    bytes[0] = 3;
    assert_eq!(user::query_idx(&factors(1, 1), &bytes, &0), None);
    assert_eq!(user::query_idx(&factors(1, 1), &[2, 0], &0), Some(0));
    assert_eq!(user::query_idx(&factors(1, 1), &[3, 0], &0), None);
}

#[test]
fn adaptive_v1_layouts() {
    let data = spread(40, 3);
    let queries = some_queries();
    let range = user_adaptive_v1::build_idx(&factors(5, 1), &data);
    assert_eq!(range[0], 3);
    answers_outside(user_adaptive_v1::query_idx, &range, &data, &queries);
    let table = user_adaptive_v1::build_idx(&factors(1, 3), &data);
    assert_eq!(table[0], 2);
    assert_eq!(table.len(), 5 + 12 * 40);
    answers_everything(user_adaptive_v1::query_idx, &table, &data, &queries);
    let bitmap = user_adaptive_v1::build_idx(&factors(2, 3), &data);
    assert_eq!(bitmap[0], 1);
    assert_eq!(bitmap.len(), 9 + 15 + 4 + 12 * 40);
    answers_everything(user_adaptive_v1::query_idx, &bitmap, &data, &queries);
    for n in 1..bitmap.len() {
        let answer = user_adaptive_v1::query_idx(&factors(2, 3), &bitmap[..n], &-51);
        assert_eq!(answer, if n < 9 { None } else { Some(0) });
        let answer = user_adaptive_v1::query_idx(&factors(2, 3), &bitmap[..n], &-49);
        assert_eq!(answer, if n < 28 { None } else { Some(0) });
    }
}

#[test]
fn adaptive_v3_layouts() {
    let data = spread(40, 3);
    let range = user_adaptive_v3::build_idx(&factors(2, 1), &data);
    assert_eq!(range.len(), 9);
    assert_eq!(range[0], 1);
    answers_outside(user_adaptive_v3::query_idx, &range, &data, &some_queries());
    let table = user_adaptive_v3::build_idx(&factors(10, 6), &data);
    assert_eq!(table[0], 2);
    answers_everything(user_adaptive_v3::query_idx, &table, &data, &some_queries());
}

#[test]
fn bitmap_counts_v1_layouts() {
    let queries = some_queries();
    let few = spread(40, 3);
    let table = user_bitmap_counts_v1::build_idx(&factors(10, 1), &few);
    assert_eq!(table[0], 2);
    answers_everything(user_bitmap_counts_v1::query_idx, &table, &few, &queries);
    let many = spread(1500, 3);
    let range = user_bitmap_counts_v1::build_idx(&factors(10, 1), &many);
    assert_eq!(range[0], 1);
    answers_outside(user_bitmap_counts_v1::query_idx, &range, &many, &queries);
    let hybrid = user_bitmap_counts_v1::build_idx(&factors(1, 3), &many);
    assert_eq!(hybrid[0], 4);
    answers_everything(user_bitmap_counts_v1::query_idx, &hybrid, &many, &queries);
    let bitmap = user_bitmap_counts_v1::build_idx(&factors(2, 3), &many);
    assert_eq!(bitmap[0], 3);
    for q in &queries {
        let expected = if many.contains(q) { None } else { Some(0) };
        assert_eq!(user_bitmap_counts_v1::query_idx(&factors(2, 3), &bitmap, q), expected);
    }
    assert_eq!(user_bitmap_counts_v1::query_idx(&factors(2, 3), &bitmap[..9], &-49), None);
}

#[test]
fn cheetos_v1_layouts() {
    let queries = some_queries();
    let few = spread(8, 3);
    let exact = user_cheetos_v1::build_idx(&factors(1, 1), &few);
    assert_eq!(exact[0], 1);
    assert_eq!(exact.len(), 5 + 12 * 8);
    answers_everything(user_cheetos_v1::query_idx, &exact, &few, &queries);
    let many = spread(600, 3);
    let index = user_cheetos_v1::build_idx(&factors(1, 1), &many);
    assert_eq!(index[0], 2);
    assert_eq!(index.len(), 5 + 12 * 10 + 2048);
    answers_are_right(user_cheetos_v1::query_idx, &index, &many, &queries);
    for i in 0..10 {
        let q = i * 3 - 50;
        assert_eq!(user_cheetos_v1::query_idx(&factors(1, 1), &index, &q), Some(40 - i as u64));
    }
    for i in 10..600 {
        assert_eq!(user_cheetos_v1::query_idx(&factors(1, 1), &index, &(i * 3 - 50)), None);
    }
}

#[test]
fn cheetos_v2_layouts() {
    let queries = some_queries();
    let few = spread(5, 3);
    let exact = user_cheetos_v2::build_idx(&factors(1, 1), &few);
    assert_eq!(exact[0], 1);
    answers_everything(user_cheetos_v2::query_idx, &exact, &few, &queries);
    let many = spread(600, 3);
    let range = user_cheetos_v2::build_idx(&factors(3, 1), &many);
    assert_eq!(range[0], 4);
    answers_outside(user_cheetos_v2::query_idx, &range, &many, &queries);
    let filter = user_cheetos_v2::build_idx(&factors(1, 1), &many);
    assert_eq!(filter[0], 2);
    assert_eq!(filter.len(), 2 + 512);
    answers_are_right(user_cheetos_v2::query_idx, &filter, &many, &queries);
    for i in 0..600 {
        assert_eq!(user_cheetos_v2::query_idx(&factors(1, 1), &filter, &(i * 3 - 50)), None);
    }
    let list = user_cheetos_v2::build_idx(&factors(1, 6), &many);
    assert_eq!(list[0], 3);
    answers_are_right(user_cheetos_v2::query_idx, &list, &many, &queries);
    assert_eq!(user_cheetos_v2::query_idx(&factors(1, 6), &list, &-50), Some(40));
}

#[test]
fn cheetos_v3_layouts() {
    let queries = some_queries();
    let few = spread(90, 3);
    let exact = user_cheetos_v3::build_idx(&factors(1, 1), &few);
    assert_eq!(exact[0], 1);
    answers_everything(user_cheetos_v3::query_idx, &exact, &few, &queries);
    let many = spread(600, 3);
    let index = user_cheetos_v3::build_idx(&factors(1, 3), &many);
    assert_eq!(&index[..2], &[2, 10]);
    assert_eq!(index.len(), 6 + 12 * 15 + 2048);
    answers_are_right(user_cheetos_v3::query_idx, &index, &many, &queries);
    for i in 0..15 {
        let q = i * 3 - 50;
        assert_eq!(user_cheetos_v3::query_idx(&factors(1, 3), &index, &q), Some(40 - i as u64));
    }
    for i in 15..600 {
        assert_eq!(user_cheetos_v3::query_idx(&factors(1, 3), &index, &(i * 3 - 50)), None);
    }
}

#[test]
fn cheetos_v7_layouts() {
    let queries = some_queries();
    let data = spread(600, 3);
    let dense = user_cheetos_v7::build_idx(&factors(1, 4), &data);
    assert_eq!(dense[0], 3);
    assert_eq!(dense.len(), 9 + 225 + 600);
    answers_everything(user_cheetos_v7::query_idx, &dense, &data, &queries);
    let few = spread(150, 3);
    let exact = user_cheetos_v7::build_idx(&factors(1, 1), &few);
    assert_eq!(exact[0], 1);
    assert_eq!(exact.len(), 13 + 5 * 150);
    answers_everything(user_cheetos_v7::query_idx, &exact, &few, &queries);
    let hybrid = user_cheetos_v7::build_idx(&factors(1, 1), &data);
    assert_eq!(hybrid[0], 2);
    answers_are_right(user_cheetos_v7::query_idx, &hybrid, &data, &queries);
    assert_eq!(user_cheetos_v7::query_idx(&factors(1, 1), &hybrid, &-51), Some(0));
    assert_eq!(user_cheetos_v7::query_idx(&factors(1, 1), &hybrid, &-50), Some(40));
    for i in 100..600 {
        assert_eq!(user_cheetos_v7::query_idx(&factors(1, 1), &hybrid, &(i * 3 - 50)), None);
    }
}

#[test]
fn heavy_hitters_v1_layouts() {
    let queries = some_queries();
    let few = spread(100, 3);
    let exact = user_heavy_hitters_v1::build_idx(&factors(1, 1), &few);
    assert_eq!(exact[0], 1);
    answers_everything(user_heavy_hitters_v1::query_idx, &exact, &few, &queries);
    let data = spread(400, 3);
    let hybrid = user_heavy_hitters_v1::build_idx(&factors(1, 4), &data);
    assert_eq!(hybrid[0], 2);
    answers_are_right(user_heavy_hitters_v1::query_idx, &hybrid, &data, &queries);
    let mut skewed = data.clone();
    for i in 0..20 {
        for _ in 0..200 {
            skewed.push(i * 3 - 50);
        }
    }
    let heavy = user_heavy_hitters_v1::build_idx(&factors(1, 16), &skewed);
    assert_eq!(heavy[0], 3);
    assert_eq!(&heavy[9..11], &[20, 0]);
    for q in queries {
        let listed = q >= -50 && q < 10 && (q + 50) % 3 == 0;
        let outside = q < -50 || q > 399 * 3 - 50;
        let expected = if listed {
            Some(occurrences(&skewed, q))
        } else if outside {
            Some(0)
        } else {
            None
        };
        assert_eq!(user_heavy_hitters_v1::query_idx(&factors(1, 16), &heavy, &q), expected);
    }
}

#[test]
fn compressed_lists_all_of_few_values() {
    let data = [7, 7, -2, 300];
    let index = user_compressed::build_idx(&factors(1, 1), &data);
    assert_eq!(&*index, &[2, 3, 0, 0, 0, 3, 1, 14, 2, 0xd8, 4, 1]);
    for q in some_queries() {
        let expected = if data.contains(&q) { Some(occurrences(&data, q)) } else { None };
        assert_eq!(user_compressed::query_idx(&factors(1, 1), &index, &q), expected);
    }
}

#[test]
fn compressed_lists_the_frequent_of_many_values() {
    let mut data: Vec<i32> = (0..5000).collect();
    for v in 0..100 {
        for _ in 0..v {
            data.push(v);
        }
    }
    let rows = data.len() as f64;
    let least = (rows * (2.0 / 1.0) * (3.0 / 1024.0)).ceil() as u64;
    assert_eq!(least, 59);
    let index = user_compressed::build_idx(&factors(2, 1), &data);
    for q in -5..200 {
        let count = occurrences(&data, q);
        let expected = if count >= least { Some(count) } else { None };
        assert_eq!(user_compressed::query_idx(&factors(2, 1), &index, &q), expected);
    }
    let all = user_compressed::build_idx(&factors(0, i64::MAX), &data);
    assert_eq!(user_compressed::query_idx(&factors(2, 1), &all, &4999), Some(1));
    let none = user_compressed::build_idx(&factors(i64::MAX, -4), &data);
    assert_eq!(&*none, &[2, 0, 0, 0, 0]);
}

#[test]
fn extreme_values_are_answered() {
    let data = [i32::MIN, i32::MAX, 0, i32::MAX];
    for (build, query) in ALL {
        let index = build(&factors(1, 30), &data);
        for q in [i32::MIN, i32::MAX, 0] {
            assert_eq!(query(&factors(1, 30), &index, &q), Some(occurrences(&data, q)));
        }
    }
    let index = user_bitmap_counts_v1::build_idx(&factors(1, 30), &data);
    assert_eq!(user_bitmap_counts_v1::query_idx(&factors(1, 30), &index, &i32::MAX), Some(2));
    let index = user_adaptive_v1::build_idx(&factors(1, 30), &data);
    assert_eq!(user_adaptive_v1::query_idx(&factors(1, 30), &index, &i32::MIN), Some(1));
}

#[test]
fn a_block_has_one_index() {
    let builds: [Build; 3] = [
        user_adaptive_v3::build_idx,
        user_bitmap_counts_v1::build_idx,
        user_compressed::build_idx,
    ];
    for build in builds {
        for (size, skip) in [(10, 1), (2, 3), (1, 3), (1, 30)] {
            for n in [3, 150, 1500] {
                let data = spread(n, 3);
                let mut reversed = data.clone();
                reversed.reverse();
                let index = build(&factors(size, skip), &data);
                assert_eq!(index, build(&factors(size, skip), &data));
                assert_eq!(index, build(&factors(size, skip), &reversed));
            }
        }
    }
}

#[test]
fn user_indexes_take_less_than_ten_kilobytes() {
    for (size, skip) in [(10, 1), (2, 3), (1, 3), (1, 6), (1, 30), (0, 1), (0, 0)] {
        for n in [1, 60, 700, 1900, 4900, 5100] {
            for gap in [1, 3, 400_000] {
                let index = user::build_idx(&factors(size, skip), &spread(n, gap));
                assert!(0 < index.len() && index.len() < 10240);
            }
        }
    }
}
