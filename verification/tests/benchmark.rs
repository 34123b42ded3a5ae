//! Runs over data sets.
use skip_list::benchmark::{
    build_indexes, count_skips, evaluate_query, index_size, kilobytes, parse_data, parse_queries,
    score, Evaluation, Score,
};
use skip_list::parameter::Parameter;

fn data_file(n_block: u64, chunk_size: u64, values: &[i32]) -> Vec<u8> {
    let mut out = Vec::new();
    out.extend_from_slice(&n_block.to_le_bytes());
    out.extend_from_slice(&chunk_size.to_le_bytes());
    for v in values {
        out.extend_from_slice(&v.to_le_bytes());
    }
    out
}

#[test]
fn data_files_are_read() {
    let bytes = data_file(2, 3, &[1, -2, 3, i32::MIN, 5, i32::MAX]);
    assert_eq!(parse_data(&bytes), Some(vec![vec![1, -2, 3], vec![i32::MIN, 5, i32::MAX]]));
}

#[test]
fn bytes_behind_the_last_block_are_ignored() {
    let mut bytes = data_file(1, 2, &[7, 8]);
    bytes.extend_from_slice(&[1, 2, 3]);
    assert_eq!(parse_data(&bytes), Some(vec![vec![7, 8]]));
}

#[test]
fn empty_blocks_are_read() {
    assert_eq!(parse_data(&data_file(3, 0, &[])), Some(vec![vec![], vec![], vec![]]));
    assert_eq!(parse_data(&data_file(0, 1000, &[])), Some(vec![]));
}

#[test]
fn short_data_files_are_refused() {
    let bytes = data_file(2, 3, &[1, 2, 3, 4, 5, 6]);
    for n in 0..bytes.len() {
        assert_eq!(parse_data(&bytes[..n]), None);
    }
    assert_eq!(parse_data(&data_file(u64::MAX, u64::MAX, &[1, 2])), None);
    assert_eq!(parse_data(&data_file(1 << 33, 1 << 33, &[1, 2])), None);
}

#[test]
fn query_files_are_read() {
    let mut bytes = 2u64.to_le_bytes().to_vec();
    bytes.extend_from_slice(&(-7i32).to_le_bytes());
    bytes.extend_from_slice(&9i32.to_le_bytes());
    assert_eq!(parse_queries(&bytes), Some(vec![-7, 9]));
    for n in 0..bytes.len() {
        assert_eq!(parse_queries(&bytes[..n]), None);
    }
    bytes.push(0);
    assert_eq!(parse_queries(&bytes), Some(vec![-7, 9]));
    assert_eq!(parse_queries(&u64::MAX.to_le_bytes()), None);
    assert_eq!(parse_queries(&0u64.to_le_bytes()), Some(vec![]));
}

#[test]
fn complete_lists_save_every_scan() {
    let parameter = Parameter { factor_size: 1, factor_skip: 10 };
    let data = vec![vec![1, 2, 2], vec![2, 5, 9], vec![7, 7, 7]];
    let indexes = build_indexes(&parameter, &data);
    assert_eq!(indexes.len(), 3);
    assert_eq!(
        evaluate_query(&parameter, &data, &indexes, &2),
        Evaluation { expected: 3, user: 3, skipped: 3 }
    );
    assert_eq!(
        evaluate_query(&parameter, &data, &indexes, &4),
        Evaluation { expected: 0, user: 0, skipped: 3 }
    );
    assert_eq!(count_skips(&parameter, &data, &indexes, &vec![2, 4, 7]), 9);
    assert_eq!(index_size(&indexes), 6 + 8 + 4);
}

#[test]
fn ranges_save_the_scans_outside_them() {
    let parameter = Parameter { factor_size: 10, factor_skip: 1 };
    let data = vec![vec![1, 2, 2], vec![2, 5, 9], vec![7, 7, 7]];
    let indexes = build_indexes(&parameter, &data);
    assert_eq!(index_size(&indexes), 27);
    assert_eq!(
        evaluate_query(&parameter, &data, &indexes, &2),
        Evaluation { expected: 3, user: 3, skipped: 1 }
    );
    assert_eq!(
        evaluate_query(&parameter, &data, &indexes, &100),
        Evaluation { expected: 0, user: 0, skipped: 3 }
    );
    assert_eq!(count_skips(&parameter, &data, &indexes, &vec![2, 7, 100]), 1 + 1 + 3);
}

#[test]
fn scans_and_answers_agree() {
    let mut x = 99u64;
    let mut data = Vec::new();
    for b in 0..12u64 {
        let mut block = Vec::new();
        for _ in 0..2000 {
            x = x.wrapping_mul(6364136223846793005).wrapping_add(1442695040888963407);
            let v = (x >> 40) % (1 << (b + 2));
            block.push(v as i32 - 100);
        }
        data.push(block);
    }
    for factor_skip in [1, 3, 6, 12, 30] {
        let parameter = Parameter { factor_size: 2, factor_skip };
        let indexes = build_indexes(&parameter, &data);
        for query in (-200..1000).step_by(37) {
            let outcome = evaluate_query(&parameter, &data, &indexes, &query);
            assert_eq!(outcome.expected, outcome.user);
            let scanned: usize =
                data.iter().map(|block| block.iter().filter(|v| **v == query).count()).sum();
            assert_eq!(outcome.expected, scanned as u64);
            assert!(outcome.skipped <= 12);
        }
    }
}

#[test]
fn scores_round_towards_zero() {
    let parameter = Parameter { factor_size: 3, factor_skip: 5 };
    assert_eq!(
        score(&parameter, 100, 10, 4, 5),
        Some(Score { storage: 30, skips: 500, total: Some(4) })
    );
    assert_eq!(
        score(&parameter, 0, 60, 4, 5),
        Some(Score { storage: 180, skips: 0, total: Some(-1) })
    );
    let negative = Parameter { factor_size: 3, factor_skip: -5 };
    assert_eq!(
        score(&negative, 100, 10, 4, 5),
        Some(Score { storage: 30, skips: -500, total: Some(5) })
    );
}

#[test]
fn scores_that_do_not_fit_are_refused() {
    let parameter = Parameter { factor_size: 3, factor_skip: 5 };
    assert_eq!(
        score(&parameter, 1, 1, 0, 5),
        Some(Score { storage: 3, skips: 5, total: None })
    );
    assert_eq!(
        score(&parameter, 1, 1, 5, 0),
        Some(Score { storage: 3, skips: 5, total: None })
    );
    assert_eq!(score(&parameter, u64::MAX, 1, 5, 5), None);
    assert_eq!(score(&parameter, 1, u128::MAX, 5, 5), None);
    let large = Parameter { factor_size: i64::MAX, factor_skip: i64::MAX };
    assert_eq!(score(&large, 2, 0, 1, 1), None);
    assert_eq!(score(&large, 0, 2, 1, 1), None);
    assert_eq!(score(&large, 0, 0, 2, 1), None);
    assert_eq!(score(&large, 0, 0, 1, 2), None);
    assert_eq!(
        score(&large, 1, 1, 1, 1),
        Some(Score { storage: i64::MAX, skips: i64::MAX, total: Some(0) })
    );
    let opposite = Parameter { factor_size: i64::MAX, factor_skip: -2 };
    assert_eq!(score(&opposite, 1, 1, 1, 1), None);
    let least = Parameter { factor_size: i64::MAX, factor_skip: -1 };
    assert_eq!(
        score(&least, 1, 1, 1, 1),
        Some(Score { storage: i64::MAX, skips: -1, total: None })
    );
}

#[test]
fn kilobytes_are_whole() {
    assert_eq!(kilobytes(0), 0);
    assert_eq!(kilobytes(1023), 0);
    assert_eq!(kilobytes(1024), 1);
    assert_eq!(kilobytes(10_000), 9);
}

#[test]
fn scores_are_at_most_one() {
    let parameter = Parameter { factor_size: 0, factor_skip: 7 };
    assert_eq!(score(&parameter, 20, 1000, 4, 5).and_then(|s| s.total), Some(1));
    for n_skipped in 0..20 {
        assert_eq!(score(&parameter, n_skipped, 1000, 4, 5).and_then(|s| s.total), Some(0));
    }
}
