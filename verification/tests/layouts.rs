//! The indexes of a number of blocks under a number of cost factors: their layouts, and
//! a checksum of their bytes.
use skip_list::parameter::Parameter;
use skip_list::{
    user, user_adaptive_v1, user_adaptive_v3, user_bitmap_counts_v1, user_cheetos_v1,
    user_cheetos_v2, user_cheetos_v3, user_cheetos_v7, user_compressed, user_heavy_hitters_v1,
};

type Build = fn(&Parameter, &[i32]) -> Box<[u8]>;
type Query = fn(&Parameter, &[u8], &i32) -> Option<u64>;

/// The number of different values, the distance between two of them, how many occur more
/// than once, how many of these occur very often, and how steeply their counts fall.
const BLOCKS: [(u64, u64, u64, u64, u64); 11] = [
    (3, 7, 3, 0, 0),
    (60, 2654435761, 60, 0, 0),
    (150, 1000003, 100, 0, 0),
    (400, 1, 310, 0, 0),
    (700, 2654435761, 310, 0, 0),
    (1500, 97, 310, 0, 0),
    (3000, 1, 310, 0, 0),
    (6000, 2654435761, 310, 0, 0),
    (700, 2654435761, 310, 20, 600),
    (700, 31, 310, 50, 80),
    (1500, 3, 310, 0, 0),
];

/// The factors for size and for skips.
const FACTORS: [(i64, i64); 21] = [
    (10, 1),
    (3, 1),
    (2, 1),
    (1, 1),
    (4, 5),
    (2, 5),
    (2, 7),
    (2, 9),
    (2, 11),
    (2, 15),
    (1, 9),
    (1, 12),
    (1, 16),
    (1, 21),
    (1, 26),
    (1, 31),
    (1, 41),
    (0, 5),
    (0, 0),
    (-1, 3),
    (1000000, 13000001),
];

fn value(i: u64, stride: u64) -> i32 {
    (i.wrapping_mul(stride) as u32).wrapping_sub(1000) as i32
}

fn count(i: u64, spec: (u64, u64, u64, u64, u64)) -> u64 {
    let (_, _, frequent, heavy, weight) = spec;
    let usual = if i < frequent { frequent - i + 2 } else { 1 };
    let extra = if i < heavy { weight * (heavy - i) } else { 0 };
    usual + extra
}

fn block(spec: (u64, u64, u64, u64, u64)) -> Vec<i32> {
    let (distinct, stride, ..) = spec;
    let mut out = Vec::new();
    for i in 0..distinct {
        for _ in 0..count(i, spec) {
            out.push(value(i, stride));
        }
    }
    out
}

fn checksum(bytes: &[u8]) -> u64 {
    let mut h = 0xcbf29ce484222325u64;
    for b in bytes {
        h = (h ^ *b as u64).wrapping_mul(0x100000001b3);
    }
    h
}

/// Puts the table from `start` on into the order of its bytes.
fn with_sorted_table(index: &[u8], start: usize) -> Vec<u8> {
    let mut out = index[..start].to_vec();
    let mut entries: Vec<&[u8]> = index[start..].chunks(12).collect();
    entries.sort();
    for entry in entries {
        out.extend_from_slice(entry);
    }
    out
}

fn as_is(index: &[u8]) -> Vec<u8> {
    index.to_vec()
}

/// A table in the order of a hash map stands behind the tag 1.
fn exact_sorted(index: &[u8]) -> Vec<u8> {
    if index[0] == 1 {
        with_sorted_table(index, 5)
    } else {
        index.to_vec()
    }
}

/// A table in the order of a hash map stands behind a bitmap.
fn bitmap_sorted(index: &[u8]) -> Vec<u8> {
    if index[0] == 1 {
        let min = i32::from_le_bytes([index[1], index[2], index[3], index[4]]) as i64;
        let max = i32::from_le_bytes([index[5], index[6], index[7], index[8]]) as i64;
        with_sorted_table(index, 13 + ((max - min + 8) / 8) as usize)
    } else {
        index.to_vec()
    }
}

fn check(build: Build, query: Query, order: fn(&[u8]) -> Vec<u8>, expected: &[(&str, u64)]) {
    assert_eq!(expected.len(), BLOCKS.len());
    for (spec, (layouts, sum)) in BLOCKS.iter().zip(expected) {
        let data = block(*spec);
        let mut tags = String::new();
        let mut h = 0xcbf29ce484222325u64;
        for (factor_size, factor_skip) in FACTORS {
            let parameter = Parameter { factor_size, factor_skip };
            let index = build(&parameter, &data);
            tags.push((b'0' + index[0]) as char);
            h = (h ^ checksum(&order(&index))).wrapping_mul(0x100000001b3);
            let (distinct, stride, ..) = *spec;
            for i in (0..distinct).step_by(1 + distinct as usize / 40) {
                if let Some(found) = query(&parameter, &index, &value(i, stride)) {
                    assert_eq!(found, count(i, *spec));
                }
                let absent = value(i, stride).wrapping_add(500_000_000);
                if !data.contains(&absent) {
                    if let Some(found) = query(&parameter, &index, &absent) {
                        assert_eq!(found, 0);
                    }
                }
            }
        }
        assert_eq!(&tags, layouts);
        assert_eq!(h, *sum, "{:?}", spec);
    }
}

#[test]
fn user_indexes() {
    let expected = [
        ("112222222222222222112", 0xcd9e17de54727481),
        ("111222222222222222112", 0xbb93163205ece8c2),
        ("111122222222222222112", 0x057bdb2b9c167914),
        ("111111222222222222112", 0xf7a3e79cf03978c2),
        ("111133332222222222112", 0xda3bbef49900b269),
        ("111133333332222222112", 0x14033c6c663767b3),
        ("111133333333332222113", 0x4f1b7ef8795aca4e),
        ("111111111111111111111", 0xec6e3d5a10d4f245),
        ("111133332222222222112", 0x1d2744dc3c9155cd),
        ("111133332222222222112", 0xb149cb8f18548a16),
        ("111133333332222222112", 0x2bc525c918430a5a),
    ];
    check(user::build_idx, user::query_idx, as_is, &expected);
}

#[test]
fn user_adaptive_v1_indexes() {
    let expected = [
        ("332212222222222222232", 0x2f5f14bc94d1b0d5),
        ("332222222222222222232", 0xa636142bebbcc038),
        ("332222222222222222232", 0xae8a716ec7778640),
        ("332212222222222222232", 0x495feaf9c9153988),
        ("332222222222222222232", 0xf5bf27361e5bac1a),
        ("332222222222222222232", 0x5f05fe1ebf46d5d8),
        ("333311111111111111331", 0xbad6b90c5c851c15),
        ("333333333333333333333", 0x5063a910988bf0bf),
        ("332222222222222222232", 0xabac4e6e114502c2),
        ("332212222222222222232", 0x313f9b8aa278ce5a),
        ("332211111111111111231", 0xb4b966cf54f2ca4c),
    ];
    check(user_adaptive_v1::build_idx, user_adaptive_v1::query_idx, bitmap_sorted, &expected);
}

#[test]
fn user_adaptive_v3_indexes() {
    let expected = [
        ("111222222222222222112", 0x960f7762d678ede1),
        ("111122222222222222112", 0x887610c2da57ed4e),
        ("111122222222222222112", 0xc98e7c8c5d9c91be),
        ("111112222222222222112", 0x2e164a5bcec49b97),
        ("111111122222222222112", 0x5a532df33fc29500),
        ("111111111122222222112", 0x3c3593be4d2c6248),
        ("111111111111122222111", 0x74d85723a79ccbef),
        ("111111111111111111111", 0xec6e3d5a10d4f245),
        ("111111122222222222112", 0x0b7b157847e68d30),
        ("111111122222222222112", 0x8ced287fb41a9072),
        ("111111111122222222112", 0x31d2c43af34545a3),
    ];
    check(user_adaptive_v3::build_idx, user_adaptive_v3::query_idx, as_is, &expected);
}

#[test]
fn user_bitmap_counts_v1_indexes() {
    let expected = [
        ("222222222222222222222", 0xe497366b0546bf9e),
        ("222222222222222222222", 0x3c4d0bb99d80058e),
        ("112222222222222222112", 0x57218f5a80a4ecee),
        ("112222222222222222112", 0x2c81b7bb34a306d5),
        ("111111112222222222112", 0xd59842b6b2d35afd),
        ("111111111111122222111", 0xb5d5522f6b90b97c),
        ("111333333333333333113", 0x1175b12dc26f0fbb),
        ("111111111111111111111", 0xec6e3d5a10d4f245),
        ("111111112222222222112", 0x98a3be70fa810c01),
        ("111333332222222222112", 0x0aab1971420ad79d),
        ("111334444444444444114", 0x5a3ab4fe879bbb17),
    ];
    check(user_bitmap_counts_v1::build_idx, user_bitmap_counts_v1::query_idx, as_is, &expected);
}

#[test]
fn user_cheetos_v1_indexes() {
    let expected = [
        ("111111111111111111111", 0xaef9cef8fc2a4615),
        ("222221111111111111221", 0x655510f09c3c0bc6),
        ("222221111111111111221", 0x14c28d55e3ab9838),
        ("222221111111111111221", 0x23f96ff1b450a6ca),
        ("222221111111111111221", 0xd5d39bf2a4f19449),
        ("222222222222222222222", 0x87185b1aae3b2ef5),
        ("222222222222222222222", 0x9e51e90b5f70f110),
        ("222222222222222222222", 0x0084f89ff5e960e2),
        ("222221111111111111221", 0x5c286060ecad3f4b),
        ("222221111111111111221", 0xf27b22a04d49f367),
        ("222222222222222222222", 0x6c41e7b18d006967),
    ];
    check(user_cheetos_v1::build_idx, user_cheetos_v1::query_idx, exact_sorted, &expected);
}

#[test]
fn user_cheetos_v2_indexes() {
    let expected = [
        ("111111111111111111111", 0xaef9cef8fc2a4615),
        ("442223333333311111343", 0x86a7043bb37399d2),
        ("442223333333311111343", 0xd01f1462d5201bc3),
        ("442223333333333333343", 0xaa4b532346095243),
        ("442223333333333333343", 0x42fba3abd1b86fd4),
        ("442223333333333333343", 0xbfed052f57d6b804),
        ("442223333333333333343", 0x1bac5841794c3a01),
        ("443333333333333333343", 0x83e5145cade983a8),
        ("442223333333333333343", 0x91eee95a347f787f),
        ("442223333333333333343", 0x1a2785d06c2f86fb),
        ("442223333333333333343", 0x9ba07b0cc42c895d),
    ];
    check(user_cheetos_v2::build_idx, user_cheetos_v2::query_idx, exact_sorted, &expected);
}

#[test]
fn user_cheetos_v3_indexes() {
    let expected = [
        ("111111111111111111111", 0xaef9cef8fc2a4615),
        ("111111111111111111111", 0x0bd47e87ad3c0d55),
        ("222222221111111111221", 0x0626cf15964d8a65),
        ("222222221111111111221", 0x54cc923094ba88c1),
        ("222222222222111111222", 0x8ea1629010171294),
        ("222222222222111111222", 0xef6a926a79319043),
        ("222222222222222222222", 0x7ac4989feab02520),
        ("222222222222222222222", 0xc44fd36dafad6fa8),
        ("222222222222111111222", 0x490b73f48291441d),
        ("222222222222111111222", 0xccb7e09de189e94a),
        ("222222222222111111222", 0xafb4256dcd4c6363),
    ];
    check(user_cheetos_v3::build_idx, user_cheetos_v3::query_idx, exact_sorted, &expected);
}

#[test]
fn user_cheetos_v7_indexes() {
    let expected = [
        ("111111333333333333113", 0x0c3c484ae0d60444),
        ("111111111111111111111", 0x576ea7ed28729bc4),
        ("111111111111111111111", 0xa2bbc2f444ed321a),
        ("222222333333333333223", 0x4aea699bb390db9f),
        ("222222222222221111222", 0x55952945a532b9bc),
        ("222222222222222222222", 0x202817e1214365f8),
        ("222222333333333333223", 0xa0e767b8d33cd996),
        ("222222222222222222222", 0xafcb1ce6f6be6a23),
        ("222222222222221111222", 0xc896c9f7a6e08290),
        ("222222222222221111222", 0x4d7b9d7a5452fbbd),
        ("222222333333333333223", 0x39f8538037bc82c0),
    ];
    check(user_cheetos_v7::build_idx, user_cheetos_v7::query_idx, as_is, &expected);
}

#[test]
fn user_compressed_indexes() {
    let expected = [
        ("222222222222222222222", 0xbbf92dfb3d3f0e3b),
        ("222222222222222222222", 0xb2059f774fb1d950),
        ("222222222222222222222", 0x02d9871acb1128e0),
        ("222222222222222222222", 0x1481275963de8650),
        ("222222222222222222222", 0x41f31d4f11a50276),
        ("222222222222222222222", 0x8043e2f95c686786),
        ("222222222222222222222", 0x3efbfae1d35cdcf2),
        ("222222222222222222222", 0x82c3940d69e4cab5),
        ("222222222222222222222", 0x98c26fe69936d116),
        ("222222222222222222222", 0x49a6ab056c4faed8),
        ("222222222222222222222", 0xe766f4eaad8d7ac9),
    ];
    check(user_compressed::build_idx, user_compressed::query_idx, as_is, &expected);
}

#[test]
fn user_heavy_hitters_v1_indexes() {
    let expected = [
        ("111111111111111111111", 0xee2fa1467a30de44),
        ("111111111111111111111", 0x576ea7ed28729bc4),
        ("222222222333111111221", 0x6458e9f6e7cc5e86),
        ("222222222222221111222", 0xf104c45f6d16b658),
        ("222222222222222211222", 0x681de857b4e4aef9),
        ("222222222222222222222", 0x2109f748014e979d),
        ("222222222222222222222", 0x6e5873fd53b0c720),
        ("222222222222222222222", 0x5f8418d08b55192f),
        ("222222222333333311223", 0xcf4d453aef4fd2fd),
        ("222222222333333311223", 0x1b638212dc09b62a),
        ("222222222222222222222", 0xbd209198f3e994c7),
    ];
    check(user_heavy_hitters_v1::build_idx, user_heavy_hitters_v1::query_idx, as_is, &expected);
}
