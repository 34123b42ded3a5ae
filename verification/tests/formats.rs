//! The building blocks of the formats.
use skip_list::bitmap::{read_bit, set_bit};
use skip_list::bloom::{build_bloom, check_bloom};
use skip_list::bytes::{
    push_i32, push_u16, push_u32, push_u64, read_i32, read_u16, read_u32, read_u64,
};
use skip_list::deltas::{push_deltas, scan_deltas};
use skip_list::hashing::{Fnv, HashFamily, Murmur, SplitMix};
use skip_list::pairs::{push_pairs, read_pairs, search};
use skip_list::sort::sort;
use skip_list::table::{bisect_entries, push_table, scan_entries, Lookup};
use skip_list::tally::{
    count_values, entries_by_count, first_entries, max_value, min_value, sort_by_key, sum_counts,
    top_entries, ByCount,
};
use skip_list::varint::{
    decode_u32, decode_varint, encode_u32, encode_varint, zigzag_decode, zigzag_encode,
};

#[test]
fn integers_are_little_endian() {
    let mut out = Vec::new();
    push_u16(&mut out, 0x1234);
    push_u32(&mut out, 0x89abcdef);
    push_u64(&mut out, 0x0123456789abcdef);
    push_i32(&mut out, -2);
    let mut expected = 0x1234u16.to_le_bytes().to_vec();
    expected.extend_from_slice(&0x89abcdefu32.to_le_bytes());
    expected.extend_from_slice(&0x0123456789abcdefu64.to_le_bytes());
    expected.extend_from_slice(&(-2i32).to_le_bytes());
    assert_eq!(out, expected);
    assert_eq!(read_u16(&out, 0), 0x1234);
    assert_eq!(read_u32(&out, 2), 0x89abcdef);
    assert_eq!(read_u64(&out, 6), 0x0123456789abcdef);
    assert_eq!(read_i32(&out, 14), -2);
}

#[test]
fn extreme_integers_read_back() {
    for x in [0, 1, -1, 127, -128, i32::MIN, i32::MAX] {
        let mut out = Vec::new();
        push_i32(&mut out, x);
        assert_eq!(out, x.to_le_bytes());
        assert_eq!(read_i32(&out, 0), x);
    }
    for x in [0, u64::MAX, 1 << 63] {
        let mut out = Vec::new();
        push_u64(&mut out, x);
        assert_eq!(read_u64(&out, 0), x);
    }
}

#[test]
fn variable_length_numbers_read_back() {
    for shift in 0..64 {
        for delta in [0u64, 1] {
            let x = (1u64 << shift) - delta;
            let mut out = vec![9];
            encode_varint(x, &mut out);
            let mut offset = 1;
            assert_eq!(decode_varint(&out, &mut offset), Some(x));
            assert_eq!(offset, out.len());
        }
    }
    let mut out = Vec::new();
    encode_varint(300, &mut out);
    assert_eq!(out, vec![0xac, 0x02]);
    let mut large = Vec::new();
    encode_varint(u64::MAX, &mut large);
    assert_eq!(large.len(), 10);
    let mut small = Vec::new();
    encode_u32(u32::MAX, &mut small);
    assert_eq!(small.len(), 5);
    let mut offset = 0;
    assert_eq!(decode_u32(&small, &mut offset), Some(u32::MAX));
}

#[test]
fn cut_off_numbers_are_refused() {
    let mut offset = 0;
    assert_eq!(decode_varint(&[], &mut offset), None);
    assert_eq!(decode_varint(&[0x80, 0x80], &mut offset), None);
    assert_eq!(offset, 2);
    let mut far = 17;
    assert_eq!(decode_varint(&[1], &mut far), None);
    assert_eq!(far, 17);
}

#[test]
fn overlong_numbers_are_refused() {
    let bytes = [0xff; 12];
    let mut offset = 0;
    assert_eq!(decode_varint(&bytes, &mut offset), None);
    assert_eq!(offset, 10);
    let mut narrow = 0;
    assert_eq!(decode_u32(&bytes, &mut narrow), None);
    assert_eq!(narrow, 5);
}

#[test]
fn excess_bits_are_dropped() {
    let mut bytes = vec![0x80; 9];
    bytes.push(0x7f);
    let mut offset = 0;
    assert_eq!(decode_varint(&bytes, &mut offset), Some(1 << 63));
    let mut narrow = 0;
    assert_eq!(decode_u32(&[0x80, 0x80, 0x80, 0x80, 0x7f], &mut narrow), Some(0xf000_0000));
}

#[test]
fn signs_fold_into_the_lowest_bit() {
    for (n, x) in [(0, 0), (-1, 1), (1, 2), (-2, 3), (i32::MAX, u32::MAX - 1), (i32::MIN, u32::MAX)] {
        assert_eq!(zigzag_encode(n), x);
        assert_eq!(zigzag_decode(x), n);
    }
}

#[test]
fn bits_are_set_one_by_one() {
    let mut bitmap = vec![0u8; 3];
    set_bit(&mut bitmap, 0);
    set_bit(&mut bitmap, 10);
    set_bit(&mut bitmap, 23);
    set_bit(&mut bitmap, 10);
    assert_eq!(bitmap, vec![1, 4, 128]);
    for p in 0..24 {
        assert_eq!(read_bit(&bitmap, 0, p), p == 0 || p == 10 || p == 23);
    }
    assert!(read_bit(&bitmap, 1, 2));
}

#[test]
fn hashes_have_known_values() {
    assert_eq!(Fnv::hash_value(0, 0), 0x4d25767f9dce13f5);
    assert_eq!(Fnv::hash_value(-1, 3), 0xc2497659f37765e2);
    assert_eq!(SplitMix::hash_value(0, 0), 0);
    assert_eq!(SplitMix::hash_value(1, 0), 0xe220a8397b1dcdaf);
    assert_eq!(Murmur::hash_value(0, 0), 0);
    assert_eq!(Murmur::hash_value(1, 0), 0xb456bcfc34c2cb2c);
}

#[test]
fn filters_hold_every_unlisted_value() {
    let data: Vec<i32> = (0..500).map(|i| i * 7919 - 1_000_000).collect();
    let listed = vec![(data[3], 1u64), (data[250], 1)];
    let bloom = build_bloom::<Murmur>(&data, &listed, 1024, 5);
    assert_eq!(bloom.len(), 1024);
    for (i, v) in data.iter().enumerate() {
        if i != 3 && i != 250 {
            assert!(check_bloom::<Murmur>(&bloom, 0, *v, 5));
        }
    }
    let others = (0..1000).filter(|i| check_bloom::<Murmur>(&bloom, 0, i * 13 + 5_000_000, 5)).count();
    assert!(others < 200);
    let empty = build_bloom::<Fnv>(&data[3..4], &listed, 16, 7);
    assert_eq!(empty, vec![0u8; 16]);
    let single = build_bloom::<SplitMix>(&data[0..1], &listed, 16, 3);
    let bits: u32 = single.iter().map(|b| b.count_ones()).sum();
    assert!(1 <= bits && bits <= 3);
}

#[test]
fn a_filter_without_probes_holds_everything() {
    assert!(check_bloom::<Fnv>(&[0], 0, 17, 0));
    assert!(!check_bloom::<Fnv>(&[0], 0, 17, 1));
    assert!(check_bloom::<Fnv>(&[255, 255], 1, 17, 9));
}

#[test]
fn tables_are_searched() {
    let entries = vec![(-5, 3u64), (0, 1), (7, u64::MAX)];
    let mut out = vec![1, 2, 3];
    push_table(&mut out, &entries);
    assert_eq!(out.len(), 3 + 36);
    for (key, count) in &entries {
        assert_eq!(scan_entries(&out, 3, 3, *key), Lookup::Found(*count));
        assert_eq!(bisect_entries(&out, 3, 3, *key), Lookup::Found(*count));
    }
    assert_eq!(scan_entries(&out, 3, 3, 1), Lookup::Absent);
    assert_eq!(bisect_entries(&out, 3, 3, 1), Lookup::Absent);
    assert_eq!(scan_entries(&out, 3, 4, 1), Lookup::Truncated);
    assert_eq!(bisect_entries(&out, 3, u32::MAX, 1), Lookup::Truncated);
    assert_eq!(scan_entries(&out, 3, 0, -5), Lookup::Absent);
}

#[test]
fn differences_wrap_around() {
    let entries = vec![(i32::MIN, 1u64), (-1, 300), (i32::MAX, 2)];
    let mut out = vec![7];
    push_deltas(&mut out, &entries);
    assert_eq!(&out[1..6], &[0, 0, 0, 0x80, 1]);
    for (key, count) in &entries {
        assert_eq!(scan_deltas(&out, 1, 3, *key).0, Lookup::Found(*count));
    }
    assert_eq!(scan_deltas(&out, 1, 3, 0), (Lookup::Absent, out.len()));
    assert_eq!(scan_deltas(&out, 1, 4, 0).0, Lookup::Truncated);
    assert_eq!(scan_deltas(&out[..out.len() - 1], 1, 3, 0).0, Lookup::Truncated);
}

#[test]
fn lists_of_pairs_read_back() {
    let entries = vec![(i32::MIN, 5u64), (-3, 1), (4, 1 << 40), (i32::MAX, 2)];
    let mut out = vec![0, 0];
    push_pairs(&mut out, &entries);
    assert_eq!(read_pairs(&out, 2, 4), Some(entries.clone()));
    assert_eq!(read_pairs(&out, 2, 0), Some(vec![]));
    assert_eq!(read_pairs(&out, 2, 5), None);
    assert_eq!(read_pairs(&out, 2, u64::MAX), None);
    assert_eq!(search(&entries, 4), Lookup::Found(1 << 40));
    assert_eq!(search(&entries, 5), Lookup::Absent);
    assert_eq!(search(&vec![], 5), Lookup::Absent);
}

#[test]
fn values_are_counted() {
    let data = [3, -1, 3, 3, 8, -1, i32::MIN];
    let counts = count_values(&data);
    assert_eq!(counts.len(), 4);
    assert_eq!(counts.get(&3), Some(&3));
    assert_eq!(counts.get(&-1), Some(&2));
    assert_eq!(counts.get(&0), None);
    assert_eq!(min_value(&data), i32::MIN);
    assert_eq!(max_value(&data), 8);
    let full = entries_by_count(&counts);
    assert_eq!(&full[..2], &[(3, 3), (-1, 2)]);
    assert_eq!(top_entries(&counts, 1), vec![(3, 3)]);
    assert_eq!(top_entries(&counts, 9).len(), 4);
    assert_eq!(first_entries(&full, 2), vec![(3, 3), (-1, 2)]);
    assert_eq!(sum_counts(&full, 2), 5);
    assert_eq!(sum_counts(&full, 4), data.len() as u64);
    assert_eq!(sum_counts(&full, 100), data.len() as u64);
    assert_eq!(sort_by_key(full), vec![(i32::MIN, 1), (-1, 2), (3, 3), (8, 1)]);
}

#[test]
fn sorting_keeps_every_element() {
    let mut x = 7u64;
    let mut v = Vec::new();
    for i in 0..1000 {
        x = x.wrapping_mul(6364136223846793005).wrapping_add(1);
        v.push((i, (x >> 58) as u64));
    }
    let sorted = sort::<(i32, u64), ByCount>(v.clone());
    for w in sorted.windows(2) {
        assert!(w[0].1 >= w[1].1);
    }
    let mut keys: Vec<i32> = sorted.iter().map(|e| e.0).collect();
    keys.sort();
    assert_eq!(keys, (0..1000).collect::<Vec<i32>>());
}
