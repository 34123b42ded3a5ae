//! Bloom filters of the values that an index does not list.
use std::collections::HashSet;
use vstd::prelude::*;

use crate::bitmap::{bit_at, lemma_bit_clear, lemma_bits_held, set_bit};
use crate::bytes::holds;
use crate::hashing::HashFamily;
use crate::tally::has_key;

verus! {

/// The bit that the probe `seed` of `value` falls on, of a filter of so many bits.
pub open spec fn probe<H: HashFamily>(value: i32, seed: u32, bits: nat) -> int {
    H::hash(value, seed) as int % bits as int
}

/// Whether some probe of an unlisted value of `data` falls on bit `p`.
pub open spec fn marked<H: HashFamily>(
    data: Seq<i32>,
    listed: Seq<(i32, u64)>,
    hashes: u32,
    bits: nat,
    p: int,
) -> bool {
    exists|v: i32, seed: u32|
        data.contains(v) && !has_key(listed, v) && seed < hashes && #[trigger] probe::<H>(
            v,
            seed,
            bits,
        ) == p
}

/// Whether the bits that are set are exactly those that the probes of the
/// unlisted values of `data` fall on.
pub open spec fn is_bloom<H: HashFamily>(
    bloom: Seq<u8>,
    data: Seq<i32>,
    listed: Seq<(i32, u64)>,
    hashes: u32,
) -> bool {
    forall|p: int|
        0 <= p < 8 * bloom.len() ==> (#[trigger] bit_at(bloom, 0, p) <==> marked::<H>(
            data,
            listed,
            hashes,
            8 * bloom.len(),
            p,
        ))
}

/// Whether all probes of `query` fall on set bits of the filter that takes up
/// `s` from `base` on.
pub open spec fn may_hold<H: HashFamily>(
    s: Seq<u8>,
    base: int,
    query: i32,
    hashes: u32,
) -> bool {
    forall|seed: u32|
        seed < hashes ==> bit_at(
            s,
            base,
            #[trigger] probe::<H>(query, seed, (8 * (s.len() - base)) as nat),
        )
}

/// The answer of the filter that takes up the rest of an index from `base` on: a
/// value with a probe on a bit that is not set does not occur.
pub open spec fn bloom_answer<H: HashFamily>(
    index: Seq<u8>,
    base: int,
    query: i32,
    hashes: u32,
) -> Option<u64> {
    if base >= index.len() || may_hold::<H>(index, base, query, hashes) {
        None
    } else {
        Some(0)
    }
}

/// Whether all probes of `query` fall on bits that unlisted values of `data` mark
/// too.
pub open spec fn passes<H: HashFamily>(
    data: Seq<i32>,
    listed: Seq<(i32, u64)>,
    hashes: u32,
    bits: nat,
    query: i32,
) -> bool {
    forall|seed: u32|
        seed < hashes ==> marked::<H>(
            data,
            listed,
            hashes,
            bits,
            #[trigger] probe::<H>(query, seed, bits),
        )
}

/// Whether the hash of `query` with this seed has the remainder, by the number of bits, of
/// some hash of a value of `data` that is not listed.
pub open spec fn collides<H: HashFamily>(
    data: Seq<i32>,
    listed: Seq<(i32, u64)>,
    hashes: u32,
    bits: nat,
    query: i32,
    seed: u32,
) -> bool {
    exists|v: i32, other: u32|
        data.contains(v) && !has_key(listed, v) && other < hashes && #[trigger] H::hash(
            v,
            other,
        ) as int % bits as int == H::hash(query, seed) as int % bits as int
}

/// A value passes a filter where each of its hashes collides with one of a value that is
/// not listed.
pub proof fn passing_is_colliding<H: HashFamily>(
    data: Seq<i32>,
    listed: Seq<(i32, u64)>,
    hashes: u32,
    bits: nat,
    query: i32,
)
    ensures
        passes::<H>(data, listed, hashes, bits, query) <==> forall|seed: u32|
            seed < hashes ==> #[trigger] collides::<H>(data, listed, hashes, bits, query, seed),
{
    assert forall|seed: u32| #[trigger]
        collides::<H>(data, listed, hashes, bits, query, seed) <==> marked::<H>(
            data,
            listed,
            hashes,
            bits,
            probe::<H>(query, seed, bits),
        ) by {
        let p = probe::<H>(query, seed, bits);
        if marked::<H>(data, listed, hashes, bits, p) {
            let (v, other) = choose|v: i32, other: u32|
                data.contains(v) && !has_key(listed, v) && other < hashes && #[trigger] probe::<H>(
                    v,
                    other,
                    bits,
                ) == p;
            assert(H::hash(v, other) as int % bits as int == p);
        }
        if collides::<H>(data, listed, hashes, bits, query, seed) {
            let (v, other) = choose|v: i32, other: u32|
                data.contains(v) && !has_key(listed, v) && other < hashes && #[trigger] H::hash(
                    v,
                    other,
                ) as int % bits as int == H::hash(query, seed) as int % bits as int;
            assert(probe::<H>(v, other, bits) == p);
        }
    }
    if passes::<H>(data, listed, hashes, bits, query) {
        assert forall|seed: u32| seed < hashes implies #[trigger] collides::<H>(
            data,
            listed,
            hashes,
            bits,
            query,
            seed,
        ) by {
            let p = probe::<H>(query, seed, bits);
            assert(marked::<H>(data, listed, hashes, bits, p));
        }
    } else {
        let seed = choose|seed: u32|
            seed < hashes && !marked::<H>(
                data,
                listed,
                hashes,
                bits,
                #[trigger] probe::<H>(query, seed, bits),
            );
        assert(!collides::<H>(data, listed, hashes, bits, query, seed));
    }
}

/// Every unlisted value of a block passes the filter of the block.
pub proof fn bloom_has_no_false_negatives<H: HashFamily>(
    data: Seq<i32>,
    listed: Seq<(i32, u64)>,
    hashes: u32,
    bits: nat,
    query: i32,
)
    requires
        data.contains(query),
        !has_key(listed, query),
    ensures
        passes::<H>(data, listed, hashes, bits, query),
{
}

/// Nothing passes the filter of a block without unlisted values, where there is a probe.
pub proof fn nothing_passes_an_empty_filter<H: HashFamily>(
    data: Seq<i32>,
    listed: Seq<(i32, u64)>,
    hashes: u32,
    bits: nat,
    query: i32,
)
    requires
        forall|v: i32| #[trigger] data.contains(v) ==> has_key(listed, v),
        hashes > 0,
    ensures
        !passes::<H>(data, listed, hashes, bits, query),
{
    assert(!marked::<H>(data, listed, hashes, bits, probe::<H>(query, 0, bits)));
}

/// A stored filter lets exactly those values through that pass.
pub proof fn bloom_round_trip<H: HashFamily>(
    index: Seq<u8>,
    base: int,
    bloom: Seq<u8>,
    data: Seq<i32>,
    listed: Seq<(i32, u64)>,
    hashes: u32,
    query: i32,
)
    requires
        is_bloom::<H>(bloom, data, listed, hashes),
        bloom.len() > 0,
        holds(index, base, bloom),
        index.len() == base + bloom.len(),
    ensures
        may_hold::<H>(index, base, query, hashes) <==> passes::<H>(
            data,
            listed,
            hashes,
            8 * bloom.len(),
            query,
        ),
{
    let bits = 8 * bloom.len();
    assert((8 * (index.len() - base)) as nat == bits);
    assert forall|seed: u32| seed < hashes implies (bit_at(
        index,
        base,
        #[trigger] probe::<H>(query, seed, bits),
    ) <==> marked::<H>(data, listed, hashes, bits, probe::<H>(query, seed, bits))) by {
        let p = probe::<H>(query, seed, bits);
        assert(0 <= p < bits) by (nonlinear_arith)
            requires
                p == H::hash(query, seed) as int % bits as int,
                bits > 0,
        ;
        lemma_bits_held(index, base, bloom, p);
    }
}

/// The bit of a probe.
fn probe_bit<H: HashFamily>(value: i32, seed: u32, bytes: usize) -> (p: u128)
    requires
        bytes > 0,
    ensures
        p == probe::<H>(value, seed, 8 * bytes as nat),
        p < 8 * bytes,
{
    let hash = H::hash_value(value, seed);
    let bits: u128 = 8 * bytes as u128;
    hash as u128 % bits
}

/// Builds the filter of the values of `data` that `listed` does not list.
pub fn build_bloom<H: HashFamily>(
    data: &[i32],
    listed: &Vec<(i32, u64)>,
    bloom_size: usize,
    hashes: u32,
) -> (bloom: Vec<u8>)
    requires
        0 < bloom_size,
        8 * bloom_size <= usize::MAX,
    ensures
        bloom@.len() == bloom_size,
        is_bloom::<H>(bloom@, data@, listed@, hashes),
{
    let mut keys: HashSet<i32> = HashSet::new();
    let mut t: usize = 0;
    while t < listed.len()
        invariant
            t <= listed@.len(),
            forall|v: i32| #[trigger] keys@.contains(v) <==> has_key(listed@.take(t as int), v),
        decreases listed@.len() - t,
    {
        let ghost before = keys@;
        let ghost prev = listed@.take(t as int);
        keys.insert(listed[t].0);
        proof {
            let next = listed@.take(t + 1);
            assert forall|v: i32| #[trigger] keys@.contains(v) <==> has_key(next, v) by {
                assert(before.contains(v) <==> has_key(prev, v));
                if has_key(prev, v) {
                    let i = choose|i: int| 0 <= i < prev.len() && (#[trigger] prev[i]).0 == v;
                    assert(next[i].0 == v);
                }
                if listed@[t as int].0 == v {
                    assert(next[t as int].0 == v);
                }
                if has_key(next, v) && v != listed@[t as int].0 {
                    let i = choose|i: int| 0 <= i < next.len() && (#[trigger] next[i]).0 == v;
                    assert(prev[i].0 == v);
                }
            }
        }
        t = t + 1;
    }
    assert(listed@.take(t as int) =~= listed@);
    let mut bloom: Vec<u8> = vec![0u8;bloom_size];
    let ghost bits: nat = 8 * bloom_size as nat;
    proof {
        assert forall|p: int| 0 <= p < bits implies (#[trigger] bit_at(bloom@, 0, p) <==> marked::<
            H,
        >(data@.take(0), listed@, hashes, bits, p)) by {
            lemma_bit_clear((p % 8) as u8);
        }
    }
    let mut k: usize = 0;
    while k < data.len()
        invariant
            k <= data@.len(),
            bloom@.len() == bloom_size,
            0 < bloom_size,
            bits == 8 * bloom_size <= usize::MAX,
            forall|v: i32| #[trigger] keys@.contains(v) <==> has_key(listed@, v),
            forall|p: int|
                0 <= p < bits ==> (#[trigger] bit_at(bloom@, 0, p) <==> marked::<H>(
                    data@.take(k as int),
                    listed@,
                    hashes,
                    bits,
                    p,
                )),
        decreases data@.len() - k,
    {
        let val = data[k];
        let ghost seen = data@.take(k as int);
        let ghost next = data@.take(k + 1);
        let ghost start = bloom@;
        assert(keys@.contains(val) <==> has_key(listed@, val));
        if keys.contains(&val) {
            proof {
                assert forall|p: int| 0 <= p < bits implies (#[trigger] bit_at(bloom@, 0, p)
                    <==> marked::<H>(next, listed@, hashes, bits, p)) by {
                    lemma_marked_step::<H>(data@, k as int, listed@, hashes, bits, p);
                }
            }
        } else {
            let mut i: u32 = 0;
            while i < hashes
                invariant
                    i <= hashes,
                    bloom@.len() == bloom_size,
                    0 < bloom_size,
                    bits == 8 * bloom_size <= usize::MAX,
                    start.len() == bloom_size,
                    forall|p: int|
                        0 <= p < bits ==> (#[trigger] bit_at(bloom@, 0, p) <==> bit_at(start, 0, p)
                            || exists|seed: u32|
                            seed < i && #[trigger] probe::<H>(val, seed, bits) == p),
                decreases hashes - i,
            {
                let bit_pos = probe_bit::<H>(val, i, bloom_size);
                let ghost before = bloom@;
                set_bit(&mut bloom, bit_pos as usize);
                proof {
                    assert forall|p: int| 0 <= p < bits implies (#[trigger] bit_at(bloom@, 0, p)
                        <==> bit_at(start, 0, p) || exists|seed: u32|
                        seed < i + 1 && #[trigger] probe::<H>(val, seed, bits) == p) by {
                        assert(bit_at(bloom@, 0, p) == (p == bit_pos || bit_at(before, 0, p)));
                        if p == bit_pos {
                            assert(probe::<H>(val, i, bits) == p);
                        }
                        if exists|seed: u32| seed < i && #[trigger] probe::<H>(val, seed, bits)
                            == p {
                            let seed = choose|seed: u32|
                                seed < i && #[trigger] probe::<H>(val, seed, bits) == p;
                            assert(probe::<H>(val, seed, bits) == p);
                        }
                    }
                }
                i = i + 1;
            }
            proof {
                assert forall|p: int| 0 <= p < bits implies (#[trigger] bit_at(bloom@, 0, p)
                    <==> marked::<H>(next, listed@, hashes, bits, p)) by {
                    lemma_marked_step::<H>(data@, k as int, listed@, hashes, bits, p);
                    assert(bit_at(start, 0, p) <==> marked::<H>(seen, listed@, hashes, bits, p));
                }
            }
        }
        k = k + 1;
    }
    assert(data@.take(k as int) =~= data@);
    bloom
}

proof fn lemma_marked_step<H: HashFamily>(
    data: Seq<i32>,
    k: int,
    listed: Seq<(i32, u64)>,
    hashes: u32,
    bits: nat,
    p: int,
)
    requires
        0 <= k < data.len(),
    ensures
        marked::<H>(data.take(k + 1), listed, hashes, bits, p) <==> marked::<H>(
            data.take(k),
            listed,
            hashes,
            bits,
            p,
        ) || (!has_key(listed, data[k]) && exists|seed: u32|
            seed < hashes && #[trigger] probe::<H>(data[k], seed, bits) == p),
{
    let seen = data.take(k);
    let next = data.take(k + 1);
    assert forall|v: i32| #[trigger] next.contains(v) <==> seen.contains(v) || v == data[k] by {
        if seen.contains(v) {
            let i = choose|i: int| 0 <= i < seen.len() && seen[i] == v;
            assert(next[i] == v);
        }
        if next.contains(v) && v != data[k] {
            let i = choose|i: int| 0 <= i < next.len() && next[i] == v;
            assert(seen[i] == v);
        }
        assert(next[k] == data[k]);
    }
    if marked::<H>(seen, listed, hashes, bits, p) {
        let (v, seed) = choose|v: i32, seed: u32|
            seen.contains(v) && !has_key(listed, v) && seed < hashes && #[trigger] probe::<H>(
                v,
                seed,
                bits,
            ) == p;
        assert(next.contains(v));
        assert(probe::<H>(v, seed, bits) == p);
    }
    if !has_key(listed, data[k]) && exists|seed: u32|
        seed < hashes && #[trigger] probe::<H>(data[k], seed, bits) == p {
        let seed = choose|seed: u32|
            seed < hashes && #[trigger] probe::<H>(data[k], seed, bits) == p;
        assert(next.contains(data[k]));
        assert(probe::<H>(data[k], seed, bits) == p);
    }
}

/// Probes the filter that takes up the rest of an index from `base` on.
pub fn check_bloom<H: HashFamily>(index: &[u8], base: usize, value: i32, hashes: u32) -> (r: bool)
    requires
        base < index@.len(),
    ensures
        r == may_hold::<H>(index@, base as int, value, hashes),
{
    let bloom_size = index.len() - base;
    let mut i: u32 = 0;
    while i < hashes
        invariant
            i <= hashes,
            base < index@.len(),
            bloom_size == index@.len() - base,
            forall|seed: u32|
                seed < i ==> bit_at(
                    index@,
                    base as int,
                    #[trigger] probe::<H>(value, seed, (8 * (index@.len() - base)) as nat),
                ),
        decreases hashes - i,
    {
        let bit_pos = probe_bit::<H>(value, i, bloom_size);
        let byte = (bit_pos / 8) as usize;
        let shift = (bit_pos % 8) as u8;
        assert(index@.len() == index.len());
        assert(bit_pos as int / 8 < bloom_size);
        if index[base + byte] & (1u8 << shift) == 0 {
            assert(!bit_at(
                index@,
                base as int,
                probe::<H>(value, i, (8 * (index@.len() - base)) as nat),
            ));
            return false;
        }
        i = i + 1;
    }
    true
}

/// Answers zero to a value that the filter does not hold.
pub fn query_bloom<H: HashFamily>(index: &[u8], base: usize, query: i32, hashes: u32) -> (r: Option<
    u64,
>)
    requires
        base <= index@.len(),
    ensures
        r == bloom_answer::<H>(index@, base as int, query, hashes),
{
    if base == index.len() || check_bloom::<H>(index, base, query, hashes) {
        None
    } else {
        Some(0)
    }
}

} // verus!
