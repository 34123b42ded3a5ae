//! Variable-length integers: seven bits to a byte, the low ones first, with
//! the high bit set on every byte but the last. Signed numbers are folded to
//! unsigned ones by the zigzag map.
use vstd::arithmetic::power2::{lemma2_to64, lemma_pow2_adds, lemma_pow2_strictly_increases, pow2};
use vstd::prelude::*;

use crate::bytes::{holds, lemma_holds_split};

verus! {

/// The encoding of `x`.
pub open spec fn varint_bytes(x: nat) -> Seq<u8>
    decreases x,
{
    if x < 128 {
        seq![x as u8]
    } else {
        seq![(x % 128 + 128) as u8] + varint_bytes(x / 128)
    }
}

/// What reading a number of at most `limit` bytes from position `pos` gives:
/// the number, unless the bytes run out or the last one allowed asks for
/// another, and the position after the last byte read.
pub open spec fn varint_at(s: Seq<u8>, pos: int, limit: nat) -> (Option<nat>, int)
    decreases limit,
{
    if limit == 0 || pos >= s.len() {
        (None, pos)
    } else if s[pos] < 128 {
        (Some(s[pos] as nat), pos + 1)
    } else {
        let (rest, end) = varint_at(s, pos + 1, (limit - 1) as nat);
        match rest {
            Some(r) => (Some((s[pos] - 128 + 128 * r) as nat), end),
            None => (None, end),
        }
    }
}

/// What [`decode_varint`] reads: at most ten bytes, of which the bits past the
/// 64th are dropped.
pub open spec fn u64_varint_at(s: Seq<u8>, pos: int) -> (Option<u64>, int) {
    let (value, end) = varint_at(s, pos, 10);
    match value {
        Some(x) => (Some((x % 0x1_0000_0000_0000_0000) as u64), end),
        None => (None, end),
    }
}

/// What [`decode_u32`] reads: at most five bytes, of which the bits past the
/// 32nd are dropped.
pub open spec fn u32_varint_at(s: Seq<u8>, pos: int) -> (Option<u32>, int) {
    let (value, end) = varint_at(s, pos, 5);
    match value {
        Some(x) => (Some((x % 0x1_0000_0000) as u32), end),
        None => (None, end),
    }
}

/// 0, -1, 1, -2, 2, ... become 0, 1, 2, 3, 4, ...
pub open spec fn zigzag(n: i32) -> u32 {
    if n < 0 {
        (-2 * n - 1) as u32
    } else {
        (2 * n) as u32
    }
}

/// 0, 1, 2, 3, 4, ... become 0, -1, 1, -2, 2, ...
pub open spec fn unzigzag(x: u32) -> i32 {
    if x % 2 == 0 {
        (x / 2) as i32
    } else {
        (-(x / 2) - 1) as i32
    }
}

/// A number that is not negative is folded to its double, and a negative one to the odd
/// number below the double of its size.
pub proof fn zigzag_alternates(n: i32)
    ensures
        n >= 0 ==> zigzag(n) == 2 * n,
        n < 0 ==> zigzag(n) + 1 == -2 * n,
{
}

/// Unfolding undoes folding.
pub proof fn zigzag_round_trip(n: i32)
    ensures
        unzigzag(zigzag(n)) == n,
{
}

/// Folding undoes unfolding.
pub proof fn unzigzag_round_trip(x: u32)
    ensures
        zigzag(unzigzag(x)) == x,
{
}

pub proof fn lemma_varint_len(x: nat)
    ensures
        varint_bytes(x).len() >= 1,
    decreases x,
{
    if x >= 128 {
        lemma_varint_len(x / 128);
    }
}

/// A number takes as many bytes as it has groups of seven bits, at least one. Each byte
/// but the last has its highest bit set, and the lowest bits come first.
pub proof fn varint_shape(x: nat, k: nat)
    requires
        k > 0,
    ensures
        varint_bytes(x).len() <= k <==> x < pow2(7 * k),
        varint_bytes(x).len() >= 1,
        varint_bytes(x)[0] % 128 == x % 128,
        varint_bytes(x).last() < 128,
        forall|i: int|
            0 <= i < varint_bytes(x).len() - 1 ==> 128 <= #[trigger] varint_bytes(x)[i],
        varint_bytes(x).len() > 1 ==> varint_bytes(x).skip(1) == varint_bytes(x / 128),
    decreases x,
{
    lemma2_to64();
    lemma_varint_len(x);
    if x >= 128 {
        let rest = varint_bytes(x / 128);
        lemma_varint_len(x / 128);
        varint_shape(x / 128, if k > 1 { (k - 1) as nat } else { 1 });
        assert(varint_bytes(x).skip(1) =~= rest);
        assert forall|i: int| 0 <= i < varint_bytes(x).len() - 1 implies 128
            <= #[trigger] varint_bytes(x)[i] by {
            if i > 0 {
                assert(varint_bytes(x)[i] == rest[i - 1]);
            }
        }
        if k > 1 {
            let p = pow2((7 * (k - 1)) as nat);
            lemma_pow2_adds(7, (7 * (k - 1)) as nat);
            assert(7 + 7 * (k - 1) == 7 * k);
            assert(x / 128 < p <==> x < 128 * p);
        }
    } else if k > 1 {
        lemma_pow2_strictly_increases(7, 7 * k);
    }
}

/// 128^k.
pub open spec fn pow128(k: nat) -> nat
    decreases k,
{
    if k == 0 {
        1
    } else {
        128 * pow128((k - 1) as nat)
    }
}

/// A number below `128^limit` reads back as it was written, and the position
/// moves past its bytes.
pub proof fn varint_round_trip(s: Seq<u8>, pos: int, x: nat, limit: nat)
    requires
        holds(s, pos, varint_bytes(x)),
        0 < limit,
        x < pow128(limit),
    ensures
        varint_at(s, pos, limit) == (Some(x), pos + varint_bytes(x).len()),
    decreases limit,
{
    lemma_varint_len(x);
    assert(s.subrange(pos, pos + varint_bytes(x).len())[0] == s[pos]);
    if x >= 128 {
        let rest = varint_bytes(x / 128);
        reveal_with_fuel(pow128, 3);
        assert(x / 128 < pow128((limit - 1) as nat));
        lemma_holds_split(s, pos, seq![(x % 128 + 128) as u8], rest);
        varint_round_trip(s, pos + 1, x / 128, (limit - 1) as nat);
    }
}

/// Reading stops behind the first byte below 128. What is read is the number that is
/// written as these bytes, unless there are several and the last is zero.
pub proof fn reading_stops_at_a_low_byte(s: Seq<u8>, pos: int, limit: nat, k: nat)
    requires
        0 <= pos,
        k < limit,
        pos + k < s.len(),
        forall|i: int| pos <= i < pos + k ==> #[trigger] s[i] >= 128,
        s[pos + k] < 128,
    ensures
        varint_at(s, pos, limit).0 is Some,
        varint_at(s, pos, limit).1 == pos + k + 1,
        k > 0 && s[pos + k] > 0 ==> varint_at(s, pos, limit).0->0 >= 128,
        k == 0 || s[pos + k] > 0 ==> varint_bytes(varint_at(s, pos, limit).0->0) == s.subrange(
            pos,
            pos + k + 1,
        ),
    decreases k,
{
    if k == 0 {
        assert(s.subrange(pos, pos + 1) =~= seq![s[pos]]);
    } else {
        assert(s[pos] >= 128);
        reading_stops_at_a_low_byte(s, pos + 1, (limit - 1) as nat, (k - 1) as nat);
        let r = varint_at(s, pos + 1, (limit - 1) as nat).0->0;
        let v = (s[pos] - 128 + 128 * r) as nat;
        if s[pos + k] > 0 {
            if k == 1 {
                assert(varint_at(s, pos + 1, (limit - 1) as nat).0 == Some(s[pos + 1] as nat));
            }
            assert(r >= 1);
            assert(v / 128 == r && v % 128 == s[pos] - 128);
            assert(s.subrange(pos, pos + k + 1) =~= seq![s[pos]] + s.subrange(
                pos + 1,
                pos + k + 1,
            ));
        }
    }
}

/// Where there is no byte below 128 in the first `limit` ones, nothing is read.
pub proof fn reading_needs_a_low_byte(s: Seq<u8>, pos: int, limit: nat)
    requires
        0 <= pos,
        forall|i: int| pos <= i < pos + limit && i < s.len() ==> #[trigger] s[i] >= 128,
    ensures
        varint_at(s, pos, limit).0 is None,
        limit == 10 ==> u64_varint_at(s, pos).0 is None,
        limit == 5 ==> u32_varint_at(s, pos).0 is None,
    decreases limit,
{
    if limit > 0 && pos < s.len() {
        assert(s[pos] >= 128);
        reading_needs_a_low_byte(s, pos + 1, (limit - 1) as nat);
    }
}

/// Every 64-bit number reads back as it was written.
pub proof fn u64_varint_round_trip(s: Seq<u8>, pos: int, x: u64)
    requires
        holds(s, pos, varint_bytes(x as nat)),
    ensures
        u64_varint_at(s, pos) == (Some(x), pos + varint_bytes(x as nat).len()),
{
    reveal_with_fuel(pow128, 11);
    varint_round_trip(s, pos, x as nat, 10);
}

/// Every 32-bit number reads back as it was written.
pub proof fn u32_varint_round_trip(s: Seq<u8>, pos: int, x: u32)
    requires
        holds(s, pos, varint_bytes(x as nat)),
    ensures
        u32_varint_at(s, pos) == (Some(x), pos + varint_bytes(x as nat).len()),
{
    reveal_with_fuel(pow128, 6);
    varint_round_trip(s, pos, x as nat, 5);
}

/// Appends the encoding of `value`.
pub fn encode_varint(value: u64, buffer: &mut Vec<u8>)
    ensures
        final(buffer)@ == old(buffer)@ + varint_bytes(value as nat),
{
    let mut v: u64 = value;
    while v >= 128
        invariant
            buffer@ + varint_bytes(v as nat) == old(buffer)@ + varint_bytes(value as nat),
        decreases v,
    {
        let ghost before = buffer@;
        let ghost tail = varint_bytes((v / 128) as nat);
        buffer.push((v % 128 + 128) as u8);
        assert(buffer@ + tail =~= before + (seq![(v % 128 + 128) as u8] + tail));
        v = v / 128;
    }
    let ghost before = buffer@;
    buffer.push(v as u8);
    assert(buffer@ =~= before + seq![v as u8]);
}

/// Appends the encoding of `x`.
pub fn encode_u32(x: u32, out: &mut Vec<u8>)
    ensures
        final(out)@ == old(out)@ + varint_bytes(x as nat),
{
    encode_varint(x as u64, out);
}

/// Reads a number of at most `limit` bytes.
fn decode_limited(data: &[u8], offset: &mut usize, limit: usize) -> (r: Option<u128>)
    requires
        limit <= 10,
    ensures
        match r {
            Some(x) => varint_at(data@, *old(offset) as int, limit as nat) == (
                Some(x as nat),
                *final(offset) as int,
            ),
            None => varint_at(data@, *old(offset) as int, limit as nat) == (
                None::<nat>,
                *final(offset) as int,
            ),
        },
        *old(offset) <= *final(offset),
        *old(offset) <= data@.len() ==> *final(offset) <= data@.len(),
{
    let mut result: u128 = 0;
    let mut scale: u128 = 1;
    let mut left: usize = limit;
    let ghost start = *offset as int;
    while left > 0 && *offset < data.len()
        invariant
            left <= limit <= 10,
            start == *old(offset),
            start <= *offset,
            start <= data@.len() ==> *offset <= data@.len(),
            scale == pow128((limit - left) as nat),
            scale <= 0x400_0000_0000_0000_0000,
            result < scale,
            ({
                let (rest, end) = varint_at(data@, *offset as int, left as nat);
                varint_at(data@, start, limit as nat) == (
                    match rest {
                        Some(x) => Some((result + scale * x) as nat),
                        None => None,
                    },
                    end,
                )
            }),
        decreases left,
    {
        let byte = data[*offset];
        let ghost here = *offset as int;
        let ghost after = varint_at(data@, here + 1, (left - 1) as nat);
        *offset = *offset + 1;
        proof {
            reveal_with_fuel(pow128, 11);
        }
        if byte < 128 {
            assert(scale * byte <= scale * 127) by (nonlinear_arith)
                requires
                    byte <= 127,
            ;
            return Some(result + scale * byte as u128);
        }
        proof {
            if let Some(x) = after.0 {
                assert(result + scale * (byte - 128 + 128 * x) == result + scale * (byte - 128) + (
                scale * 128) * x) by (nonlinear_arith);
            }
            assert(scale * (byte - 128) <= scale * 127) by (nonlinear_arith)
                requires
                    byte - 128 <= 127,
            ;
        }
        result = result + scale * (byte - 128) as u128;
        scale = scale * 128;
        left = left - 1;
    }
    None
}

/// Reads a number from `offset` on and moves `offset` past the bytes read.
pub fn decode_varint(data: &[u8], offset: &mut usize) -> (r: Option<u64>)
    ensures
        (r, *final(offset) as int) == u64_varint_at(data@, *old(offset) as int),
        *old(offset) <= *final(offset),
        *old(offset) <= data@.len() ==> *final(offset) <= data@.len(),
{
    match decode_limited(data, offset, 10) {
        Some(x) => Some((x % 0x1_0000_0000_0000_0000) as u64),
        None => None,
    }
}

/// Reads a 32-bit number from `pos` on and moves `pos` past the bytes read.
pub fn decode_u32(data: &[u8], pos: &mut usize) -> (r: Option<u32>)
    ensures
        (r, *final(pos) as int) == u32_varint_at(data@, *old(pos) as int),
        *old(pos) <= *final(pos),
        *old(pos) <= data@.len() ==> *final(pos) <= data@.len(),
{
    match decode_limited(data, pos, 5) {
        Some(x) => Some((x % 0x1_0000_0000) as u32),
        None => None,
    }
}

/// Folds a signed number.
pub fn zigzag_encode(n: i32) -> (x: u32)
    ensures
        x == zigzag(n),
{
    if n < 0 {
        (2 * -(n as i64) - 1) as u32
    } else {
        (2 * (n as i64)) as u32
    }
}

/// Unfolds a signed number.
pub fn zigzag_decode(x: u32) -> (n: i32)
    ensures
        n == unzigzag(x),
{
    if x % 2 == 0 {
        (x / 2) as i32
    } else {
        (-((x / 2) as i64) - 1) as i32
    }
}

} // verus!
