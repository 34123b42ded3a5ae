//! Fixed-width integers in little-endian byte order.
use vstd::prelude::*;

verus! {

/// Whether the bytes `part` stand in `s` from position `i` on.
pub open spec fn holds(s: Seq<u8>, i: int, part: Seq<u8>) -> bool {
    0 <= i && i + part.len() <= s.len() && s.subrange(i, i + part.len()) == part
}

pub open spec fn u16_bytes(x: u16) -> Seq<u8> {
    seq![(x % 256) as u8, (x / 256) as u8]
}

pub open spec fn u16_at(s: Seq<u8>, i: int) -> u16 {
    (s[i] + 256 * s[i + 1]) as u16
}

pub open spec fn u32_bytes(x: u32) -> Seq<u8> {
    seq![
        (x % 256) as u8,
        (x / 0x100 % 256) as u8,
        (x / 0x1_0000 % 256) as u8,
        (x / 0x100_0000) as u8,
    ]
}

pub open spec fn u32_at(s: Seq<u8>, i: int) -> u32 {
    (s[i] + 0x100 * s[i + 1] + 0x1_0000 * s[i + 2] + 0x100_0000 * s[i + 3]) as u32
}

pub open spec fn u64_bytes(x: u64) -> Seq<u8> {
    u32_bytes((x % 0x1_0000_0000) as u32) + u32_bytes((x / 0x1_0000_0000) as u32)
}

pub open spec fn u64_at(s: Seq<u8>, i: int) -> u64 {
    (u32_at(s, i) + 0x1_0000_0000 * u32_at(s, i + 4)) as u64
}

/// The two's complement pattern of a signed number.
pub open spec fn pattern(v: i32) -> u32 {
    if v < 0 {
        (v + 0x1_0000_0000) as u32
    } else {
        v as u32
    }
}

/// The signed number of a two's complement pattern.
pub open spec fn signed(x: u32) -> i32 {
    if x >= 0x8000_0000 {
        (x - 0x1_0000_0000) as i32
    } else {
        x as i32
    }
}

pub open spec fn i32_bytes(v: i32) -> Seq<u8> {
    u32_bytes(pattern(v))
}

pub open spec fn i32_at(s: Seq<u8>, i: int) -> i32 {
    signed(u32_at(s, i))
}

pub proof fn lemma_holds_split(s: Seq<u8>, i: int, a: Seq<u8>, b: Seq<u8>)
    requires
        holds(s, i, a + b),
    ensures
        holds(s, i, a),
        holds(s, i + a.len(), b),
{
    let ab = s.subrange(i, i + (a + b).len());
    assert(s.subrange(i, i + a.len()) =~= ab.subrange(0, a.len() as int));
    assert((a + b).subrange(0, a.len() as int) =~= a);
    assert(s.subrange(i + a.len(), i + a.len() + b.len()) =~= ab.subrange(
        a.len() as int,
        (a + b).len() as int,
    ));
    assert((a + b).subrange(a.len() as int, (a + b).len() as int) =~= b);
}

pub proof fn lemma_holds_whole(s: Seq<u8>)
    ensures
        holds(s, 0, s),
{
    assert(s.subrange(0, s.len() as int) =~= s);
}

pub proof fn lemma_holds_index(s: Seq<u8>, i: int, part: Seq<u8>, k: int)
    requires
        holds(s, i, part),
        0 <= k < part.len(),
    ensures
        s[i + k] == part[k],
{
    assert(s.subrange(i, i + part.len())[k] == s[i + k]);
}

pub proof fn lemma_byte_held(s: Seq<u8>, i: int, b: u8)
    requires
        holds(s, i, seq![b]),
    ensures
        s[i] == b,
{
    lemma_holds_index(s, i, seq![b], 0);
}

proof fn lemma_u32_digits(x: u32)
    ensures
        u32_bytes(x).len() == 4,
        x == u32_bytes(x)[0] + 0x100 * u32_bytes(x)[1] + 0x1_0000 * u32_bytes(x)[2] + 0x100_0000
            * u32_bytes(x)[3],
{
}

/// The lowest byte of a number comes first, and each byte counts 256 times as much as the
/// one before it. A negative number stands for what is 2^32 above it.
pub proof fn lowest_byte_first(a: u16, b: u32, c: u64, d: i32)
    ensures
        u16_bytes(a).len() == 2,
        a == u16_bytes(a)[0] + 0x100 * u16_bytes(a)[1],
        u32_bytes(b).len() == 4,
        b == u32_bytes(b)[0] + 0x100 * u32_bytes(b)[1] + 0x1_0000 * u32_bytes(b)[2] + 0x100_0000
            * u32_bytes(b)[3],
        u64_bytes(c).len() == 8,
        c == u64_bytes(c)[0] + 0x100 * u64_bytes(c)[1] + 0x1_0000 * u64_bytes(c)[2] + 0x100_0000
            * u64_bytes(c)[3] + 0x1_0000_0000 * u64_bytes(c)[4] + 0x100_0000_0000 * u64_bytes(c)[5]
            + 0x1_0000_0000_0000 * u64_bytes(c)[6] + 0x100_0000_0000_0000 * u64_bytes(c)[7],
        i32_bytes(d).len() == 4,
        (if d < 0 {
            d + 0x1_0000_0000
        } else {
            d as int
        }) == i32_bytes(d)[0] + 0x100 * i32_bytes(d)[1] + 0x1_0000 * i32_bytes(d)[2] + 0x100_0000
            * i32_bytes(d)[3],
{
    let lo = (c % 0x1_0000_0000) as u32;
    let hi = (c / 0x1_0000_0000) as u32;
    lemma_u32_digits(b);
    lemma_u32_digits(lo);
    lemma_u32_digits(hi);
    lemma_u32_digits(pattern(d));
    assert(u64_bytes(c) == u32_bytes(lo) + u32_bytes(hi));
    let x = u64_bytes(c);
    assert(x[0] == u32_bytes(lo)[0] && x[1] == u32_bytes(lo)[1] && x[2] == u32_bytes(lo)[2] && x[3]
        == u32_bytes(lo)[3]);
    assert(x[4] == u32_bytes(hi)[0] && x[5] == u32_bytes(hi)[1] && x[6] == u32_bytes(hi)[2] && x[7]
        == u32_bytes(hi)[3]);
    assert(c == lo + 0x1_0000_0000 * hi);
}

/// A 16-bit number reads back as it was written.
pub proof fn u16_round_trip(s: Seq<u8>, i: int, x: u16)
    requires
        holds(s, i, u16_bytes(x)),
    ensures
        u16_at(s, i) == x,
{
    lemma_holds_index(s, i, u16_bytes(x), 0);
    lemma_holds_index(s, i, u16_bytes(x), 1);
}

/// A 32-bit number reads back as it was written.
pub proof fn u32_round_trip(s: Seq<u8>, i: int, x: u32)
    requires
        holds(s, i, u32_bytes(x)),
    ensures
        u32_at(s, i) == x,
{
    lemma_holds_index(s, i, u32_bytes(x), 0);
    lemma_holds_index(s, i, u32_bytes(x), 1);
    lemma_holds_index(s, i, u32_bytes(x), 2);
    lemma_holds_index(s, i, u32_bytes(x), 3);
}

/// A 64-bit number reads back as it was written.
pub proof fn u64_round_trip(s: Seq<u8>, i: int, x: u64)
    requires
        holds(s, i, u64_bytes(x)),
    ensures
        u64_at(s, i) == x,
{
    let lo = (x % 0x1_0000_0000) as u32;
    let hi = (x / 0x1_0000_0000) as u32;
    lemma_holds_split(s, i, u32_bytes(lo), u32_bytes(hi));
    u32_round_trip(s, i, lo);
    u32_round_trip(s, i + 4, hi);
}

/// A signed number reads back as it was written.
pub proof fn i32_round_trip(s: Seq<u8>, i: int, v: i32)
    requires
        holds(s, i, i32_bytes(v)),
    ensures
        i32_at(s, i) == v,
{
    u32_round_trip(s, i, pattern(v));
}

/// The two's complement pattern of a signed number.
pub fn pattern_of(v: i32) -> (x: u32)
    ensures
        x == pattern(v),
{
    if v < 0 {
        (v as i64 + 0x1_0000_0000) as u32
    } else {
        v as u32
    }
}

/// The signed number of a two's complement pattern.
pub fn signed_of(x: u32) -> (v: i32)
    ensures
        v == signed(x),
{
    if x >= 0x8000_0000 {
        (x as i64 - 0x1_0000_0000) as i32
    } else {
        x as i32
    }
}

/// Appends a 16-bit number.
pub fn push_u16(out: &mut Vec<u8>, x: u16)
    ensures
        final(out)@ == old(out)@ + u16_bytes(x),
{
    out.push((x % 256) as u8);
    out.push((x / 256) as u8);
    assert(out@ =~= old(out)@ + u16_bytes(x));
}

/// Appends a 32-bit number.
pub fn push_u32(out: &mut Vec<u8>, x: u32)
    ensures
        final(out)@ == old(out)@ + u32_bytes(x),
{
    out.push((x % 256) as u8);
    out.push((x / 0x100 % 256) as u8);
    out.push((x / 0x1_0000 % 256) as u8);
    out.push((x / 0x100_0000) as u8);
    assert(out@ =~= old(out)@ + u32_bytes(x));
}

/// Appends a 64-bit number.
pub fn push_u64(out: &mut Vec<u8>, x: u64)
    ensures
        final(out)@ == old(out)@ + u64_bytes(x),
{
    push_u32(out, (x % 0x1_0000_0000) as u32);
    push_u32(out, (x / 0x1_0000_0000) as u32);
    assert(out@ =~= old(out)@ + u64_bytes(x));
}

/// Appends a signed number.
pub fn push_i32(out: &mut Vec<u8>, v: i32)
    ensures
        final(out)@ == old(out)@ + i32_bytes(v),
{
    push_u32(out, pattern_of(v));
}

/// Appends a copy of `part`.
pub fn push_all(out: &mut Vec<u8>, part: &[u8])
    ensures
        final(out)@ == old(out)@ + part@,
{
    let mut k: usize = 0;
    while k < part.len()
        invariant
            k <= part.len(),
            out@ == old(out)@ + part@.take(k as int),
        decreases part.len() - k,
    {
        out.push(part[k]);
        k = k + 1;
        assert(part@.take(k as int) =~= part@.take(k - 1).push(part@[k - 1]));
    }
    assert(part@.take(k as int) =~= part@);
}

/// Reads a 16-bit number.
pub fn read_u16(s: &[u8], i: usize) -> (x: u16)
    requires
        i + 2 <= s@.len(),
    ensures
        x == u16_at(s@, i as int),
{
    s[i] as u16 + 256 * s[i + 1] as u16
}

/// Reads a 32-bit number.
pub fn read_u32(s: &[u8], i: usize) -> (x: u32)
    requires
        i + 4 <= s@.len(),
    ensures
        x == u32_at(s@, i as int),
{
    s[i] as u32 + 0x100 * s[i + 1] as u32 + 0x1_0000 * s[i + 2] as u32 + 0x100_0000 * s[i
        + 3] as u32
}

/// Reads a 64-bit number.
pub fn read_u64(s: &[u8], i: usize) -> (x: u64)
    requires
        i + 8 <= s@.len(),
    ensures
        x == u64_at(s@, i as int),
{
    assert(s@.len() == s.len());
    read_u32(s, i) as u64 + 0x1_0000_0000 * read_u32(s, i + 4) as u64
}

/// Reads a signed number.
pub fn read_i32(s: &[u8], i: usize) -> (v: i32)
    requires
        i + 4 <= s@.len(),
    ensures
        v == i32_at(s@, i as int),
{
    signed_of(read_u32(s, i))
}

/// Turns a buffer into a boxed slice by `Vec::into_boxed_slice`, which is
/// taken to keep the bytes and their order.
#[verifier::external_body]
pub(crate) fn into_boxed_slice(buffer: Vec<u8>) -> (index: Box<[u8]>)
    ensures
        index@ == buffer@,
{
    buffer.into_boxed_slice()
}

} // verus!
