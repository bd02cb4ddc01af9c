//! Little-endian integers inside byte sequences.

use vstd::prelude::*;

verus! {

/// The two bytes of `b` at `at`, read as a little-endian number.
pub open spec fn le16(b: Seq<u8>, at: int) -> int {
    b[at] + 256 * b[at + 1]
}

/// The four bytes of `b` at `at`, read as a little-endian number.
pub open spec fn le32(b: Seq<u8>, at: int) -> int {
    le16(b, at) + 65536 * le16(b, at + 2)
}

/// The eight bytes of `b` at `at`, read as a little-endian number.
pub open spec fn le64(b: Seq<u8>, at: int) -> int {
    le32(b, at) + 4294967296 * le32(b, at + 4)
}

/// The two bytes that spell `x`, least significant first.
pub open spec fn le16_bytes(x: u16) -> Seq<u8> {
    seq![(x % 256) as u8, (x / 256) as u8]
}

/// The four bytes that spell `x`, least significant first.
pub open spec fn le32_bytes(x: u32) -> Seq<u8> {
    le16_bytes((x % 65536) as u16) + le16_bytes((x / 65536) as u16)
}

/// The eight bytes that spell `x`, least significant first.
pub open spec fn le64_bytes(x: u64) -> Seq<u8> {
    le32_bytes((x % 4294967296) as u32) + le32_bytes((x / 4294967296) as u32)
}

/// Reading back the bytes that spell a number gives the number.
pub proof fn lemma_le16_round_trip(x: u16)
    ensures
        le16(le16_bytes(x), 0) == x,
{
}

/// Reading back the bytes that spell a number gives the number.
pub proof fn lemma_le32_round_trip(x: u32)
    ensures
        le32(le32_bytes(x), 0) == x,
{
    let lo = (x % 65536) as u16;
    let hi = (x / 65536) as u16;
    lemma_le16_round_trip(lo);
    lemma_le16_round_trip(hi);
    assert(le32_bytes(x).subrange(0, 2) =~= le16_bytes(lo).subrange(0, 2));
    lemma_le_same_bytes(le32_bytes(x), 0, le16_bytes(lo), 0, 2);
    assert(le32_bytes(x).subrange(2, 4) =~= le16_bytes(hi).subrange(0, 2));
    lemma_le_same_bytes(le32_bytes(x), 2, le16_bytes(hi), 0, 2);
}

/// Reading back the bytes that spell a number gives the number.
pub proof fn lemma_le64_round_trip(x: u64)
    ensures
        le64(le64_bytes(x), 0) == x,
{
    let lo = (x % 4294967296) as u32;
    let hi = (x / 4294967296) as u32;
    lemma_le32_round_trip(lo);
    lemma_le32_round_trip(hi);
    assert(le64_bytes(x).subrange(0, 4) =~= le32_bytes(lo).subrange(0, 4));
    lemma_le_same_bytes(le64_bytes(x), 0, le32_bytes(lo), 0, 4);
    assert(le64_bytes(x).subrange(4, 8) =~= le32_bytes(hi).subrange(0, 4));
    lemma_le_same_bytes(le64_bytes(x), 4, le32_bytes(hi), 0, 4);
}

/// The bytes of a number, each by its own bits.
proof fn lemma_bits64(x: u64)
    by (bit_vector)
    ensures
        ((x % 0x1_0000_0000) as u32 % 65536) as u16 % 256 == x & 0xff,
        ((x % 0x1_0000_0000) as u32 % 65536) as u16 / 256 == (x >> 8) & 0xff,
        ((x % 0x1_0000_0000) as u32 / 65536) as u16 % 256 == (x >> 16) & 0xff,
        ((x % 0x1_0000_0000) as u32 / 65536) as u16 / 256 == (x >> 24) & 0xff,
        ((x / 0x1_0000_0000) as u32 % 65536) as u16 % 256 == (x >> 32) & 0xff,
        ((x / 0x1_0000_0000) as u32 % 65536) as u16 / 256 == (x >> 40) & 0xff,
        ((x / 0x1_0000_0000) as u32 / 65536) as u16 % 256 == (x >> 48) & 0xff,
        ((x / 0x1_0000_0000) as u32 / 65536) as u16 / 256 == (x >> 56) & 0xff,
{
}

/// Numbers are spelled least significant byte first: byte `i` has bits `8 * i` to
/// `8 * i + 7`.
pub proof fn law_least_significant_first(x: u64)
    ensures
        le64_bytes(x).len() == 8,
        le64_bytes(x)[0] == x & 0xff,
        le64_bytes(x)[1] == (x >> 8) & 0xff,
        le64_bytes(x)[2] == (x >> 16) & 0xff,
        le64_bytes(x)[3] == (x >> 24) & 0xff,
        le64_bytes(x)[4] == (x >> 32) & 0xff,
        le64_bytes(x)[5] == (x >> 40) & 0xff,
        le64_bytes(x)[6] == (x >> 48) & 0xff,
        le64_bytes(x)[7] == (x >> 56) & 0xff,
{
    lemma_bits64(x);
}

/// Shorter numbers are spelled like long ones, without the bytes that would be zero.
pub proof fn law_short_numbers(x: u16, y: u32)
    ensures
        le64_bytes(x as u64) == le16_bytes(x) + seq![0u8, 0, 0, 0, 0, 0],
        le64_bytes(y as u64) == le32_bytes(y) + seq![0u8, 0, 0, 0],
{
    assert(le64_bytes(x as u64) =~= le16_bytes(x) + seq![0u8, 0, 0, 0, 0, 0]);
    assert(le64_bytes(y as u64) =~= le32_bytes(y) + seq![0u8, 0, 0, 0]);
}

/// What a number is read as is the number that the bytes there spell, and no other.
pub proof fn law_read_is_what_is_spelled(b: Seq<u8>, at: int, x: u16, y: u32, z: u64)
    requires
        0 <= at,
        at <= b.len(),
    ensures
        at + 2 <= b.len() ==> (le16(b, at) == x <==> b.subrange(at, at + 2) == le16_bytes(x)),
        at + 4 <= b.len() ==> (le32(b, at) == y <==> b.subrange(at, at + 4) == le32_bytes(y)),
        at + 8 <= b.len() ==> (le64(b, at) == z <==> b.subrange(at, at + 8) == le64_bytes(z)),
{
    if at + 2 <= b.len() {
        lemma_le16_spelled(b, at);
        lemma_le16_round_trip(x);
        lemma_le16_round_trip(le16(b, at) as u16);
    }
    if at + 4 <= b.len() {
        lemma_le32_spelled(b, at);
        lemma_le32_round_trip(y);
        lemma_le32_round_trip(le32(b, at) as u32);
    }
    if at + 8 <= b.len() {
        lemma_le64_spelled(b, at);
        lemma_le64_round_trip(z);
        lemma_le64_round_trip(le64(b, at) as u64);
    }
}

/// Two bytes are those that spell the number that they are read as.
pub proof fn lemma_le16_spelled(b: Seq<u8>, at: int)
    requires
        0 <= at,
        at + 2 <= b.len(),
    ensures
        0 <= le16(b, at) <= u16::MAX,
        le16_bytes(le16(b, at) as u16) == b.subrange(at, at + 2),
{
    assert(le16_bytes(le16(b, at) as u16) =~= b.subrange(at, at + 2));
}

/// Four bytes are those that spell the number that they are read as.
pub proof fn lemma_le32_spelled(b: Seq<u8>, at: int)
    requires
        0 <= at,
        at + 4 <= b.len(),
    ensures
        0 <= le32(b, at) <= u32::MAX,
        le32_bytes(le32(b, at) as u32) == b.subrange(at, at + 4),
{
    lemma_le16_spelled(b, at);
    lemma_le16_spelled(b, at + 2);
    assert(le32_bytes(le32(b, at) as u32) =~= b.subrange(at, at + 4));
}

/// A number is spelled by its halves.
proof fn lemma_le64_halves(lo: u32, hi: u32)
    ensures
        lo + 4294967296 * hi <= u64::MAX,
        le64_bytes((lo + 4294967296 * hi) as u64) == le32_bytes(lo) + le32_bytes(hi),
{
    let x = (lo + 4294967296 * hi) as u64;
    assert(x % 4294967296 == lo);
    assert(x / 4294967296 == hi);
}

/// Eight bytes are those that spell the number that they are read as.
#[verifier::spinoff_prover]
pub proof fn lemma_le64_spelled(b: Seq<u8>, at: int)
    requires
        0 <= at,
        at + 8 <= b.len(),
    ensures
        0 <= le64(b, at) <= u64::MAX,
        le64_bytes(le64(b, at) as u64) == b.subrange(at, at + 8),
{
    lemma_le32_spelled(b, at);
    lemma_le32_spelled(b, at + 4);
    let lo = le32(b, at);
    let hi = le32(b, at + 4);
    assert(le64(b, at) == lo + 4294967296 * hi);
    lemma_le64_halves(lo as u32, hi as u32);
    assert(b.subrange(at, at + 4) + b.subrange(at + 4, at + 8) =~= b.subrange(at, at + 8));
}

/// Equal bytes spell equal numbers, wherever they stand.
pub proof fn lemma_le_same_bytes(a: Seq<u8>, i: int, b: Seq<u8>, j: int, n: int)
    requires
        0 <= i,
        0 <= j,
        i + n <= a.len(),
        j + n <= b.len(),
        a.subrange(i, i + n) == b.subrange(j, j + n),
    ensures
        n >= 2 ==> le16(a, i) == le16(b, j),
        n >= 4 ==> le32(a, i) == le32(b, j),
        n >= 8 ==> le64(a, i) == le64(b, j),
{
    let s = a.subrange(i, i + n);
    let t = b.subrange(j, j + n);
    if n >= 2 {
        assert(s[0] == t[0] && s[1] == t[1]);
    }
    if n >= 4 {
        assert(s[2] == t[2] && s[3] == t[3]);
    }
    if n >= 8 {
        assert(s[4] == t[4] && s[5] == t[5] && s[6] == t[6] && s[7] == t[7]);
    }
}

/// The `u16` at `off`.
pub fn u16_at(b: &[u8], off: usize) -> (x: u16)
    requires
        off + 2 <= b.len(),
    ensures
        x == le16(b@, off as int),
{
    b[off] as u16 + 256 * (b[off + 1] as u16)
}

/// The `u32` at `off`.
pub fn u32_at(b: &[u8], off: usize) -> (x: u32)
    requires
        off + 4 <= b.len(),
    ensures
        x == le32(b@, off as int),
{
    u16_at(b, off) as u32 + 65536 * (u16_at(b, off + 2) as u32)
}

/// The `u64` at `off`.
pub fn u64_at(b: &[u8], off: usize) -> (x: u64)
    requires
        off + 8 <= b.len(),
    ensures
        x == le64(b@, off as int),
{
    u32_at(b, off) as u64 + 4294967296 * (u32_at(b, off + 4) as u64)
}

/// Append the bytes of `x` to `out`.
pub fn push_u16(out: &mut Vec<u8>, x: u16)
    ensures
        final(out)@ == old(out)@ + le16_bytes(x),
{
    out.push((x % 256) as u8);
    out.push((x / 256) as u8);
}

/// Append the bytes of `x` to `out`.
pub fn push_u64(out: &mut Vec<u8>, x: u64)
    ensures
        final(out)@ == old(out)@ + le64_bytes(x),
{
    let lo: u32 = (x % 4294967296) as u32;
    let hi: u32 = (x / 4294967296) as u32;
    push_u16(out, (lo % 65536) as u16);
    push_u16(out, (lo / 65536) as u16);
    push_u16(out, (hi % 65536) as u16);
    push_u16(out, (hi / 65536) as u16);
}

} // verus!
