//! Fixed-width integers on the wire: little-endian for datagrams, big-endian for stream frames.

use vstd::prelude::*;

verus! {

/// The four bytes of `x`, least significant first.
pub open spec fn le32(x: u32) -> Seq<u8> {
    seq![
        (x % 256) as u8,
        (x / 256 % 256) as u8,
        (x / 65536 % 256) as u8,
        (x / 16777216) as u8,
    ]
}

/// The eight bytes of `x`, least significant first.
pub open spec fn le64(x: u64) -> Seq<u8> {
    le32((x % 0x1_0000_0000) as u32) + le32((x / 0x1_0000_0000) as u32)
}

/// The two bytes of `x`, most significant first.
pub open spec fn be16(x: u16) -> Seq<u8> {
    seq![(x / 256) as u8, (x % 256) as u8]
}

/// The number that the four bytes of `s` from `i` on spell, least significant first.
pub open spec fn le32_at(s: Seq<u8>, i: int) -> u32 {
    (s[i] + s[i + 1] * 256 + s[i + 2] * 65536 + s[i + 3] * 16777216) as u32
}

/// The number that the eight bytes of `s` from `i` on spell, least significant first.
pub open spec fn le64_at(s: Seq<u8>, i: int) -> u64 {
    (le32_at(s, i) + le32_at(s, i + 4) * 0x1_0000_0000) as u64
}

/// The number that the two bytes of `s` from `i` on spell, most significant first.
pub open spec fn be16_at(s: Seq<u8>, i: int) -> u16 {
    (s[i] * 256 + s[i + 1]) as u16
}

/// `s` with the bytes from `at` on replaced by `part`.
pub open spec fn splice(s: Seq<u8>, at: int, part: Seq<u8>) -> Seq<u8> {
    s.take(at) + part + s.skip(at + part.len())
}

/// Reading four bytes that were written with `le32` gives the number back.
pub proof fn lemma_le32_round_trip(s: Seq<u8>, i: int, x: u32)
    requires
        0 <= i,
        i + 4 <= s.len(),
        s.subrange(i, i + 4) == le32(x),
    ensures
        le32_at(s, i) == x,
{
    assert(s[i] == s.subrange(i, i + 4)[0]);
    assert(s[i + 1] == s.subrange(i, i + 4)[1]);
    assert(s[i + 2] == s.subrange(i, i + 4)[2]);
    assert(s[i + 3] == s.subrange(i, i + 4)[3]);
}

/// Reading eight bytes that were written with `le64` gives the number back.
pub proof fn lemma_le64_round_trip(s: Seq<u8>, i: int, x: u64)
    requires
        0 <= i,
        i + 8 <= s.len(),
        s.subrange(i, i + 8) == le64(x),
    ensures
        le64_at(s, i) == x,
{
    assert(s.subrange(i, i + 4) =~= s.subrange(i, i + 8).subrange(0, 4));
    assert(s.subrange(i, i + 4) =~= le32((x % 0x1_0000_0000) as u32));
    assert(s.subrange(i + 4, i + 8) =~= s.subrange(i, i + 8).subrange(4, 8));
    assert(s.subrange(i + 4, i + 8) =~= le32((x / 0x1_0000_0000) as u32));
    lemma_le32_round_trip(s, i, (x % 0x1_0000_0000) as u32);
    lemma_le32_round_trip(s, i + 4, (x / 0x1_0000_0000) as u32);
}

/// Reading two bytes that were written with `be16` gives the number back.
pub proof fn lemma_be16_round_trip(s: Seq<u8>, i: int, x: u16)
    requires
        0 <= i,
        i + 2 <= s.len(),
        s.subrange(i, i + 2) == be16(x),
    ensures
        be16_at(s, i) == x,
{
    assert(s[i] == s.subrange(i, i + 2)[0]);
    assert(s[i + 1] == s.subrange(i, i + 2)[1]);
}

/// Writing the number that four bytes spell gives the bytes back.
pub proof fn lemma_le32_of_bytes(s: Seq<u8>, i: int)
    requires
        0 <= i,
        i + 4 <= s.len(),
    ensures
        le32(le32_at(s, i)) == s.subrange(i, i + 4),
{
    let x = le32_at(s, i);
    let (a, b, c, d) = (s[i] as int, s[i + 1] as int, s[i + 2] as int, s[i + 3] as int);
    assert(x == a + b * 256 + c * 65536 + d * 16777216);
    assert(x / 256 == b + c * 256 + d * 65536);
    assert(x / 65536 == c + d * 256);
    assert(le32(x) =~= s.subrange(i, i + 4));
}

/// Writing the number that eight bytes spell gives the bytes back.
pub proof fn lemma_le64_of_bytes(s: Seq<u8>, i: int)
    requires
        0 <= i,
        i + 8 <= s.len(),
    ensures
        le64(le64_at(s, i)) == s.subrange(i, i + 8),
{
    let x = le64_at(s, i);
    let (low, high) = (le32_at(s, i), le32_at(s, i + 4));
    assert(x == low + high * 0x1_0000_0000);
    assert(x % 0x1_0000_0000 == low && x / 0x1_0000_0000 == high);
    assert(le64(x) == le32(low) + le32(high));
    lemma_le32_of_bytes(s, i);
    lemma_le32_of_bytes(s, i + 4);
    assert(s.subrange(i, i + 4) + s.subrange(i + 4, i + 8) =~= s.subrange(i, i + 8));
}

/// Writing the number that two bytes spell gives the bytes back.
pub proof fn lemma_be16_of_bytes(s: Seq<u8>, i: int)
    requires
        0 <= i,
        i + 2 <= s.len(),
    ensures
        be16(be16_at(s, i)) == s.subrange(i, i + 2),
{
    let x = be16_at(s, i);
    let (a, b) = (s[i] as int, s[i + 1] as int);
    assert(x == a * 256 + b);
    assert(be16(x) =~= s.subrange(i, i + 2));
}

/// What the bytes of a number stand for: by their places, as powers of 256, they add up to it.
pub proof fn law_bytes_add_up(x: u32, y: u64, z: u16)
    ensures
        le32(x).len() == 4,
        le32(x)[0] + 256 * le32(x)[1] + 65536 * le32(x)[2] + 16777216 * le32(x)[3] == x,
        le64(y).len() == 8,
        le64(y)[0] + 256 * le64(y)[1] + 65536 * le64(y)[2] + 16777216 * le64(y)[3] + 0x1_0000_0000
            * (le64(y)[4] + 256 * le64(y)[5] + 65536 * le64(y)[6] + 16777216 * le64(y)[7]) == y,
        be16(z).len() == 2,
        256 * be16(z)[0] + be16(z)[1] == z,
{
    let (low, high) = ((y % 0x1_0000_0000) as u32, (y / 0x1_0000_0000) as u32);
    assert(le32(low)[0] + 256 * le32(low)[1] + 65536 * le32(low)[2] + 16777216 * le32(low)[3]
        == low);
    assert(le32(high)[0] + 256 * le32(high)[1] + 65536 * le32(high)[2] + 16777216 * le32(high)[3]
        == high);
    assert(le64(y).take(4) =~= le32(low));
    assert(le64(y).skip(4) =~= le32(high));
    assert(le64(y)[4] == le32(high)[0] && le64(y)[5] == le32(high)[1] && le64(y)[6] == le32(
        high,
    )[2] && le64(y)[7] == le32(high)[3]);
}

/// Writes `x` into the four bytes of `buf` from `at` on, least significant first.
pub fn put_le32(buf: &mut [u8], at: usize, x: u32)
    requires
        at + 4 <= old(buf)@.len(),
    ensures
        final(buf)@ == splice(old(buf)@, at as int, le32(x)),
{
    buf[at] = (x % 256) as u8;
    buf[at + 1] = (x / 256 % 256) as u8;
    buf[at + 2] = (x / 65536 % 256) as u8;
    buf[at + 3] = (x / 16777216) as u8;
    assert(buf@ =~= splice(old(buf)@, at as int, le32(x)));
}

/// Writes `x` into the eight bytes of `buf` from `at` on, least significant first.
pub fn put_le64(buf: &mut [u8], at: usize, x: u64)
    requires
        at + 8 <= old(buf)@.len(),
    ensures
        final(buf)@ == splice(old(buf)@, at as int, le64(x)),
{
    assert(at + 8 <= buf.len());
    put_le32(buf, at, (x % 0x1_0000_0000) as u32);
    put_le32(buf, at + 4, (x / 0x1_0000_0000) as u32);
    assert(buf@ =~= splice(old(buf)@, at as int, le64(x)));
}

/// Copies `src` over the bytes of `buf` from `at` on.
pub fn put_bytes(buf: &mut [u8], at: usize, src: &[u8])
    requires
        at + src@.len() <= old(buf)@.len(),
    ensures
        final(buf)@ == splice(old(buf)@, at as int, src@),
{
    assert(at + src@.len() <= buf.len());
    let mut i: usize = 0;
    while i < src.len()
        invariant
            at + src@.len() <= usize::MAX,
            i <= src@.len(),
            buf@.len() == old(buf)@.len(),
            at + src@.len() <= buf@.len(),
            forall|j: int|
                0 <= j < buf@.len() ==> buf@[j] == if at <= j < at + i {
                    src@[j - at]
                } else {
                    old(buf)@[j]
                },
        decreases src@.len() - i,
    {
        buf[at + i] = src[i];
        i += 1;
    }
    assert(buf@ =~= splice(old(buf)@, at as int, src@));
}

/// Reads the four bytes of `buf` from `at` on, least significant first.
pub fn get_le32(buf: &[u8], at: usize) -> (x: u32)
    requires
        at + 4 <= buf@.len(),
    ensures
        x == le32_at(buf@, at as int),
{
    buf[at] as u32 + buf[at + 1] as u32 * 256 + buf[at + 2] as u32 * 65536 + buf[at + 3] as u32
        * 16777216
}

/// Reads the eight bytes of `buf` from `at` on, least significant first.
pub fn get_le64(buf: &[u8], at: usize) -> (x: u64)
    requires
        at + 8 <= buf@.len(),
    ensures
        x == le64_at(buf@, at as int),
{
    assert(at + 8 <= buf.len());
    get_le32(buf, at) as u64 + get_le32(buf, at + 4) as u64 * 0x1_0000_0000
}

} // verus!
