//! Fixed-width unsigned integers as byte sequences, in both byte orders.
//!
//! The conversions are opaque to the solver: a proof that needs the bytes
//! themselves reveals the function it speaks of, and everything else goes
//! by the inverse lemmas.

use vstd::prelude::*;

verus! {

/// The 16-bit integer whose little-endian bytes are the first two of `s`.
#[verifier::opaque]
pub open spec fn u16_from_le(s: Seq<u8>) -> u16 {
    (s[0] as int + 0x100 * s[1] as int) as u16
}

/// The 32-bit integer whose little-endian bytes are the first four of `s`.
#[verifier::opaque]
pub open spec fn u32_from_le(s: Seq<u8>) -> u32 {
    (s[0] as int + 0x100 * s[1] as int + 0x1_0000 * s[2] as int + 0x100_0000 * s[3] as int) as u32
}

/// The 32-bit integer whose big-endian bytes are the first four of `s`.
#[verifier::opaque]
pub open spec fn u32_from_be(s: Seq<u8>) -> u32 {
    (0x100_0000 * s[0] as int + 0x1_0000 * s[1] as int + 0x100 * s[2] as int + s[3] as int) as u32
}

/// The 64-bit integer whose little-endian bytes are the first eight of `s`.
#[verifier::opaque]
pub open spec fn u64_from_le(s: Seq<u8>) -> u64 {
    (u32_from_le(s.take(4)) as int + 0x1_0000_0000 * u32_from_le(s.skip(4)) as int) as u64
}

/// The two bytes of `x`, least significant first.
#[verifier::opaque]
pub open spec fn u16_to_le(x: u16) -> Seq<u8> {
    seq![(x % 0x100) as u8, (x / 0x100) as u8]
}

/// The four bytes of `x`, least significant first.
#[verifier::opaque]
pub open spec fn u32_to_le(x: u32) -> Seq<u8> {
    seq![
        (x % 0x100) as u8,
        (x / 0x100 % 0x100) as u8,
        (x / 0x1_0000 % 0x100) as u8,
        (x / 0x100_0000) as u8,
    ]
}

/// The four bytes of `x`, most significant first.
#[verifier::opaque]
pub open spec fn u32_to_be(x: u32) -> Seq<u8> {
    seq![
        (x / 0x100_0000) as u8,
        (x / 0x1_0000 % 0x100) as u8,
        (x / 0x100 % 0x100) as u8,
        (x % 0x100) as u8,
    ]
}

/// The eight bytes of `x`, least significant first.
#[verifier::opaque]
pub open spec fn u64_to_le(x: u64) -> Seq<u8> {
    u32_to_le((x % 0x1_0000_0000) as u32) + u32_to_le((x / 0x1_0000_0000) as u32)
}

/// A length as a 32-bit field states it: modulo 2^32.
pub open spec fn low_u32(len: nat) -> u32 {
    (len % 0x1_0000_0000) as u32
}

/// What `bytes` holds once the bytes from `at` on are overwritten by `patch`.
pub open spec fn patched(bytes: Seq<u8>, at: int, patch: Seq<u8>) -> Seq<u8> {
    bytes.take(at) + patch + bytes.skip(at + patch.len())
}

/// The four base-256 digits of a number below 2^32 are the number's
/// quotients and remainders by the powers of 256.
proof fn lemma_digits(b0: int, b1: int, b2: int, b3: int)
    requires
        0 <= b0 < 0x100,
        0 <= b1 < 0x100,
        0 <= b2 < 0x100,
        0 <= b3 < 0x100,
    ensures
        ({
            let v = b0 + 0x100 * b1 + 0x1_0000 * b2 + 0x100_0000 * b3;
            &&& 0 <= v < 0x1_0000_0000
            &&& v % 0x100 == b0
            &&& v / 0x100 % 0x100 == b1
            &&& v / 0x1_0000 % 0x100 == b2
            &&& v / 0x100_0000 == b3
        }),
{
    let v = b0 + 0x100 * b1 + 0x1_0000 * b2 + 0x100_0000 * b3;
    assert(v / 0x100 == b1 + 0x100 * b2 + 0x1_0000 * b3);
    assert(v / 0x1_0000 == b2 + 0x100 * b3);
    assert(v / 0x100_0000 == b3);
}

/// A number below 2^32 is the sum of its four base-256 digits, each
/// weighted by its power of 256.
proof fn lemma_digit_sum(v: int)
    requires
        0 <= v < 0x1_0000_0000,
    ensures
        v == v % 0x100 + 0x100 * (v / 0x100 % 0x100) + 0x1_0000 * (v / 0x1_0000 % 0x100)
            + 0x100_0000 * (v / 0x100_0000),
        0 <= v / 0x100_0000 < 0x100,
{
    let a = v / 0x100;
    let b = a / 0x100;
    let c = b / 0x100;
    assert(b == v / 0x1_0000);
    assert(c == v / 0x100_0000);
}

/// A number made of a low and a high 32-bit half splits back into them.
proof fn lemma_halves(low: int, high: int)
    requires
        0 <= low < 0x1_0000_0000,
        0 <= high < 0x1_0000_0000,
    ensures
        (low + 0x1_0000_0000 * high) % 0x1_0000_0000 == low,
        (low + 0x1_0000_0000 * high) / 0x1_0000_0000 == high,
        0 <= low + 0x1_0000_0000 * high < 0x1_0000_0000_0000_0000,
{
}

/// Reading back the bytes written for a 16-bit integer gives the integer,
/// and writing the integer read from two bytes gives the two bytes.
pub proof fn lemma_u16_le_inverse(x: u16, s: Seq<u8>)
    ensures
        u16_to_le(x).len() == 2,
        u16_from_le(u16_to_le(x)) == x,
        s.len() == 2 ==> u16_to_le(u16_from_le(s)) == s,
{
    reveal(u16_to_le);
    reveal(u16_from_le);
    if s.len() == 2 {
        assert(u16_to_le(u16_from_le(s)) =~= s);
    }
}

/// Reading back the little-endian bytes written for a 32-bit integer gives
/// the integer, and writing the integer read from four bytes gives the bytes.
pub proof fn lemma_u32_le_inverse(x: u32, s: Seq<u8>)
    ensures
        u32_to_le(x).len() == 4,
        u32_from_le(u32_to_le(x)) == x,
        s.len() == 4 ==> u32_to_le(u32_from_le(s)) == s,
{
    reveal(u32_to_le);
    reveal(u32_from_le);
    lemma_digit_sum(x as int);
    if s.len() == 4 {
        lemma_digits(s[0] as int, s[1] as int, s[2] as int, s[3] as int);
        assert(u32_to_le(u32_from_le(s)) =~= s);
    }
}

/// Reading back the big-endian bytes written for a 32-bit integer gives the
/// integer, and writing the integer read from four bytes gives the bytes.
pub proof fn lemma_u32_be_inverse(x: u32, s: Seq<u8>)
    ensures
        u32_to_be(x).len() == 4,
        u32_from_be(u32_to_be(x)) == x,
        s.len() == 4 ==> u32_to_be(u32_from_be(s)) == s,
{
    reveal(u32_to_be);
    reveal(u32_from_be);
    lemma_digit_sum(x as int);
    if s.len() == 4 {
        lemma_digits(s[3] as int, s[2] as int, s[1] as int, s[0] as int);
        assert(u32_to_be(u32_from_be(s)) =~= s);
    }
}

/// Reading back the bytes written for a 64-bit integer gives the integer,
/// and writing the integer read from eight bytes gives the eight bytes.
pub proof fn lemma_u64_le_inverse(x: u64, s: Seq<u8>)
    ensures
        u64_to_le(x).len() == 8,
        u64_from_le(u64_to_le(x)) == x,
        s.len() == 8 ==> u64_to_le(u64_from_le(s)) == s,
{
    reveal(u64_to_le);
    reveal(u64_from_le);
    let low = (x % 0x1_0000_0000) as u32;
    let high = (x / 0x1_0000_0000) as u32;
    let written = u32_to_le(low) + u32_to_le(high);
    lemma_u32_le_inverse(low, s.take(4));
    lemma_u32_le_inverse(high, s.skip(4));
    assert(written.take(4) =~= u32_to_le(low));
    assert(written.skip(4) =~= u32_to_le(high));
    if s.len() == 8 {
        lemma_halves(u32_from_le(s.take(4)) as int, u32_from_le(s.skip(4)) as int);
        assert(s.take(4) + s.skip(4) =~= s);
    }
}

/// The low 32 bits of a length.
pub fn truncate_len(len: usize) -> (low: u32)
    ensures
        low == low_u32(len as nat),
{
    ((len as u64) % 0x1_0000_0000) as u32
}

/// Reads a little-endian 16-bit integer.
pub fn read_u16_le(bytes: &[u8; 2]) -> (x: u16)
    ensures
        x == u16_from_le(bytes@),
{
    proof {
        reveal(u16_from_le);
    }
    bytes[0] as u16 + 0x100 * (bytes[1] as u16)
}

/// Reads a little-endian 32-bit integer.
pub fn read_u32_le(bytes: &[u8; 4]) -> (x: u32)
    ensures
        x == u32_from_le(bytes@),
{
    proof {
        reveal(u32_from_le);
    }
    bytes[0] as u32 + 0x100 * (bytes[1] as u32) + 0x1_0000 * (bytes[2] as u32) + 0x100_0000 * (
    bytes[3] as u32)
}

/// Reads a big-endian 32-bit integer.
pub fn read_u32_be(bytes: &[u8; 4]) -> (x: u32)
    ensures
        x == u32_from_be(bytes@),
{
    proof {
        reveal(u32_from_be);
    }
    0x100_0000 * (bytes[0] as u32) + 0x1_0000 * (bytes[1] as u32) + 0x100 * (bytes[2] as u32)
        + bytes[3] as u32
}

/// Reads a little-endian 64-bit integer.
pub fn read_u64_le(bytes: &[u8; 8]) -> (x: u64)
    ensures
        x == u64_from_le(bytes@),
{
    proof {
        reveal(u64_from_le);
        reveal(u32_from_le);
    }
    let low: u64 = bytes[0] as u64 + 0x100 * (bytes[1] as u64) + 0x1_0000 * (bytes[2] as u64)
        + 0x100_0000 * (bytes[3] as u64);
    let high: u64 = bytes[4] as u64 + 0x100 * (bytes[5] as u64) + 0x1_0000 * (bytes[6] as u64)
        + 0x100_0000 * (bytes[7] as u64);
    low + 0x1_0000_0000 * high
}

/// Appends the two little-endian bytes of `x` to `out`.
pub fn write_u16_le(x: u16, out: &mut Vec<u8>)
    ensures
        final(out)@ == old(out)@ + u16_to_le(x),
{
    out.push((x % 0x100) as u8);
    out.push((x / 0x100) as u8);
    proof {
        reveal(u16_to_le);
    }
    assert(out@ =~= old(out)@ + u16_to_le(x));
}

/// Appends the four little-endian bytes of `x` to `out`.
pub fn write_u32_le(x: u32, out: &mut Vec<u8>)
    ensures
        final(out)@ == old(out)@ + u32_to_le(x),
{
    out.push((x % 0x100) as u8);
    out.push((x / 0x100 % 0x100) as u8);
    out.push((x / 0x1_0000 % 0x100) as u8);
    out.push((x / 0x100_0000) as u8);
    proof {
        reveal(u32_to_le);
    }
    assert(out@ =~= old(out)@ + u32_to_le(x));
}

/// Appends the four big-endian bytes of `x` to `out`.
pub fn write_u32_be(x: u32, out: &mut Vec<u8>)
    ensures
        final(out)@ == old(out)@ + u32_to_be(x),
{
    out.push((x / 0x100_0000) as u8);
    out.push((x / 0x1_0000 % 0x100) as u8);
    out.push((x / 0x100 % 0x100) as u8);
    out.push((x % 0x100) as u8);
    proof {
        reveal(u32_to_be);
    }
    assert(out@ =~= old(out)@ + u32_to_be(x));
}

/// Appends the eight little-endian bytes of `x` to `out`.
pub fn write_u64_le(x: u64, out: &mut Vec<u8>)
    ensures
        final(out)@ == old(out)@ + u64_to_le(x),
{
    write_u32_le((x % 0x1_0000_0000) as u32, out);
    write_u32_le((x / 0x1_0000_0000) as u32, out);
    proof {
        reveal(u64_to_le);
    }
    assert(out@ =~= old(out)@ + u64_to_le(x));
}

/// Overwrites the four bytes of `out` that start at `at` with the
/// big-endian bytes of `x`.
pub fn patch_u32_be(out: &mut Vec<u8>, at: usize, x: u32)
    requires
        at + 4 <= old(out).len(),
    ensures
        final(out)@ == patched(old(out)@, at as int, u32_to_be(x)),
{
    out[at] = (x / 0x100_0000) as u8;
    out[at + 1] = (x / 0x1_0000 % 0x100) as u8;
    out[at + 2] = (x / 0x100 % 0x100) as u8;
    out[at + 3] = (x % 0x100) as u8;
    proof {
        reveal(u32_to_be);
    }
    assert(out@ =~= patched(old(out)@, at as int, u32_to_be(x)));
}

/// Overwrites the four bytes of `out` that start at `at` with the
/// little-endian bytes of `x`.
pub fn patch_u32_le(out: &mut Vec<u8>, at: usize, x: u32)
    requires
        at + 4 <= old(out).len(),
    ensures
        final(out)@ == patched(old(out)@, at as int, u32_to_le(x)),
{
    out[at] = (x % 0x100) as u8;
    out[at + 1] = (x / 0x100 % 0x100) as u8;
    out[at + 2] = (x / 0x1_0000 % 0x100) as u8;
    out[at + 3] = (x / 0x100_0000) as u8;
    proof {
        reveal(u32_to_le);
    }
    assert(out@ =~= patched(old(out)@, at as int, u32_to_le(x)));
}

} // verus!
