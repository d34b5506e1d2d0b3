//! Fixed-width big-endian integers, the numeric fields of the byte format.

use vstd::prelude::*;

verus! {

/// The eight bytes of `x`, most significant first.
pub open spec fn u64_be(x: u64) -> Seq<u8> {
    seq![
        (x / 0x100_0000_0000_0000) as u8,
        (x / 0x1_0000_0000_0000 % 256) as u8,
        (x / 0x100_0000_0000 % 256) as u8,
        (x / 0x1_0000_0000 % 256) as u8,
        (x / 0x100_0000 % 256) as u8,
        (x / 0x1_0000 % 256) as u8,
        (x / 0x100 % 256) as u8,
        (x % 256) as u8,
    ]
}

/// The number whose big-endian bytes are the first eight of `s`.
pub open spec fn be_u64(s: Seq<u8>) -> u64
    recommends
        s.len() >= 8,
{
    (s[0] as int * 0x100_0000_0000_0000 + s[1] as int * 0x1_0000_0000_0000 + s[2] as int
        * 0x100_0000_0000 + s[3] as int * 0x1_0000_0000 + s[4] as int * 0x100_0000 + s[5] as int
        * 0x1_0000 + s[6] as int * 0x100 + s[7] as int) as u64
}

/// Dividing by 256 twice is dividing by 65536, and so on up the powers of 256.
proof fn lemma_nested_quotients(x: u64)
    ensures
        x / 0x1_0000 == x / 0x100 / 0x100,
        x / 0x100_0000 == x / 0x1_0000 / 0x100,
        x / 0x1_0000_0000 == x / 0x100_0000 / 0x100,
        x / 0x100_0000_0000 == x / 0x1_0000_0000 / 0x100,
        x / 0x1_0000_0000_0000 == x / 0x100_0000_0000 / 0x100,
        x / 0x100_0000_0000_0000 == x / 0x1_0000_0000_0000 / 0x100,
{
}

/// Decoding undoes encoding.
pub proof fn lemma_be_u64_of_u64_be(x: u64)
    ensures
        u64_be(x).len() == 8,
        be_u64(u64_be(x)) == x,
{
    lemma_nested_quotients(x);
    let q1 = x / 0x100;
    let q2 = q1 / 0x100;
    let q3 = q2 / 0x100;
    let q4 = q3 / 0x100;
    let q5 = q4 / 0x100;
    let q6 = q5 / 0x100;
    let q7 = q6 / 0x100;
    assert(x == q1 * 0x100 + x % 256);
    assert(q1 == q2 * 0x100 + q1 % 256);
    assert(q2 == q3 * 0x100 + q2 % 256);
    assert(q3 == q4 * 0x100 + q3 % 256);
    assert(q4 == q5 * 0x100 + q4 % 256);
    assert(q5 == q6 * 0x100 + q5 % 256);
    assert(q6 == q7 * 0x100 + q6 % 256);
    assert(q7 < 256);
}

/// Encoding undoes decoding, on exactly eight bytes.
pub proof fn lemma_u64_be_of_be_u64(s: Seq<u8>)
    requires
        s.len() == 8,
    ensures
        u64_be(be_u64(s)) == s,
{
    let x7 = s[0] as int;
    let x6 = x7 * 256 + s[1];
    let x5 = x6 * 256 + s[2];
    let x4 = x5 * 256 + s[3];
    let x3 = x4 * 256 + s[4];
    let x2 = x3 * 256 + s[5];
    let x1 = x2 * 256 + s[6];
    let x0 = x1 * 256 + s[7];
    assert(x0 == be_u64(s));
    lemma_nested_quotients(x0 as u64);
    assert(x0 / 256 == x1 && x0 % 256 == s[7]);
    assert(x1 / 256 == x2 && x1 % 256 == s[6]);
    assert(x2 / 256 == x3 && x2 % 256 == s[5]);
    assert(x3 / 256 == x4 && x3 % 256 == s[4]);
    assert(x4 / 256 == x5 && x4 % 256 == s[3]);
    assert(x5 / 256 == x6 && x5 % 256 == s[2]);
    assert(x6 / 256 == x7 && x6 % 256 == s[1]);
    assert(u64_be(be_u64(s)) =~= s);
}

/// Appends the eight big-endian bytes of `x` to `out`.
pub fn push_u64_be(out: &mut Vec<u8>, x: u64)
    ensures
        final(out)@ == old(out)@ + u64_be(x),
{
    out.push((x / 0x100_0000_0000_0000) as u8);
    out.push((x / 0x1_0000_0000_0000 % 256) as u8);
    out.push((x / 0x100_0000_0000 % 256) as u8);
    out.push((x / 0x1_0000_0000 % 256) as u8);
    out.push((x / 0x100_0000 % 256) as u8);
    out.push((x / 0x1_0000 % 256) as u8);
    out.push((x / 0x100 % 256) as u8);
    out.push((x % 256) as u8);
    assert(out@ =~= old(out)@ + u64_be(x));
}

/// Reads eight big-endian bytes of `bytes` from `at`.
pub fn read_u64_be(bytes: &Vec<u8>, at: usize) -> (x: u64)
    requires
        at + 8 <= bytes.len(),
    ensures
        x == be_u64(bytes@.subrange(at as int, at + 8)),
{
    let b0: u64 = bytes[at] as u64;
    let b1: u64 = bytes[at + 1] as u64;
    let b2: u64 = bytes[at + 2] as u64;
    let b3: u64 = bytes[at + 3] as u64;
    let b4: u64 = bytes[at + 4] as u64;
    let b5: u64 = bytes[at + 5] as u64;
    let b6: u64 = bytes[at + 6] as u64;
    let b7: u64 = bytes[at + 7] as u64;
    b0 * 0x100_0000_0000_0000 + b1 * 0x1_0000_0000_0000 + b2 * 0x100_0000_0000 + b3
        * 0x1_0000_0000 + b4 * 0x100_0000 + b5 * 0x1_0000 + b6 * 0x100 + b7
}

/// The two's-complement bit pattern of `x` as an unsigned number.
pub open spec fn i64_bits(x: i64) -> u64 {
    if x >= 0 {
        x as u64
    } else {
        (x + 0x1_0000_0000_0000_0000) as u64
    }
}

/// The signed number whose two's-complement bit pattern is `w`.
pub open spec fn bits_i64(w: u64) -> i64 {
    if w < 0x8000_0000_0000_0000 {
        w as i64
    } else {
        (w - 0x1_0000_0000_0000_0000) as i64
    }
}

/// The eight bytes of `x` in two's complement, most significant first.
pub open spec fn i64_be(x: i64) -> Seq<u8> {
    u64_be(i64_bits(x))
}

/// The signed number whose big-endian two's-complement bytes are the first eight of `s`.
pub open spec fn be_i64(s: Seq<u8>) -> i64
    recommends
        s.len() >= 8,
{
    bits_i64(be_u64(s))
}

/// Decoding a signed number undoes encoding it.
pub proof fn lemma_be_i64_of_i64_be(x: i64)
    ensures
        i64_be(x).len() == 8,
        be_i64(i64_be(x)) == x,
{
    lemma_be_u64_of_u64_be(i64_bits(x));
}

/// Encoding a signed number undoes decoding it, on exactly eight bytes.
pub proof fn lemma_i64_be_of_be_i64(s: Seq<u8>)
    requires
        s.len() == 8,
    ensures
        i64_be(be_i64(s)) == s,
{
    lemma_u64_be_of_be_u64(s);
}

/// Appends the eight big-endian two's-complement bytes of `x` to `out`.
pub fn push_i64_be(out: &mut Vec<u8>, x: i64)
    ensures
        final(out)@ == old(out)@ + i64_be(x),
{
    let w: u64 = if x >= 0 {
        x as u64
    } else {
        u64::MAX - ((-(x + 1)) as u64)
    };
    push_u64_be(out, w);
}

/// Reads eight big-endian two's-complement bytes of `bytes` from `at`.
pub fn read_i64_be(bytes: &Vec<u8>, at: usize) -> (x: i64)
    requires
        at + 8 <= bytes.len(),
    ensures
        x == be_i64(bytes@.subrange(at as int, at + 8)),
{
    let w: u64 = read_u64_be(bytes, at);
    if w < 0x8000_0000_0000_0000 {
        w as i64
    } else {
        -((u64::MAX - w) as i64) - 1
    }
}

} // verus!
