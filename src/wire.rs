//! The byte layout of the format's primitives: big-endian two's-complement
//! integers, IEEE-754 bit patterns, and length-prefixed UTF-8 strings.
use vstd::prelude::*;
use vstd::utf8::*;

verus! {

/// Two bytes, most significant first.
pub open spec fn be16_bytes(x: u16) -> Seq<u8> {
    seq![(x >> 8u16) as u8, x as u8]
}

/// Four bytes, most significant first.
pub open spec fn be32_bytes(x: u32) -> Seq<u8> {
    seq![(x >> 24u32) as u8, (x >> 16u32) as u8, (x >> 8u32) as u8, x as u8]
}

/// Eight bytes, most significant first.
pub open spec fn be64_bytes(x: u64) -> Seq<u8> {
    seq![
        (x >> 56u64) as u8,
        (x >> 48u64) as u8,
        (x >> 40u64) as u8,
        (x >> 32u64) as u8,
        (x >> 24u64) as u8,
        (x >> 16u64) as u8,
        (x >> 8u64) as u8,
        x as u8,
    ]
}

/// The unsigned 16-bit number whose big-endian bytes start at `p`.
pub open spec fn be16_at(b: Seq<u8>, p: int) -> u16 {
    ((b[p] as u16) << 8u16) | (b[p + 1] as u16)
}

/// The unsigned 32-bit number whose big-endian bytes start at `p`.
pub open spec fn be32_at(b: Seq<u8>, p: int) -> u32 {
    ((b[p] as u32) << 24u32) | ((b[p + 1] as u32) << 16u32) | ((b[p + 2] as u32) << 8u32) | (b[p
        + 3] as u32)
}

/// The unsigned 64-bit number whose big-endian bytes start at `p`.
pub open spec fn be64_at(b: Seq<u8>, p: int) -> u64 {
    ((b[p] as u64) << 56u64) | ((b[p + 1] as u64) << 48u64) | ((b[p + 2] as u64) << 40u64) | ((b[p
        + 3] as u64) << 32u64) | ((b[p + 4] as u64) << 24u64) | ((b[p + 5] as u64) << 16u64) | ((b[p
        + 6] as u64) << 8u64) | (b[p + 7] as u64)
}

/// The bytes of a byte array, each as its two's-complement bit pattern.
pub open spec fn i8s_bytes(a: Seq<i8>) -> Seq<u8> {
    Seq::new(a.len(), |i: int| a[i] as u8)
}

/// The `n` signed bytes that start at `p`.
pub open spec fn i8s_at(b: Seq<u8>, p: int, n: nat) -> Seq<i8> {
    Seq::new(n, |i: int| b[p + i] as i8)
}

/// The bytes of an int array: each element in four big-endian bytes.
pub open spec fn i32s_bytes(a: Seq<i32>) -> Seq<u8>
    decreases a.len(),
{
    if a.len() == 0 {
        Seq::empty()
    } else {
        i32s_bytes(a.drop_last()) + be32_bytes(a.last() as u32)
    }
}

/// The `n` ints whose big-endian bytes start at `p`.
pub open spec fn i32s_at(b: Seq<u8>, p: int, n: nat) -> Seq<i32> {
    Seq::new(n, |i: int| be32_at(b, p + 4 * i) as i32)
}

/// The bytes of a long array: each element in eight big-endian bytes.
pub open spec fn i64s_bytes(a: Seq<i64>) -> Seq<u8>
    decreases a.len(),
{
    if a.len() == 0 {
        Seq::empty()
    } else {
        i64s_bytes(a.drop_last()) + be64_bytes(a.last() as u64)
    }
}

/// The `n` longs whose big-endian bytes start at `p`.
pub open spec fn i64s_at(b: Seq<u8>, p: int, n: nat) -> Seq<i64> {
    Seq::new(n, |i: int| be64_at(b, p + 8 * i) as i64)
}

/// A string on the wire: its UTF-8 byte length in two bytes, then the bytes.
pub open spec fn string_bytes(s: Seq<char>) -> Seq<u8> {
    be16_bytes(encode_utf8(s).len() as u16) + encode_utf8(s)
}

/// Reading back the two bytes of a number gives the number.
pub proof fn lemma_be16_read_written(x: u16, b: Seq<u8>, p: int)
    requires
        0 <= p,
        p + 2 <= b.len(),
        b.subrange(p, p + 2) == be16_bytes(x),
    ensures
        be16_at(b, p) == x,
{
    let (b0, b1) = (b[p], b[p + 1]);
    assert(b0 == b.subrange(p, p + 2)[0] && b1 == b.subrange(p, p + 2)[1]);
    assert(b0 == (x >> 8u16) as u8 && b1 == x as u8 ==> ((b0 as u16) << 8u16) | (b1 as u16) == x)
        by (bit_vector);
}

/// Reading back the four bytes of a number gives the number.
pub proof fn lemma_be32_read_written(x: u32, b: Seq<u8>, p: int)
    requires
        0 <= p,
        p + 4 <= b.len(),
        b.subrange(p, p + 4) == be32_bytes(x),
    ensures
        be32_at(b, p) == x,
{
    let s = b.subrange(p, p + 4);
    let (b0, b1, b2, b3) = (b[p], b[p + 1], b[p + 2], b[p + 3]);
    assert(b0 == s[0] && b1 == s[1] && b2 == s[2] && b3 == s[3]);
    assert(b0 == (x >> 24u32) as u8 && b1 == (x >> 16u32) as u8 && b2 == (x >> 8u32) as u8 && b3
        == x as u8 ==> ((b0 as u32) << 24u32) | ((b1 as u32) << 16u32) | ((b2 as u32) << 8u32) | (
    b3 as u32) == x) by (bit_vector);
}

/// Reading back the eight bytes of a number gives the number.
pub proof fn lemma_be64_read_written(x: u64, b: Seq<u8>, p: int)
    requires
        0 <= p,
        p + 8 <= b.len(),
        b.subrange(p, p + 8) == be64_bytes(x),
    ensures
        be64_at(b, p) == x,
{
    let s = b.subrange(p, p + 8);
    let (b0, b1, b2, b3) = (b[p], b[p + 1], b[p + 2], b[p + 3]);
    let (b4, b5, b6, b7) = (b[p + 4], b[p + 5], b[p + 6], b[p + 7]);
    assert(b0 == s[0] && b1 == s[1] && b2 == s[2] && b3 == s[3]);
    assert(b4 == s[4] && b5 == s[5] && b6 == s[6] && b7 == s[7]);
    assert(b0 == (x >> 56u64) as u8 && b1 == (x >> 48u64) as u8 && b2 == (x >> 40u64) as u8 && b3
        == (x >> 32u64) as u8 && b4 == (x >> 24u64) as u8 && b5 == (x >> 16u64) as u8 && b6 == (x
        >> 8u64) as u8 && b7 == x as u8 ==> ((b0 as u64) << 56u64) | ((b1 as u64) << 48u64) | ((
    b2 as u64) << 40u64) | ((b3 as u64) << 32u64) | ((b4 as u64) << 24u64) | ((b5 as u64)
        << 16u64) | ((b6 as u64) << 8u64) | (b7 as u64) == x) by (bit_vector);
}

} // verus!
