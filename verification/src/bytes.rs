//! Big-endian byte layouts shared by the readers, the writer and the
//! resource codecs.

use vstd::prelude::*;

verus! {

/// The two big-endian bytes of a 16-bit value.
pub open spec fn be16(v: u16) -> Seq<u8> {
    seq![(v / 256) as u8, (v % 256) as u8]
}

/// The four big-endian bytes of a 32-bit value.
pub open spec fn be32(v: u32) -> Seq<u8> {
    seq![(v / 16777216) as u8, ((v / 65536) % 256) as u8, ((v / 256) % 256) as u8, (v % 256) as u8]
}

/// Two's-complement bit pattern of a signed 16-bit value.
pub open spec fn i16_bits(v: i16) -> u16 {
    if v >= 0 { v as u16 } else { (v + 65536) as u16 }
}

/// Two's-complement bit pattern of a signed 32-bit value.
pub open spec fn i32_bits(v: i32) -> u32 {
    if v >= 0 { v as u32 } else { (v + 4294967296) as u32 }
}

/// Signed reading of a 16-bit pattern.
pub open spec fn u16_as_i16(v: u16) -> i16 {
    if v < 32768 { v as i16 } else { (v - 65536) as i16 }
}

/// Signed reading of a 32-bit pattern.
pub open spec fn u32_as_i32(v: u32) -> i32 {
    if v < 2147483648 { v as i32 } else { (v - 4294967296) as i32 }
}

/// The big-endian 16-bit value stored at `i` in `s`.
pub open spec fn read16(s: Seq<u8>, i: int) -> u16 {
    (s[i] * 256 + s[i + 1]) as u16
}

/// The big-endian 32-bit value stored at `i` in `s`.
pub open spec fn read32(s: Seq<u8>, i: int) -> u32 {
    (s[i] * 16777216 + s[i + 1] * 65536 + s[i + 2] * 256 + s[i + 3]) as u32
}

/// Values are stored most significant byte first: the first stored byte
/// of a 16-bit value is its high byte, and reading weighs the first byte
/// by 256; a 32-bit value's bytes weigh 2^24, 2^16, 2^8 and 1.  Signed
/// values are stored in two's complement.
pub proof fn law_big_endian(v: u16, w: u32, s: Seq<u8>, i: int, x: i32)
    requires
        0 <= i,
        i + 4 <= s.len(),
    ensures
        be16(v).len() == 2,
        be16(v)[0] * 256 + be16(v)[1] == v,
        be16(v)[0] == v / 256,
        be32(w).len() == 4,
        be32(w)[0] * 16777216 + be32(w)[1] * 65536 + be32(w)[2] * 256 + be32(w)[3] == w,
        be32(w)[0] == w / 16777216,
        read16(s, i) == s[i] * 256 + s[i + 1],
        read32(s, i) == s[i] * 16777216 + s[i + 1] * 65536 + s[i + 2] * 256 + s[i + 3],
        i32_bits(x) as int == if x >= 0 {
            x as int
        } else {
            x + 4294967296
        },
        u32_as_i32(i32_bits(x)) == x,
{
}

/// Concatenated big-endian encoding of a list of 16-bit values.
pub open spec fn be16_list(vals: Seq<u16>) -> Seq<u8>
    decreases vals.len(),
{
    if vals.len() == 0 {
        seq![]
    } else {
        be16_list(vals.drop_last()) + be16(vals.last())
    }
}

pub proof fn lemma_be16_roundtrip(v: u16)
    ensures
        be16(v).len() == 2,
        read16(be16(v), 0) == v,
{
}

pub proof fn lemma_i16_bits_roundtrip(v: i16)
    ensures
        u16_as_i16(i16_bits(v)) == v,
{
}

pub proof fn lemma_i32_bits_roundtrip(v: i32)
    ensures
        u32_as_i32(i32_bits(v)) == v,
{
}

pub proof fn lemma_be16_list_len(vals: Seq<u16>)
    ensures
        be16_list(vals).len() == 2 * vals.len(),
    decreases vals.len(),
{
    if vals.len() > 0 {
        lemma_be16_list_len(vals.drop_last());
    }
}

/// The 16-bit value read where its big-endian bytes stand.
pub proof fn lemma_read16_at(s: Seq<u8>, p: int, v: u16)
    requires
        0 <= p,
        p + 2 <= s.len(),
        s.subrange(p, p + 2) == be16(v),
    ensures
        read16(s, p) == v,
{
    assert(s[p] == s.subrange(p, p + 2)[0]);
    assert(s[p + 1] == s.subrange(p, p + 2)[1]);
}

/// The 32-bit value read where its big-endian bytes stand.
pub proof fn lemma_read32_at(s: Seq<u8>, p: int, v: u32)
    requires
        0 <= p,
        p + 4 <= s.len(),
        s.subrange(p, p + 4) == be32(v),
    ensures
        read32(s, p) == v,
{
    assert(s[p] == s.subrange(p, p + 4)[0]);
    assert(s[p + 1] == s.subrange(p, p + 4)[1]);
    assert(s[p + 2] == s.subrange(p, p + 4)[2]);
    assert(s[p + 3] == s.subrange(p, p + 4)[3]);
}

/// Decodes the big-endian 16-bit value made of `b0` and `b1`.
pub fn u16_from_be(b0: u8, b1: u8) -> (r: u16)
    ensures
        r == b0 * 256 + b1,
{
    (b0 as u16) * 256 + (b1 as u16)
}

/// Decodes the big-endian 32-bit value made of four bytes.
pub fn u32_from_be(b0: u8, b1: u8, b2: u8, b3: u8) -> (r: u32)
    ensures
        r == b0 * 16777216 + b1 * 65536 + b2 * 256 + b3,
{
    (b0 as u32) * 16777216 + (b1 as u32) * 65536 + (b2 as u32) * 256 + (b3 as u32)
}

/// Reinterprets a 16-bit pattern as a signed value.
pub fn i16_from_bits(v: u16) -> (r: i16)
    ensures
        r == u16_as_i16(v),
{
    if v < 32768 {
        v as i16
    } else {
        (v - 32768) as i16 + i16::MIN
    }
}

/// Reinterprets a 32-bit pattern as a signed value.
pub fn i32_from_bits(v: u32) -> (r: i32)
    ensures
        r == u32_as_i32(v),
{
    if v < 2147483648 {
        v as i32
    } else {
        (v - 2147483648) as i32 + i32::MIN
    }
}

/// The two's-complement pattern of a signed 16-bit value.
pub fn bits_from_i16(v: i16) -> (r: u16)
    ensures
        r == i16_bits(v),
{
    if v >= 0 {
        v as u16
    } else {
        ((v as i32) + 65536) as u16
    }
}

/// The two's-complement pattern of a signed 32-bit value.
pub fn bits_from_i32(v: i32) -> (r: u32)
    ensures
        r == i32_bits(v),
{
    if v >= 0 {
        v as u32
    } else {
        ((v as i64) + 4294967296) as u32
    }
}

/// Appends the big-endian bytes of a 16-bit value.
pub fn push_be16(out: &mut Vec<u8>, v: u16)
    ensures
        final(out)@ == old(out)@ + be16(v),
{
    out.push((v / 256) as u8);
    out.push((v % 256) as u8);
}

/// Appends the big-endian bytes of a 32-bit value.
pub fn push_be32(out: &mut Vec<u8>, v: u32)
    ensures
        final(out)@ == old(out)@ + be32(v),
{
    out.push((v / 16777216) as u8);
    out.push(((v / 65536) % 256) as u8);
    out.push(((v / 256) % 256) as u8);
    out.push((v % 256) as u8);
}

} // verus!
