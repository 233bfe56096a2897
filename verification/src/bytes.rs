//! Fixed-width integers as bytes.

use vstd::prelude::*;

verus! {

/// The two bytes of `x`, low byte first.
pub open spec fn le16(x: u16) -> Seq<u8> {
    seq![(x % 256) as u8, (x / 256) as u8]
}

/// The two bytes of `x`, high byte first.
pub open spec fn be16(x: u16) -> Seq<u8> {
    seq![(x / 256) as u8, (x % 256) as u8]
}

/// The four bytes of `x`, high byte first.
pub open spec fn be32(x: u32) -> Seq<u8> {
    seq![
        (x / 16777216) as u8,
        ((x / 65536) % 256) as u8,
        ((x / 256) % 256) as u8,
        (x % 256) as u8,
    ]
}

/// The number whose bits, read without a sign, are those of `v`.
pub open spec fn unsigned_bits(v: i32) -> u32 {
    if v < 0 {
        (v + 4294967296) as u32
    } else {
        v as u32
    }
}

/// The four bytes of `v` in two's complement, low byte first.
pub open spec fn le32_signed(v: i32) -> Seq<u8> {
    be32(unsigned_bits(v)).reverse()
}

/// The number that two bytes stand for, low byte first.
pub open spec fn from_le16(s: Seq<u8>) -> u16 {
    (s[0] + s[1] * 256) as u16
}

/// The number that two bytes stand for, high byte first.
pub open spec fn from_be16(s: Seq<u8>) -> u16 {
    (s[0] * 256 + s[1]) as u16
}

/// The number that four bytes stand for, high byte first.
pub open spec fn from_be32(s: Seq<u8>) -> u32 {
    (s[0] * 16777216 + s[1] * 65536 + s[2] * 256 + s[3]) as u32
}

/// The signed number that four bytes stand for in two's complement, low byte
/// first.
pub open spec fn from_le32_signed(s: Seq<u8>) -> i32 {
    let u = from_be32(s.reverse());
    if u >= 2147483648 {
        (u - 4294967296) as i32
    } else {
        u as i32
    }
}

/// The low 16 bits of a length.
pub open spec fn low16(n: nat) -> u16 {
    (n % 65536) as u16
}

/// The low 32 bits of a length.
pub open spec fn low32(n: nat) -> u32 {
    (n % 4294967296) as u32
}

/// The two bytes of a number, low byte first, stand for it.
pub proof fn lemma_le16(x: u16)
    ensures
        le16(x).len() == 2,
        from_le16(le16(x)) == x,
{
}

/// The two bytes of a number, high byte first, stand for it.
pub proof fn lemma_be16(x: u16)
    ensures
        be16(x).len() == 2,
        from_be16(be16(x)) == x,
{
}

/// The four bytes of a number stand for it.
pub proof fn lemma_be32(x: u32)
    ensures
        be32(x).len() == 4,
        from_be32(be32(x)) == x,
{
    let a: int = x as int / 16777216;
    let b: int = (x as int / 65536) % 256;
    let c: int = (x as int / 256) % 256;
    let d: int = x as int % 256;
    assert(a * 16777216 + b * 65536 + c * 256 + d == x);
}

/// Four bytes are the bytes of the number that they stand for.
pub proof fn lemma_from_be32(s: Seq<u8>)
    requires
        s.len() == 4,
    ensures
        be32(from_be32(s)) == s,
{
    let v: int = s[0] * 16777216 + s[1] * 65536 + s[2] * 256 + s[3];
    assert(0 <= v <= u32::MAX);
    assert(v / 16777216 == s[0]);
    assert((v / 65536) % 256 == s[1]);
    assert((v / 256) % 256 == s[2]);
    assert(v % 256 == s[3]);
    assert(be32(from_be32(s)) =~= s);
}

/// Two bytes are the bytes of the number that they stand for, low byte first.
pub proof fn lemma_from_le16(s: Seq<u8>)
    requires
        s.len() == 2,
    ensures
        le16(from_le16(s)) == s,
{
    assert(le16(from_le16(s)) =~= s);
}

/// Two bytes are the bytes of the number that they stand for, high byte first.
pub proof fn lemma_from_be16(s: Seq<u8>)
    requires
        s.len() == 2,
    ensures
        be16(from_be16(s)) == s,
{
    assert(be16(from_be16(s)) =~= s);
}

/// Four bytes are the bytes of the signed number that they stand for.
pub proof fn lemma_from_le32_signed(s: Seq<u8>)
    requires
        s.len() == 4,
    ensures
        le32_signed(from_le32_signed(s)) == s,
{
    lemma_from_be32(s.reverse());
    assert(unsigned_bits(from_le32_signed(s)) == from_be32(s.reverse()));
    assert(le32_signed(from_le32_signed(s)) =~= s);
}

/// The four bytes of a signed number stand for it.
pub proof fn lemma_le32_signed(v: i32)
    ensures
        le32_signed(v).len() == 4,
        from_le32_signed(le32_signed(v)) == v,
{
    let u = unsigned_bits(v);
    lemma_be32(u);
    assert(be32(u).reverse().reverse() =~= be32(u));
}

/// Appends the two bytes of `x`, low byte first.
pub fn push_le16(out: &mut Vec<u8>, x: u16)
    ensures
        final(out)@ == old(out)@ + le16(x),
{
    out.push((x % 256) as u8);
    out.push((x / 256) as u8);
    assert(out@ =~= old(out)@ + le16(x));
}

/// Appends the two bytes of `x`, high byte first.
pub fn push_be16(out: &mut Vec<u8>, x: u16)
    ensures
        final(out)@ == old(out)@ + be16(x),
{
    out.push((x / 256) as u8);
    out.push((x % 256) as u8);
    assert(out@ =~= old(out)@ + be16(x));
}

/// Appends the four bytes of `x`, high byte first.
pub fn push_be32(out: &mut Vec<u8>, x: u32)
    ensures
        final(out)@ == old(out)@ + be32(x),
{
    out.push((x / 16777216) as u8);
    out.push(((x / 65536) % 256) as u8);
    out.push(((x / 256) % 256) as u8);
    out.push((x % 256) as u8);
    assert(out@ =~= old(out)@ + be32(x));
}

/// Appends the four bytes of `v` in two's complement, low byte first.
pub fn push_le32_signed(out: &mut Vec<u8>, v: i32)
    ensures
        final(out)@ == old(out)@ + le32_signed(v),
{
    let u: u32 = if v < 0 {
        (v as i64 + 4294967296) as u32
    } else {
        v as u32
    };
    out.push((u % 256) as u8);
    out.push(((u / 256) % 256) as u8);
    out.push(((u / 65536) % 256) as u8);
    out.push((u / 16777216) as u8);
    assert(out@ =~= old(out)@ + le32_signed(v));
}

/// The number in two bytes, low byte first.
pub fn read_le16(a: u8, b: u8) -> (r: u16)
    ensures
        r == from_le16(seq![a, b]),
{
    a as u16 + b as u16 * 256
}

/// The number in two bytes, high byte first.
pub fn read_be16(a: u8, b: u8) -> (r: u16)
    ensures
        r == from_be16(seq![a, b]),
{
    a as u16 * 256 + b as u16
}

/// The number in four bytes, high byte first.
pub fn read_be32(a: u8, b: u8, c: u8, d: u8) -> (r: u32)
    ensures
        r == from_be32(seq![a, b, c, d]),
{
    a as u32 * 16777216 + b as u32 * 65536 + c as u32 * 256 + d as u32
}

/// The signed number in four bytes in two's complement, low byte first.
pub fn read_le32_signed(a: u8, b: u8, c: u8, d: u8) -> (r: i32)
    ensures
        r == from_le32_signed(seq![a, b, c, d]),
{
    assert(seq![a, b, c, d].reverse() =~= seq![d, c, b, a]);
    let u: u32 = read_be32(d, c, b, a);
    if u >= 2147483648 {
        (u as i64 - 4294967296) as i32
    } else {
        u as i32
    }
}

/// Written with the high byte first, a number is the sum of its bytes, each with
/// the weight of its place.
pub proof fn law_high_byte_first(x: u32, y: u16)
    ensures
        be32(x).len() == 4,
        x == 16777216 * be32(x)[0] + 65536 * be32(x)[1] + 256 * be32(x)[2] + be32(x)[3],
        be16(y).len() == 2,
        y == 256 * be16(y)[0] + be16(y)[1],
{
    lemma_be32(x);
}

/// Lengths that are too great for their place keep their rest.
pub proof fn law_low_bits_of_a_length(n: nat)
    ensures
        n < 65536 ==> low16(n) == n,
        low16(n + 65536) == low16(n),
        n < 4294967296 ==> low32(n) == n,
        low32(n + 4294967296) == low32(n),
{
}

} // verus!
