//! Fixed-width little-endian integers, the only scalar encoding of the format.

use vstd::prelude::*;
use vstd::utf8::{decode_utf8, valid_utf8};

verus! {

/// The four bytes of `x`, least significant first.
#[verifier::opaque]
pub open spec fn le_u32(x: u32) -> Seq<u8> {
    seq![
        (x % 256) as u8,
        (x / 256 % 256) as u8,
        (x / 65536 % 256) as u8,
        (x / 16777216 % 256) as u8,
    ]
}

/// The number whose little-endian bytes are the first four of `s`.
#[verifier::opaque]
pub open spec fn from_le_u32(s: Seq<u8>) -> u32
    recommends
        s.len() >= 4,
{
    (s[0] as int + 256 * (s[1] as int) + 65536 * (s[2] as int) + 16777216 * (s[3] as int)) as u32
}

/// The eight bytes of `x`, least significant first.
#[verifier::opaque]
pub open spec fn le_u64(x: u64) -> Seq<u8> {
    le_u32((x % 0x1_0000_0000) as u32) + le_u32((x / 0x1_0000_0000) as u32)
}

/// The number whose little-endian bytes are the first eight of `s`.
#[verifier::opaque]
pub open spec fn from_le_u64(s: Seq<u8>) -> u64
    recommends
        s.len() >= 8,
{
    (from_le_u32(s.subrange(0, 4)) as int + 0x1_0000_0000 * (from_le_u32(s.subrange(4, 8)) as int)) as u64
}

/// The two's complement bit pattern of `v`, read as an unsigned number.
pub open spec fn i32_bits(v: i32) -> u32 {
    if v >= 0 {
        v as u32
    } else {
        (v as int + 0x1_0000_0000) as u32
    }
}

/// The signed number whose two's complement bit pattern is `u`.
pub open spec fn bits_i32(u: u32) -> i32 {
    if u < 0x8000_0000 {
        u as i32
    } else {
        (u as int - 0x1_0000_0000) as i32
    }
}

/// Plain encoding of one value: four bytes, little-endian, two's complement.
#[verifier::opaque]
pub open spec fn le_i32(v: i32) -> Seq<u8> {
    le_u32(i32_bits(v))
}

/// The value whose plain encoding is the first four bytes of `s`.
#[verifier::opaque]
pub open spec fn from_le_i32(s: Seq<u8>) -> i32
    recommends
        s.len() >= 4,
{
    bits_i32(from_le_u32(s))
}

/// Decoding undoes encoding, for 32-bit unsigned numbers.
pub proof fn lemma_le_u32_decode(x: u32)
    ensures
        le_u32(x).len() == 4,
        from_le_u32(le_u32(x)) == x,
{
    reveal(le_u32);
    reveal(from_le_u32);
}

/// Encoding undoes decoding: four bytes are the encoding of what they decode to.
pub proof fn lemma_le_u32_encode(s: Seq<u8>)
    requires
        s.len() == 4,
    ensures
        le_u32(from_le_u32(s)) == s,
{
    reveal(le_u32);
    reveal(from_le_u32);
    assert(le_u32(from_le_u32(s)) =~= s);
}

/// Decoding undoes encoding, for 64-bit unsigned numbers.
pub proof fn lemma_le_u64_decode(x: u64)
    ensures
        le_u64(x).len() == 8,
        from_le_u64(le_u64(x)) == x,
{
    reveal(le_u64);
    reveal(from_le_u64);
    let lo = (x % 0x1_0000_0000) as u32;
    let hi = (x / 0x1_0000_0000) as u32;
    lemma_le_u32_decode(lo);
    lemma_le_u32_decode(hi);
    assert(le_u64(x).subrange(0, 4) =~= le_u32(lo));
    assert(le_u64(x).subrange(4, 8) =~= le_u32(hi));
}

/// Encoding undoes decoding: eight bytes are the encoding of what they decode to.
pub proof fn lemma_le_u64_encode(s: Seq<u8>)
    requires
        s.len() == 8,
    ensures
        le_u64(from_le_u64(s)) == s,
{
    reveal(le_u64);
    reveal(from_le_u64);
    let lo = from_le_u32(s.subrange(0, 4));
    let hi = from_le_u32(s.subrange(4, 8));
    lemma_le_u32_encode(s.subrange(0, 4));
    lemma_le_u32_encode(s.subrange(4, 8));
    let x = from_le_u64(s);
    assert((x % 0x1_0000_0000) as u32 == lo);
    assert((x / 0x1_0000_0000) as u32 == hi);
    assert(le_u64(x) =~= s.subrange(0, 4) + s.subrange(4, 8));
    assert(s.subrange(0, 4) + s.subrange(4, 8) =~= s);
}

/// Decoding undoes encoding, for values.
pub proof fn lemma_le_i32_decode(v: i32)
    ensures
        le_i32(v).len() == 4,
        from_le_i32(le_i32(v)) == v,
{
    reveal(le_i32);
    reveal(from_le_i32);
    lemma_le_u32_decode(i32_bits(v));
}

/// Encoding undoes decoding: four bytes are the plain encoding of the value
/// that they decode to.
pub proof fn lemma_le_i32_encode(s: Seq<u8>)
    requires
        s.len() == 4,
    ensures
        le_i32(from_le_i32(s)) == s,
{
    reveal(le_i32);
    reveal(from_le_i32);
    lemma_le_u32_encode(s);
}

/// Appends the little-endian bytes of `x` to `buf`.
pub fn put_u32(buf: &mut Vec<u8>, x: u32)
    ensures
        final(buf)@ == old(buf)@ + le_u32(x),
{
    proof {
        reveal(le_u32);
        reveal(from_le_u32);
    }
    buf.push((x % 256) as u8);
    buf.push((x / 256 % 256) as u8);
    buf.push((x / 65536 % 256) as u8);
    buf.push((x / 16777216 % 256) as u8);
    assert(buf@ =~= old(buf)@ + le_u32(x));
}

/// Appends the little-endian bytes of `x` to `buf`.
pub fn put_u64(buf: &mut Vec<u8>, x: u64)
    ensures
        final(buf)@ == old(buf)@ + le_u64(x),
{
    proof {
        reveal(le_u64);
        reveal(from_le_u64);
    }
    let ghost start = buf@;
    put_u32(buf, (x % 0x1_0000_0000) as u32);
    put_u32(buf, (x / 0x1_0000_0000) as u32);
    assert(buf@ =~= start + le_u64(x));
}

/// Appends the plain encoding of `v` to `buf`.
pub fn put_i32(buf: &mut Vec<u8>, v: i32)
    ensures
        final(buf)@ == old(buf)@ + le_i32(v),
{
    proof {
        reveal(le_i32);
        reveal(from_le_i32);
    }
    let bits: u32 = if v >= 0 {
        v as u32
    } else {
        (v as i64 + 0x1_0000_0000) as u32
    };
    put_u32(buf, bits);
}

/// Reads the little-endian number that starts at `pos`.
pub fn get_u32(bytes: &[u8], pos: usize) -> (x: u32)
    requires
        pos + 4 <= bytes@.len(),
    ensures
        x == from_le_u32(bytes@.subrange(pos as int, pos + 4)),
{
    proof {
        reveal(le_u32);
        reveal(from_le_u32);
    }
    let b0: u32 = bytes[pos] as u32;
    let b1: u32 = bytes[pos + 1] as u32;
    let b2: u32 = bytes[pos + 2] as u32;
    let b3: u32 = bytes[pos + 3] as u32;
    b0 + 256 * b1 + 65536 * b2 + 16777216 * b3
}

/// Reads the little-endian number that starts at `pos`.
pub fn get_u64(bytes: &[u8], pos: usize) -> (x: u64)
    requires
        pos + 8 <= bytes@.len(),
    ensures
        x == from_le_u64(bytes@.subrange(pos as int, pos + 8)),
{
    proof {
        reveal(le_u64);
        reveal(from_le_u64);
    }
    let len: usize = bytes.len();
    assert(pos + 8 <= len);
    let lo: u64 = get_u32(bytes, pos) as u64;
    let hi: u64 = get_u32(bytes, pos + 4) as u64;
    proof {
        let s = bytes@.subrange(pos as int, pos + 8);
        assert(s.subrange(0, 4) =~= bytes@.subrange(pos as int, pos + 4));
        assert(s.subrange(4, 8) =~= bytes@.subrange(pos + 4, pos + 8));
    }
    lo + 0x1_0000_0000 * hi
}

/// Reads the plain-encoded value that starts at `pos`.
pub fn get_i32(bytes: &[u8], pos: usize) -> (v: i32)
    requires
        pos + 4 <= bytes@.len(),
    ensures
        v == from_le_i32(bytes@.subrange(pos as int, pos + 4)),
{
    proof {
        reveal(le_i32);
        reveal(from_le_i32);
    }
    let bits: u32 = get_u32(bytes, pos);
    if bits < 0x8000_0000 {
        bits as i32
    } else {
        (bits as i64 - 0x1_0000_0000) as i32
    }
}

/// The text that `bytes` spell in UTF-8, if they spell one.
///
/// Calls `String::from_utf8` of the standard library, which Verus does not
/// read. The contract is what its documentation says: it fails exactly when
/// the bytes are not valid UTF-8, and otherwise gives the string that has
/// these bytes.
#[verifier::external_body]
pub(crate) fn string_from_utf8(bytes: Vec<u8>) -> (r: Option<String>)
    ensures
        r.is_some() == valid_utf8(bytes@),
        r.is_some() ==> r.unwrap()@ == decode_utf8(bytes@),
{
    String::from_utf8(bytes).ok()
}

} // verus!
