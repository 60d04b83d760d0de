//! Little-endian decoding of values read from a process's memory.

use vstd::prelude::*;

verus! {

/// The unsigned value of the little-endian bytes `b`.
pub open spec fn spec_le(b: Seq<u8>) -> nat
    decreases b.len(),
{
    if b.len() == 0 {
        0
    } else {
        b[0] as nat + 256 * spec_le(b.drop_first())
    }
}

/// The two's-complement reading of the unsigned `v` on `bits` bits.
pub open spec fn spec_signed(v: nat, bits: nat) -> int {
    if v >= vstd::arithmetic::power2::pow2((bits - 1) as nat) {
        v - vstd::arithmetic::power2::pow2(bits)
    } else {
        v as int
    }
}

proof fn lemma_le_2(b: Seq<u8>)
    requires
        b.len() >= 2,
    ensures
        spec_le(b.take(2)) == b[0] + 256 * b[1],
{
    reveal_with_fuel(spec_le, 3);
    assert(b.take(2).drop_first() =~= seq![b[1]]);
    assert(seq![b[1]].drop_first() =~= Seq::<u8>::empty());
}

proof fn lemma_le_4(b: Seq<u8>)
    requires
        b.len() >= 4,
    ensures
        spec_le(b.take(4)) == b[0] + 256 * (b[1] + 256 * (b[2] + 256 * b[3] as int)),
{
    reveal_with_fuel(spec_le, 5);
    let t = b.take(4);
    assert(t.drop_first() =~= seq![b[1], b[2], b[3]]);
    assert(seq![b[1], b[2], b[3]].drop_first() =~= seq![b[2], b[3]]);
    assert(seq![b[2], b[3]].drop_first() =~= seq![b[3]]);
    assert(seq![b[3]].drop_first() =~= Seq::<u8>::empty());
}

proof fn lemma_le_8(b: Seq<u8>)
    requires
        b.len() >= 8,
    ensures
        spec_le(b.take(8)) == spec_le(b.take(4)) + 0x1_0000_0000 * spec_le(b.skip(4).take(4)),
{
    let lo = b.take(4);
    let hi = b.skip(4).take(4);
    assert(b.take(8) =~= lo + hi);
    lemma_le_concat(lo, hi);
    lemma_le_4(b);
    lemma_le_4(b.skip(4));
}

proof fn lemma_le_concat(a: Seq<u8>, c: Seq<u8>)
    requires
        a.len() == 4,
    ensures
        spec_le(a + c) == spec_le(a) + 0x1_0000_0000 * spec_le(c),
{
    reveal_with_fuel(spec_le, 5);
    let s = a + c;
    assert(s.drop_first() =~= seq![a[1], a[2], a[3]] + c);
    assert((seq![a[1], a[2], a[3]] + c).drop_first() =~= seq![a[2], a[3]] + c);
    assert((seq![a[2], a[3]] + c).drop_first() =~= seq![a[3]] + c);
    assert((seq![a[3]] + c).drop_first() =~= c);
    assert(a.drop_first() =~= seq![a[1], a[2], a[3]]);
    assert(seq![a[1], a[2], a[3]].drop_first() =~= seq![a[2], a[3]]);
    assert(seq![a[2], a[3]].drop_first() =~= seq![a[3]]);
    assert(seq![a[3]].drop_first() =~= Seq::<u8>::empty());
}

/// The first four bytes as a little-endian `u32`.
pub fn le_u32(bytes: &[u8]) -> (r: u32)
    requires
        bytes@.len() >= 4,
    ensures
        r == spec_le(bytes@.take(4)),
{
    proof {
        lemma_le_4(bytes@);
    }
    let v: u64 = bytes[0] as u64 + 256 * (bytes[1] as u64 + 256 * (bytes[2] as u64 + 256 * bytes[3] as u64));
    v as u32
}

/// A 32-bit pointer: the first four bytes as a little-endian unsigned value.
pub fn decode_ptr32(bytes: &[u8]) -> (r: usize)
    requires
        bytes@.len() >= 4,
    ensures
        r == spec_le(bytes@.take(4)),
{
    le_u32(bytes) as usize
}

/// The first four bytes as a little-endian `i32`.
pub fn decode_i32(bytes: &[u8]) -> (r: i32)
    requires
        bytes@.len() >= 4,
    ensures
        r == spec_signed(spec_le(bytes@.take(4)), 32),
{
    let v = le_u32(bytes);
    proof {
        vstd::arithmetic::power2::lemma2_to64();
    }
    let r = v as i32;
    assert((v as i32) == if v >= 0x8000_0000 { v - 0x1_0000_0000 } else { v as int }) by (bit_vector);
    r
}

/// The same four bytes read as a pointer and as an `i32` agree: the pointer
/// fits in 32 bits, and the `i32` is that pointer's bits taken as a signed
/// number (`ptr as u32 as i32`).
pub proof fn lemma_ptr32_i32_agree(b: Seq<u8>)
    requires
        b.len() >= 4,
    ensures
        spec_le(b.take(4)) <= u32::MAX,
        spec_signed(spec_le(b.take(4)), 32) == ((spec_le(b.take(4)) as u32) as i32),
{
    lemma_le_4(b);
    vstd::arithmetic::power2::lemma2_to64();
    let v: u32 = spec_le(b.take(4)) as u32;
    assert(v == spec_le(b.take(4)));
    assert((v as i32) == if v >= 0x8000_0000 { v - 0x1_0000_0000 } else { v as int }) by (bit_vector);
}

/// The first two bytes as a little-endian `u16`.
pub fn decode_u16(bytes: &[u8]) -> (r: u16)
    requires
        bytes@.len() >= 2,
    ensures
        r == spec_le(bytes@.take(2)),
{
    proof {
        lemma_le_2(bytes@);
    }
    let v: u32 = bytes[0] as u32 + 256 * bytes[1] as u32;
    v as u16
}

/// The first two bytes as a little-endian `i16`.
pub fn decode_i16(bytes: &[u8]) -> (r: i16)
    requires
        bytes@.len() >= 2,
    ensures
        r == spec_signed(spec_le(bytes@.take(2)), 16),
{
    let v = decode_u16(bytes);
    proof {
        vstd::arithmetic::power2::lemma2_to64();
    }
    let r = v as i16;
    assert((v as i16) == if v >= 0x8000 { v - 0x1_0000 } else { v as int }) by (bit_vector);
    r
}

/// The first byte as an `i8`.
pub fn decode_i8(bytes: &[u8]) -> (r: i8)
    requires
        bytes@.len() >= 1,
    ensures
        r == spec_signed(bytes@[0] as nat, 8),
{
    let v = bytes[0];
    proof {
        vstd::arithmetic::power2::lemma2_to64();
    }
    let r = v as i8;
    assert((v as i8) == if v >= 0x80 { v - 0x100 } else { v as int }) by (bit_vector);
    r
}

/// The first eight bytes as a little-endian `i64`.
pub fn decode_i64(bytes: &[u8]) -> (r: i64)
    requires
        bytes@.len() >= 8,
    ensures
        r == spec_signed(spec_le(bytes@.take(8)), 64),
{
    let lo = le_u32(bytes);
    let hi_bytes = slice_skip4(bytes);
    let hi = le_u32(hi_bytes);
    proof {
        lemma_le_8(bytes@);
        vstd::arithmetic::power2::lemma2_to64();
    }
    let v: u64 = lo as u64 + 0x1_0000_0000 * hi as u64;
    assert(v == spec_le(bytes@.take(8)));
    proof {
        vstd::arithmetic::power2::lemma2_to64_rest();
    }
    assert(vstd::arithmetic::power2::pow2(63) == 0x8000_0000_0000_0000);
    assert(vstd::arithmetic::power2::pow2(64) == 0x1_0000_0000_0000_0000);
    let r = v as i64;
    assert((v as i64) == if v >= 0x8000_0000_0000_0000 { v - 0x1_0000_0000_0000_0000 } else { v as int })
        by (bit_vector);
    r
}

fn slice_skip4(bytes: &[u8]) -> (r: &[u8])
    requires
        bytes@.len() >= 4,
    ensures
        r@ == bytes@.skip(4),
{
    vstd::slice::slice_subrange(bytes, 4, bytes.len())
}

} // verus!
