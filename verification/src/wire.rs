//! Big-endian wire layout of the fixed-width integers.
//!
//! Every integer on the wire is written as big-endian bytes of its bit
//! width. The specifications here describe those byte sequences by plain
//! division and remainder, so that each width is the concatenation of the
//! two halves one size down.

use vstd::arithmetic::div_mod::lemma_fundamental_div_mod;
use vstd::arithmetic::div_mod::lemma_fundamental_div_mod_converse;
use vstd::prelude::*;

verus! {

/// The two big-endian bytes of a `u16`.
pub open spec fn be2(x: u16) -> Seq<u8> {
    seq![(x / 256) as u8, (x % 256) as u8]
}

/// The four big-endian bytes of a `u32`: high half first.
pub open spec fn be4(x: u32) -> Seq<u8> {
    be2((x / 0x10000) as u16) + be2((x % 0x10000) as u16)
}

/// The eight big-endian bytes of a `u64`: high half first.
pub open spec fn be8(x: u64) -> Seq<u8> {
    be4((x / 0x100000000) as u32) + be4((x % 0x100000000) as u32)
}

/// The big-endian bytes of a `u16`, as a vector.
pub fn be2_vec(x: u16) -> (r: Vec<u8>)
    ensures
        r@ == be2(x),
{
    let mut r: Vec<u8> = Vec::new();
    r.push((x / 256) as u8);
    r.push((x % 256) as u8);
    proof {
        assert(r@ =~= be2(x));
    }
    r
}

/// The big-endian bytes of a `u32`, as a vector.
pub fn be4_vec(x: u32) -> (r: Vec<u8>)
    ensures
        r@ == be4(x),
{
    let hi: u16 = (x / 0x10000) as u16;
    let lo: u16 = (x % 0x10000) as u16;
    let mut r = be2_vec(hi);
    let mut t = be2_vec(lo);
    r.append(&mut t);
    proof {
        assert(r@ =~= be4(x));
    }
    r
}

/// The big-endian bytes of a `u64`, as a vector.
pub fn be8_vec(x: u64) -> (r: Vec<u8>)
    ensures
        r@ == be8(x),
{
    let hi: u32 = (x / 0x100000000) as u32;
    let lo: u32 = (x % 0x100000000) as u32;
    let mut r = be4_vec(hi);
    let mut t = be4_vec(lo);
    r.append(&mut t);
    proof {
        assert(r@ =~= be8(x));
    }
    r
}

/// Recover a `u16` from its two big-endian bytes.
pub fn be2_decode(b: &Vec<u8>) -> (r: u16)
    requires
        b@.len() == 2,
    ensures
        b@ == be2(r),
{
    let r: u16 = (b[0] as u16) * 256 + (b[1] as u16);
    proof {
        lemma_fundamental_div_mod_converse(r as int, 256, b@[0] as int, b@[1] as int);
        assert(b@ =~= be2(r));
    }
    r
}

/// Recover a `u32` from its four big-endian bytes.
pub fn be4_decode(b: &Vec<u8>) -> (r: u32)
    requires
        b@.len() == 4,
    ensures
        b@ == be4(r),
{
    let mut hi_bytes: Vec<u8> = Vec::new();
    hi_bytes.push(b[0]);
    hi_bytes.push(b[1]);
    let mut lo_bytes: Vec<u8> = Vec::new();
    lo_bytes.push(b[2]);
    lo_bytes.push(b[3]);
    let hi = be2_decode(&hi_bytes);
    let lo = be2_decode(&lo_bytes);
    let r: u32 = (hi as u32) * 0x10000 + (lo as u32);
    proof {
        lemma_fundamental_div_mod_converse(r as int, 0x10000, hi as int, lo as int);
        assert(b@ =~= be4(r));
    }
    r
}

/// Recover a `u64` from its eight big-endian bytes.
pub fn be8_decode(b: &Vec<u8>) -> (r: u64)
    requires
        b@.len() == 8,
    ensures
        b@ == be8(r),
{
    let mut hi_bytes: Vec<u8> = Vec::new();
    hi_bytes.push(b[0]);
    hi_bytes.push(b[1]);
    hi_bytes.push(b[2]);
    hi_bytes.push(b[3]);
    let mut lo_bytes: Vec<u8> = Vec::new();
    lo_bytes.push(b[4]);
    lo_bytes.push(b[5]);
    lo_bytes.push(b[6]);
    lo_bytes.push(b[7]);
    let hi = be4_decode(&hi_bytes);
    let lo = be4_decode(&lo_bytes);
    let r: u64 = (hi as u64) * 0x100000000 + (lo as u64);
    proof {
        lemma_be4_bound(hi);
        lemma_be4_bound(lo);
        lemma_fundamental_div_mod_converse(r as int, 0x100000000, hi as int, lo as int);
        assert(b@ =~= be8(r));
    }
    r
}

/// The sixteen big-endian bytes of a `u128`: high half first.
pub open spec fn be16(x: u128) -> Seq<u8> {
    be8((x / 0x10000000000000000) as u64) + be8((x % 0x10000000000000000) as u64)
}

/// The big-endian bytes of a `u128`, as a vector.
pub fn be16_vec(x: u128) -> (r: Vec<u8>)
    ensures
        r@ == be16(x),
{
    let hi: u64 = (x / 0x10000000000000000) as u64;
    let lo: u64 = (x % 0x10000000000000000) as u64;
    let mut r = be8_vec(hi);
    let mut t = be8_vec(lo);
    r.append(&mut t);
    proof {
        assert(r@ =~= be16(x));
    }
    r
}

/// Recover a `u128` from its sixteen big-endian bytes.
pub fn be16_decode(b: &Vec<u8>) -> (r: u128)
    requires
        b@.len() == 16,
    ensures
        b@ == be16(r),
{
    let mut hi_bytes: Vec<u8> = Vec::new();
    let mut lo_bytes: Vec<u8> = Vec::new();
    let mut i: usize = 0;
    while i < 8
        invariant
            i <= 8,
            b@.len() == 16,
            hi_bytes@ == b@.take(i as int),
            lo_bytes@ == b@.subrange(8, 8 + i),
        decreases 8 - i,
    {
        hi_bytes.push(b[i]);
        lo_bytes.push(b[8 + i]);
        proof {
            assert(hi_bytes@ =~= b@.take(i + 1));
            assert(lo_bytes@ =~= b@.subrange(8, 8 + i + 1));
        }
        i = i + 1;
    }
    let hi = be8_decode(&hi_bytes);
    let lo = be8_decode(&lo_bytes);
    let r: u128 = (hi as u128) * 0x10000000000000000 + (lo as u128);
    proof {
        lemma_fundamental_div_mod_converse(r as int, 0x10000000000000000, hi as int, lo as int);
        assert(b@ =~= be16(r));
    }
    r
}

/// A `u128`'s big-endian bytes determine it.
pub proof fn lemma_be16_injective(x: u128, y: u128)
    requires
        be16(x) == be16(y),
    ensures
        x == y,
{
    assert(be8((x / 0x10000000000000000) as u64) =~= be16(x).take(8));
    assert(be8((x % 0x10000000000000000) as u64) =~= be16(x).skip(8));
    assert(be8((y / 0x10000000000000000) as u64) =~= be16(y).take(8));
    assert(be8((y % 0x10000000000000000) as u64) =~= be16(y).skip(8));
    lemma_be8_injective((x / 0x10000000000000000) as u64, (y / 0x10000000000000000) as u64);
    lemma_be8_injective((x % 0x10000000000000000) as u64, (y % 0x10000000000000000) as u64);
    lemma_fundamental_div_mod(x as int, 0x10000000000000000);
    lemma_fundamental_div_mod(y as int, 0x10000000000000000);
}

/// The unsigned byte pattern of a signed byte: its two's complement.
pub open spec fn u8_of_i8(m: i8) -> u8 {
    if m >= 0 {
        m as u8
    } else {
        (m + 0x100) as u8
    }
}

/// The signed byte a wire byte pattern stands for.
pub open spec fn i8_of_u8(x: u8) -> i8 {
    if x <= 0x7f {
        x as i8
    } else {
        (x - 0x100) as i8
    }
}

/// The unsigned pattern of a signed sixteen-bit value.
pub open spec fn u16_of_i16(m: i16) -> u16 {
    if m >= 0 {
        m as u16
    } else {
        (m + 0x10000) as u16
    }
}

/// The signed value a sixteen-bit wire pattern stands for.
pub open spec fn i16_of_u16(x: u16) -> i16 {
    if x <= 0x7fff {
        x as i16
    } else {
        (x - 0x10000) as i16
    }
}

/// The unsigned pattern of a signed thirty-two-bit value.
pub open spec fn u32_of_i32(m: i32) -> u32 {
    if m >= 0 {
        m as u32
    } else {
        (m + 0x100000000) as u32
    }
}

/// The signed value a thirty-two-bit wire pattern stands for.
pub open spec fn i32_of_u32(x: u32) -> i32 {
    if x <= 0x7fffffff {
        x as i32
    } else {
        (x - 0x100000000) as i32
    }
}

/// The unsigned pattern of a signed sixty-four-bit value.
pub open spec fn u64_of_i64(m: i64) -> u64 {
    if m >= 0 {
        m as u64
    } else {
        (m + 0x10000000000000000) as u64
    }
}

/// The signed value a sixty-four-bit wire pattern stands for.
pub open spec fn i64_of_u64(x: u64) -> i64 {
    if x <= 0x7fffffffffffffff {
        x as i64
    } else {
        (x - 0x10000000000000000) as i64
    }
}

/// The unsigned pattern of a signed one-hundred-twenty-eight-bit value.
pub open spec fn u128_of_i128(m: i128) -> u128 {
    if m >= 0 {
        m as u128
    } else {
        (m + 0x100000000000000000000000000000000) as u128
    }
}

/// The signed value a one-hundred-twenty-eight-bit wire pattern stands for.
pub open spec fn i128_of_u128(x: u128) -> i128 {
    if x <= 0x7fffffffffffffffffffffffffffffff {
        x as i128
    } else {
        (x - 0x100000000000000000000000000000000) as i128
    }
}

/// The two's complement pattern determines the signed value.
pub proof fn lemma_i8_wire_inverse(m: i8)
    ensures
        i8_of_u8(u8_of_i8(m)) == m,
{
}

/// The two's complement pattern determines the signed value.
pub proof fn lemma_i16_wire_inverse(m: i16)
    ensures
        i16_of_u16(u16_of_i16(m)) == m,
{
}

/// The two's complement pattern determines the signed value.
pub proof fn lemma_i32_wire_inverse(m: i32)
    ensures
        i32_of_u32(u32_of_i32(m)) == m,
{
}

/// The two's complement pattern determines the signed value.
pub proof fn lemma_i64_wire_inverse(m: i64)
    ensures
        i64_of_u64(u64_of_i64(m)) == m,
{
}

/// The two's complement pattern determines the signed value.
pub proof fn lemma_i128_wire_inverse(m: i128)
    ensures
        i128_of_u128(u128_of_i128(m)) == m,
{
}

/// Turn a signed byte into its wire pattern.
pub fn i8_to_wire(m: i8) -> (r: u8)
    ensures
        r == u8_of_i8(m),
{
    if m >= 0 {
        m as u8
    } else {
        ((m as i16) + 0x100) as u8
    }
}

/// Read a signed byte back from its wire pattern.
pub fn i8_from_wire(x: u8) -> (r: i8)
    ensures
        r == i8_of_u8(x),
{
    if x <= 0x7f {
        x as i8
    } else {
        ((x as i16) - 0x100) as i8
    }
}

/// Turn a signed sixteen-bit value into its wire pattern.
pub fn i16_to_wire(m: i16) -> (r: u16)
    ensures
        r == u16_of_i16(m),
{
    if m >= 0 {
        m as u16
    } else {
        ((m as i32) + 0x10000) as u16
    }
}

/// Read a signed sixteen-bit value back from its wire pattern.
pub fn i16_from_wire(x: u16) -> (r: i16)
    ensures
        r == i16_of_u16(x),
{
    if x <= 0x7fff {
        x as i16
    } else {
        ((x as i32) - 0x10000) as i16
    }
}

/// Turn a signed thirty-two-bit value into its wire pattern.
pub fn i32_to_wire(m: i32) -> (r: u32)
    ensures
        r == u32_of_i32(m),
{
    if m >= 0 {
        m as u32
    } else {
        ((m as i64) + 0x100000000) as u32
    }
}

/// Read a signed thirty-two-bit value back from its wire pattern.
pub fn i32_from_wire(x: u32) -> (r: i32)
    ensures
        r == i32_of_u32(x),
{
    if x <= 0x7fffffff {
        x as i32
    } else {
        ((x as i64) - 0x100000000) as i32
    }
}

/// Turn a signed sixty-four-bit value into its wire pattern.
pub fn i64_to_wire(m: i64) -> (r: u64)
    ensures
        r == u64_of_i64(m),
{
    if m >= 0 {
        m as u64
    } else {
        ((m as i128) + 0x10000000000000000) as u64
    }
}

/// Read a signed sixty-four-bit value back from its wire pattern.
pub fn i64_from_wire(x: u64) -> (r: i64)
    ensures
        r == i64_of_u64(x),
{
    if x <= 0x7fffffffffffffff {
        x as i64
    } else {
        ((x as i128) - 0x10000000000000000) as i64
    }
}

/// Turn a signed one-hundred-twenty-eight-bit value into its wire pattern.
/// No wider machine type exists, so the negative half is reached through
/// the complement of the magnitude.
pub fn i128_to_wire(m: i128) -> (r: u128)
    ensures
        r == u128_of_i128(m),
{
    if m >= 0 {
        m as u128
    } else {
        let magnitude = -(m + 1);
        u128::MAX - (magnitude as u128)
    }
}

/// Read a signed one-hundred-twenty-eight-bit value back from its wire
/// pattern.
pub fn i128_from_wire(x: u128) -> (r: i128)
    ensures
        r == i128_of_u128(x),
{
    if x <= 0x7fffffffffffffffffffffffffffffff {
        x as i128
    } else {
        let distance = u128::MAX - x;
        -(distance as i128) - 1
    }
}

/// A `u16`'s big-endian bytes determine it.
pub proof fn lemma_be2_injective(x: u16, y: u16)
    requires
        be2(x) == be2(y),
    ensures
        x == y,
{
    assert(be2(x)[0] == be2(y)[0]);
    assert(be2(x)[1] == be2(y)[1]);
    lemma_fundamental_div_mod(x as int, 256);
    lemma_fundamental_div_mod(y as int, 256);
}

/// Helper bound: a value recovered from two big-endian bytes fits below
/// the half boundary used by the next width up.
proof fn lemma_be4_bound(x: u32)
    ensures
        x < 0x100000000,
{
}

/// A `u32`'s big-endian bytes determine it.
pub proof fn lemma_be4_injective(x: u32, y: u32)
    requires
        be4(x) == be4(y),
    ensures
        x == y,
{
    assert(be2((x / 0x10000) as u16) =~= be4(x).take(2));
    assert(be2((x % 0x10000) as u16) =~= be4(x).skip(2));
    assert(be2((y / 0x10000) as u16) =~= be4(y).take(2));
    assert(be2((y % 0x10000) as u16) =~= be4(y).skip(2));
    lemma_be2_injective((x / 0x10000) as u16, (y / 0x10000) as u16);
    lemma_be2_injective((x % 0x10000) as u16, (y % 0x10000) as u16);
    lemma_fundamental_div_mod(x as int, 0x10000);
    lemma_fundamental_div_mod(y as int, 0x10000);
}

/// A `u64`'s big-endian bytes determine it.
pub proof fn lemma_be8_injective(x: u64, y: u64)
    requires
        be8(x) == be8(y),
    ensures
        x == y,
{
    assert(be4((x / 0x100000000) as u32) =~= be8(x).take(4));
    assert(be4((x % 0x100000000) as u32) =~= be8(x).skip(4));
    assert(be4((y / 0x100000000) as u32) =~= be8(y).take(4));
    assert(be4((y % 0x100000000) as u32) =~= be8(y).skip(4));
    lemma_be4_injective((x / 0x100000000) as u32, (y / 0x100000000) as u32);
    lemma_be4_injective((x % 0x100000000) as u32, (y % 0x100000000) as u32);
    lemma_fundamental_div_mod(x as int, 0x100000000);
    lemma_fundamental_div_mod(y as int, 0x100000000);
}

} // verus!
