//! Fixed-width integers as they lie in a byte string.
//!
//! Each reader has a spec function giving the integer that the bytes at an
//! offset denote; the executable readers compute exactly that value.
use vstd::prelude::*;

verus! {

/// 2^64, the modulus of two's complement on 64 bits.
pub open spec fn two_pow_64() -> int {
    0x1_0000_0000_0000_0000
}

/// The unsigned value of `n` bytes at `off`, most significant byte first.
pub open spec fn be_value(b: Seq<u8>, off: int, n: nat) -> int
    decreases n,
{
    if n == 0 {
        0
    } else {
        256 * be_value(b, off, (n - 1) as nat) + b[off + n - 1] as int
    }
}

/// The unsigned value of `n` bytes at `off`, least significant byte first.
pub open spec fn le_value(b: Seq<u8>, off: int, n: nat) -> int
    decreases n,
{
    if n == 0 {
        0
    } else {
        b[off] as int + 256 * le_value(b, off + 1, (n - 1) as nat)
    }
}

/// The signed 64-bit integer whose two's complement pattern is `v`.
pub open spec fn as_signed_64(v: int) -> int {
    if v >= 0x8000_0000_0000_0000 {
        v - two_pow_64()
    } else {
        v
    }
}

/// The two's complement pattern of the signed 64-bit integer `v`.
pub open spec fn as_unsigned_64(v: int) -> int {
    if v < 0 {
        v + two_pow_64()
    } else {
        v
    }
}

/// An `n`-byte value is below 256^n.
pub proof fn lemma_be_value_bounds(b: Seq<u8>, off: int)
    ensures
        0 <= be_value(b, off, 2) < 0x1_0000,
        0 <= be_value(b, off, 4) < 0x1_0000_0000,
        0 <= be_value(b, off, 8) < 0x1_0000_0000_0000_0000,
{
    reveal_with_fuel(be_value, 9);
}

/// An `n`-byte value is below 256^n.
pub proof fn lemma_le_value_bounds(b: Seq<u8>, off: int)
    ensures
        0 <= le_value(b, off, 2) < 0x1_0000,
        0 <= le_value(b, off, 4) < 0x1_0000_0000,
        0 <= le_value(b, off, 8) < 0x1_0000_0000_0000_0000,
{
    reveal_with_fuel(le_value, 9);
}

/// Reads a big-endian `u16` at `off`.
pub fn be_u16_at(b: &[u8], off: usize) -> (r: u16)
    requires
        off + 2 <= b.len(),
    ensures
        r == be_value(b@, off as int, 2),
{
    proof {
        reveal_with_fuel(be_value, 3);
    }
    let hi: u16 = b[off] as u16;
    let lo: u16 = b[off + 1] as u16;
    hi * 256 + lo
}

/// Reads a big-endian `u32` at `off`.
pub fn be_u32_at(b: &[u8], off: usize) -> (r: u32)
    requires
        off + 4 <= b.len(),
    ensures
        r == be_value(b@, off as int, 4),
{
    proof {
        reveal_with_fuel(be_value, 5);
    }
    let b0: u32 = b[off] as u32;
    let b1: u32 = b[off + 1] as u32;
    let b2: u32 = b[off + 2] as u32;
    let b3: u32 = b[off + 3] as u32;
    ((b0 * 256 + b1) * 256 + b2) * 256 + b3
}

/// Reads a big-endian `u64` at `off`.
pub fn be_u64_at(b: &[u8], off: usize) -> (r: u64)
    requires
        off + 8 <= b.len(),
    ensures
        r == be_value(b@, off as int, 8),
{
    proof {
        reveal_with_fuel(be_value, 9);
    }
    let hi: u64 = be_u32_at(b, off) as u64;
    let b4: u64 = b[off + 4] as u64;
    let b5: u64 = b[off + 5] as u64;
    let b6: u64 = b[off + 6] as u64;
    let b7: u64 = b[off + 7] as u64;
    proof {
        reveal_with_fuel(be_value, 9);
        assert(hi == be_value(b@, off as int, 4));
    }
    (((hi * 256 + b4) * 256 + b5) * 256 + b6) * 256 + b7
}

/// Reads a little-endian `u16` at `off`.
pub fn le_u16_at(b: &[u8], off: usize) -> (r: u16)
    requires
        off + 2 <= b.len(),
    ensures
        r == le_value(b@, off as int, 2),
{
    proof {
        reveal_with_fuel(le_value, 3);
    }
    let lo: u16 = b[off] as u16;
    let hi: u16 = b[off + 1] as u16;
    hi * 256 + lo
}

/// Reads a little-endian `u32` at `off`.
pub fn le_u32_at(b: &[u8], off: usize) -> (r: u32)
    requires
        off + 4 <= b.len(),
    ensures
        r == le_value(b@, off as int, 4),
{
    proof {
        reveal_with_fuel(le_value, 5);
    }
    let b0: u32 = b[off] as u32;
    let b1: u32 = b[off + 1] as u32;
    let b2: u32 = b[off + 2] as u32;
    let b3: u32 = b[off + 3] as u32;
    ((b3 * 256 + b2) * 256 + b1) * 256 + b0
}

/// Reads a little-endian `u64` at `off`.
pub fn le_u64_at(b: &[u8], off: usize) -> (r: u64)
    requires
        off + 8 <= b.len(),
    ensures
        r == le_value(b@, off as int, 8),
{
    let lo: u64 = le_u32_at(b, off) as u64;
    let hi: u64 = le_u32_at(b, off + 4) as u64;
    proof {
        reveal_with_fuel(le_value, 9);
        assert(lo == le_value(b@, off as int, 4));
        assert(hi == le_value(b@, off + 4, 4));
    }
    hi * 0x1_0000_0000 + lo
}

/// Reinterprets a 64-bit pattern as a signed integer.
pub fn u64_to_i64(v: u64) -> (r: i64)
    ensures
        r == as_signed_64(v as int),
{
    if v >= 0x8000_0000_0000_0000 {
        let low: u64 = v - 0x8000_0000_0000_0000;
        (low as i64) + i64::MIN
    } else {
        v as i64
    }
}

/// Reinterprets a signed 64-bit integer as its bit pattern.
pub fn i64_to_u64(v: i64) -> (r: u64)
    ensures
        r == as_unsigned_64(v as int),
{
    if v < 0 {
        let low: i64 = v - i64::MIN;
        (low as u64) + 0x8000_0000_0000_0000
    } else {
        v as u64
    }
}

/// Reads a little-endian two's complement `i64` at `off`.
pub fn le_i64_at(b: &[u8], off: usize) -> (r: i64)
    requires
        off + 8 <= b.len(),
    ensures
        r == as_signed_64(le_value(b@, off as int, 8)),
{
    u64_to_i64(le_u64_at(b, off))
}

} // verus!
