//! Primitive field decoding: fixed-width integers in either byte order,
//! and variable-length zig-zag encoded 32/64-bit integers.
//!
//! Each exec decoder is proved equal to a spec-level decoder over the
//! cursor's remaining bytes.  A spec decoder returns the decoded value and
//! the number of bytes consumed, or the error kind together with the
//! number of bytes consumed before the failure; the exec contracts pin the
//! cursor's final position on both outcomes.

use vstd::prelude::*;
use vstd::arithmetic::div_mod::lemma_add_mod_noop_right;
use vstd::arithmetic::power2::lemma_pow2_adds;
use vstd::arithmetic::power2::lemma_pow2_strictly_increases;
use vstd::arithmetic::power2::lemma2_to64;
use vstd::arithmetic::power2::lemma2_to64_rest;
use vstd::arithmetic::power2::pow2;

use crate::DecodeError;
use crate::Edition;
use crate::cursor::cursor_data;
use crate::cursor::cursor_len;
use crate::cursor::cursor_take;

verus! {

/// The 16-bit unsigned value held by two bytes in the given byte order.
pub open spec fn spec_u16_of(b: Seq<u8>, big_endian: bool) -> u16
    recommends
        b.len() == 2,
{
    if big_endian {
        (b[0] * 0x100 + b[1]) as u16
    } else {
        (b[1] * 0x100 + b[0]) as u16
    }
}

/// The 32-bit unsigned value held by four bytes in the given byte order.
pub open spec fn spec_u32_of(b: Seq<u8>, big_endian: bool) -> u32
    recommends
        b.len() == 4,
{
    if big_endian {
        (b[0] * 0x1000000 + b[1] * 0x10000 + b[2] * 0x100 + b[3]) as u32
    } else {
        (b[3] * 0x1000000 + b[2] * 0x10000 + b[1] * 0x100 + b[0]) as u32
    }
}

/// The 64-bit unsigned value held by eight bytes in the given byte order.
pub open spec fn spec_u64_of(b: Seq<u8>, big_endian: bool) -> u64
    recommends
        b.len() == 8,
{
    if big_endian {
        (b[0] * 0x100000000000000 + b[1] * 0x1000000000000 + b[2] * 0x10000000000
            + b[3] * 0x100000000 + b[4] * 0x1000000 + b[5] * 0x10000 + b[6] * 0x100
            + b[7]) as u64
    } else {
        (b[7] * 0x100000000000000 + b[6] * 0x1000000000000 + b[5] * 0x10000000000
            + b[4] * 0x100000000 + b[3] * 0x1000000 + b[2] * 0x10000 + b[1] * 0x100
            + b[0]) as u64
    }
}

/// Decode a `u16` length field: always fixed-width, two bytes.
pub open spec fn spec_decode_u16(b: Seq<u8>, ed: Edition) -> Result<(u16, nat), (DecodeError, nat)> {
    if b.len() < 2 {
        Err((DecodeError::InsufficientData, 0))
    } else {
        Ok((spec_u16_of(b.take(2), ed.big_endian), 2))
    }
}

/// Decode an `i8`: one byte, no byte order.
pub open spec fn spec_decode_i8(b: Seq<u8>) -> Result<(i8, nat), (DecodeError, nat)> {
    if b.len() < 1 {
        Err((DecodeError::InsufficientData, 0))
    } else {
        Ok((b[0] as i8, 1))
    }
}

/// Decode an `i16`: always fixed-width, two bytes.
pub open spec fn spec_decode_i16(b: Seq<u8>, ed: Edition) -> Result<(i16, nat), (DecodeError, nat)> {
    if b.len() < 2 {
        Err((DecodeError::InsufficientData, 0))
    } else {
        Ok((spec_u16_of(b.take(2), ed.big_endian) as i16, 2))
    }
}

/// Decode the raw bits of an `f32`: always fixed-width, four bytes.
pub open spec fn spec_decode_f32_bits(b: Seq<u8>, ed: Edition) -> Result<(u32, nat), (DecodeError, nat)> {
    if b.len() < 4 {
        Err((DecodeError::InsufficientData, 0))
    } else {
        Ok((spec_u32_of(b.take(4), ed.big_endian), 4))
    }
}

/// Decode the raw bits of an `f64`: always fixed-width, eight bytes.
pub open spec fn spec_decode_f64_bits(b: Seq<u8>, ed: Edition) -> Result<(u64, nat), (DecodeError, nat)> {
    if b.len() < 8 {
        Err((DecodeError::InsufficientData, 0))
    } else {
        Ok((spec_u64_of(b.take(8), ed.big_endian), 8))
    }
}

/// One step of LEB128-style accumulation: each byte contributes its low
/// seven bits at position `7 * i`; the high bit is a continuation flag.
/// Accumulation wraps at 64 bits.  Reaching the byte cap without a
/// terminating byte is not an error: the value is whatever accumulated,
/// and no further byte is consumed.
pub open spec fn spec_varint_step(b: Seq<u8>, i: nat, acc: u64, max_bytes: nat) -> Result<
    (u64, nat),
    (DecodeError, nat),
>
    decreases max_bytes - i,
{
    if i >= max_bytes {
        Ok((acc, i))
    } else if b.len() <= i {
        Err((DecodeError::InsufficientData, i))
    } else {
        let byte = b[i as int];
        let acc2 = ((acc + (byte % 0x80) * pow2((7 * i) as nat)) % 0x10000000000000000) as u64;
        if byte < 0x80 {
            Ok((acc2, (i + 1) as nat))
        } else {
            spec_varint_step(b, i + 1, acc2, max_bytes)
        }
    }
}

/// A varint decode that begins within the input consumes no more than the
/// input holds.
pub proof fn lemma_varint_within(b: Seq<u8>, i: nat, acc: u64, max_bytes: nat)
    requires
        i <= b.len(),
    ensures
        spec_varint_step(b, i, acc, max_bytes) matches Ok((v, k)) ==> i <= k <= b.len(),
        spec_varint_step(b, i, acc, max_bytes) matches Err(e) ==> e.1 == b.len(),
    decreases max_bytes - i,
{
    if i >= max_bytes || b.len() <= i {
    } else {
        let byte = b[i as int];
        let acc2 = ((acc + (byte % 0x80) * pow2((7 * i) as nat)) % 0x10000000000000000) as u64;
        if byte >= 0x80 {
            lemma_varint_within(b, i + 1, acc2, max_bytes);
        }
    }
}

/// Zig-zag decoding of a 32-bit value: an even code is a non-negative
/// number, an odd code a negative one.
pub open spec fn spec_zigzag32(v: u32) -> i32 {
    if v % 2 == 0 {
        (v / 2) as i32
    } else {
        (-((v / 2) as int) - 1) as i32
    }
}

/// Zig-zag decoding of a 64-bit value.
pub open spec fn spec_zigzag64(v: u64) -> i64 {
    if v % 2 == 0 {
        (v / 2) as i64
    } else {
        (-((v / 2) as int) - 1) as i64
    }
}

/// Decode an `i32`: variable-length zig-zag when the edition says so
/// (at most five bytes), else four fixed-width bytes.
pub open spec fn spec_decode_i32(b: Seq<u8>, ed: Edition) -> Result<(i32, nat), (DecodeError, nat)> {
    if ed.variable_length_ints {
        match spec_varint_step(b, 0, 0, 5) {
            Ok((v, k)) => Ok((spec_zigzag32(v as u32), k)),
            Err(e) => Err(e),
        }
    } else if b.len() < 4 {
        Err((DecodeError::InsufficientData, 0))
    } else {
        Ok((spec_u32_of(b.take(4), ed.big_endian) as i32, 4))
    }
}

/// Decode an `i64`: variable-length zig-zag when the edition says so
/// (at most ten bytes), else eight fixed-width bytes.
pub open spec fn spec_decode_i64(b: Seq<u8>, ed: Edition) -> Result<(i64, nat), (DecodeError, nat)> {
    if ed.variable_length_ints {
        match spec_varint_step(b, 0, 0, 10) {
            Ok((v, k)) => Ok((spec_zigzag64(v), k)),
            Err(e) => Err(e),
        }
    } else if b.len() < 8 {
        Err((DecodeError::InsufficientData, 0))
    } else {
        Ok((spec_u64_of(b.take(8), ed.big_endian) as i64, 8))
    }
}

/// Read the unsigned accumulation of a varint, up to `max_bytes` bytes.
fn read_varint(u: &mut arbitrary::Unstructured, max_bytes: usize) -> (r: Result<u64, DecodeError>)
    requires
        1 <= max_bytes <= 10,
    ensures
        match spec_varint_step(cursor_data(*old(u)), 0, 0, max_bytes as nat) {
            Ok((v, k)) => r == Ok::<u64, DecodeError>(v) && cursor_data(*final(u)) == cursor_data(
                *old(u),
            ).skip(k as int),
            Err(e) => r == Err::<u64, DecodeError>(e.0) && cursor_data(*final(u)) == cursor_data(
                *old(u),
            ).skip(e.1 as int),
        },
{
    let ghost b0 = cursor_data(*u);
    let mut acc: u64 = 0;
    let mut mult: u64 = 1;
    let mut i: usize = 0;
    proof {
        lemma2_to64();
    }
    while i < max_bytes
        invariant
            b0 == cursor_data(*old(u)),
            1 <= max_bytes <= 10,
            i <= max_bytes,
            i as int <= b0.len(),
            cursor_data(*u) == b0.skip(i as int),
            i < max_bytes ==> mult == pow2((7 * i) as nat),
            spec_varint_step(b0, 0, 0, max_bytes as nat) == spec_varint_step(
                b0,
                i as nat,
                acc,
                max_bytes as nat,
            ),
        decreases max_bytes - i,
    {
        if cursor_len(u) < 1 {
            proof {
                assert(b0.skip(i as int).len() == 0);
                assert(b0.len() <= i);
                assert(cursor_data(*u) == b0.skip(i as int));
            }
            return Err(DecodeError::InsufficientData);
        }
        let v = cursor_take(u, 1);
        let byte = v[0];
        proof {
            assert(v@ == b0.skip(i as int).take(1));
            assert(v@[0] == b0.skip(i as int)[0]);
            assert(byte == b0[i as int]);
            assert(cursor_data(*u) =~= b0.skip(i as int + 1));
        }
        let g = (byte % 0x80) as u64;
        let t = g.wrapping_mul(mult);
        let acc2 = acc.wrapping_add(t);
        proof {
            let m: int = 0x10000000000000000;
            assert(t == (g * mult) % m);
            assert(acc2 == (acc + t) % m);
            lemma_add_mod_noop_right(acc as int, g as int * mult as int, m);
            assert(acc2 == (acc + g * pow2((7 * i) as nat)) % m);
        }
        acc = acc2;
        i = i + 1;
        if byte < 0x80 {
            return Ok(acc);
        }
        if i < max_bytes {
            proof {
                lemma2_to64();
                lemma2_to64_rest();
                lemma_pow2_adds((7 * (i - 1)) as nat, 7);
                if 7 * i < 63 {
                    lemma_pow2_strictly_increases((7 * i) as nat, 63);
                }
            }
            mult = mult * 128;
        }
    }
    Ok(acc)
}

/// Zig-zag decode a 32-bit code.
fn zigzag32(v: u32) -> (r: i32)
    ensures
        r == spec_zigzag32(v),
{
    let half = v / 2;
    if v % 2 == 0 {
        half as i32
    } else {
        -(half as i32) - 1
    }
}

/// Zig-zag decode a 64-bit code.
fn zigzag64(v: u64) -> (r: i64)
    ensures
        r == spec_zigzag64(v),
{
    let half = v / 2;
    if v % 2 == 0 {
        half as i64
    } else {
        -(half as i64) - 1
    }
}

/// Decode an `i32` payload or length field.
pub fn deserialize_i32(ed: Edition, u: &mut arbitrary::Unstructured) -> (r: Result<
    i32,
    DecodeError,
>)
    ensures
        match spec_decode_i32(cursor_data(*old(u)), ed) {
            Ok((v, k)) => r == Ok::<i32, DecodeError>(v) && cursor_data(*final(u)) == cursor_data(
                *old(u),
            ).skip(k as int),
            Err(e) => r == Err::<i32, DecodeError>(e.0) && cursor_data(*final(u))
                == cursor_data(*old(u)).skip(e.1 as int),
        },
{
    if ed.variable_length_ints {
        let v = read_varint(u, 5)?;
        Ok(zigzag32(v as u32))
    } else {
        if cursor_len(u) < 4 {
            return Err(DecodeError::InsufficientData);
        }
        let v = cursor_take(u, 4);
        let (b0, b1, b2, b3) = (v[0] as u32, v[1] as u32, v[2] as u32, v[3] as u32);
        if ed.big_endian {
            Ok((b0 * 0x1000000 + b1 * 0x10000 + b2 * 0x100 + b3) as i32)
        } else {
            Ok((b3 * 0x1000000 + b2 * 0x10000 + b1 * 0x100 + b0) as i32)
        }
    }
}

/// Decode an `i64` payload or length field.
pub fn deserialize_i64(ed: Edition, u: &mut arbitrary::Unstructured) -> (r: Result<
    i64,
    DecodeError,
>)
    ensures
        match spec_decode_i64(cursor_data(*old(u)), ed) {
            Ok((v, k)) => r == Ok::<i64, DecodeError>(v) && cursor_data(*final(u)) == cursor_data(
                *old(u),
            ).skip(k as int),
            Err(e) => r == Err::<i64, DecodeError>(e.0) && cursor_data(*final(u))
                == cursor_data(*old(u)).skip(e.1 as int),
        },
{
    if ed.variable_length_ints {
        let v = read_varint(u, 10)?;
        Ok(zigzag64(v))
    } else {
        if cursor_len(u) < 8 {
            return Err(DecodeError::InsufficientData);
        }
        let v = cursor_take(u, 8);
        let b0 = v[0] as u64;
        let b1 = v[1] as u64;
        let b2 = v[2] as u64;
        let b3 = v[3] as u64;
        let b4 = v[4] as u64;
        let b5 = v[5] as u64;
        let b6 = v[6] as u64;
        let b7 = v[7] as u64;
        if ed.big_endian {
            Ok(
                (b0 * 0x100000000000000 + b1 * 0x1000000000000 + b2 * 0x10000000000 + b3
                    * 0x100000000 + b4 * 0x1000000 + b5 * 0x10000 + b6 * 0x100 + b7) as i64,
            )
        } else {
            Ok(
                (b7 * 0x100000000000000 + b6 * 0x1000000000000 + b5 * 0x10000000000 + b4
                    * 0x100000000 + b3 * 0x1000000 + b2 * 0x10000 + b1 * 0x100 + b0) as i64,
            )
        }
    }
}

/// Decode a length-prefixed opaque byte string: a fixed-width `u16`
/// length, then that many raw bytes, taken without validation.
pub open spec fn spec_decode_string(b: Seq<u8>, ed: Edition) -> Result<(Seq<u8>, nat), (DecodeError, nat)> {
    match spec_decode_u16(b, ed) {
        Err(e) => Err(e),
        Ok((n, k)) => if b.len() < k + n {
            Err((DecodeError::InsufficientData, k))
        } else {
            Ok((b.subrange(k as int, k as int + n), (k + n) as nat))
        },
    }
}

/// Decode a length-prefixed opaque byte string.
pub fn deserialize_string(ed: Edition, u: &mut arbitrary::Unstructured) -> (r: Result<
    Vec<u8>,
    DecodeError,
>)
    ensures
        match spec_decode_string(cursor_data(*old(u)), ed) {
            Ok((v, k)) => r is Ok && r->Ok_0@ == v && cursor_data(*final(u)) == cursor_data(
                *old(u),
            ).skip(k as int),
            Err(e) => r == Err::<Vec<u8>, DecodeError>(e.0) && cursor_data(*final(u))
                == cursor_data(*old(u)).skip(e.1 as int),
        },
{
    let ghost b0 = cursor_data(*u);
    let n = match deserialize_u16(ed, u) {
        Ok(n) => n,
        Err(e) => {
            proof {
                assert(cursor_data(*u) =~= b0.skip(0));
            }
            return Err(e);
        },
    };
    let n = n as usize;
    if cursor_len(u) < n {
        proof {
            assert(cursor_data(*u) == b0.skip(2));
        }
        return Err(DecodeError::InsufficientData);
    }
    let v = cursor_take(u, n);
    proof {
        assert(v@ =~= b0.subrange(2, 2 + n as int));
        assert(cursor_data(*u) =~= b0.skip(2 + n as int));
    }
    Ok(v)
}

/// Read two raw bytes.
fn take2(u: &mut arbitrary::Unstructured) -> (r: Result<Vec<u8>, DecodeError>)
    ensures
        match r {
            Ok(v) => cursor_data(*old(u)).len() >= 2 && v@ == cursor_data(*old(u)).take(2)
                && cursor_data(*final(u)) == cursor_data(*old(u)).skip(2),
            Err(e) => e == DecodeError::InsufficientData && cursor_data(*old(u)).len() < 2
                && cursor_data(*final(u)) == cursor_data(*old(u)),
        },
{
    if cursor_len(u) < 2 {
        Err(DecodeError::InsufficientData)
    } else {
        Ok(cursor_take(u, 2))
    }
}

/// Decode a `u16` length field.
pub fn deserialize_u16(ed: Edition, u: &mut arbitrary::Unstructured) -> (r: Result<
    u16,
    DecodeError,
>)
    ensures
        match spec_decode_u16(cursor_data(*old(u)), ed) {
            Ok((v, k)) => r == Ok::<u16, DecodeError>(v) && cursor_data(*final(u)) == cursor_data(
                *old(u),
            ).skip(k as int),
            Err(e) => r == Err::<u16, DecodeError>(e.0) && cursor_data(*final(u)) == cursor_data(
                *old(u),
            ),
        },
{
    let v = take2(u)?;
    let (b0, b1) = (v[0], v[1]);
    if ed.big_endian {
        Ok((b0 as u16) * 0x100 + (b1 as u16))
    } else {
        Ok((b1 as u16) * 0x100 + (b0 as u16))
    }
}

/// Decode an `i8` payload.
pub fn deserialize_i8(u: &mut arbitrary::Unstructured) -> (r: Result<i8, DecodeError>)
    ensures
        match spec_decode_i8(cursor_data(*old(u))) {
            Ok((v, k)) => r == Ok::<i8, DecodeError>(v) && cursor_data(*final(u)) == cursor_data(
                *old(u),
            ).skip(k as int),
            Err(e) => r == Err::<i8, DecodeError>(e.0) && cursor_data(*final(u)) == cursor_data(
                *old(u),
            ),
        },
{
    if cursor_len(u) < 1 {
        Err(DecodeError::InsufficientData)
    } else {
        let v = cursor_take(u, 1);
        Ok(v[0] as i8)
    }
}

/// Decode an `i16` payload.
pub fn deserialize_i16(ed: Edition, u: &mut arbitrary::Unstructured) -> (r: Result<
    i16,
    DecodeError,
>)
    ensures
        match spec_decode_i16(cursor_data(*old(u)), ed) {
            Ok((v, k)) => r == Ok::<i16, DecodeError>(v) && cursor_data(*final(u)) == cursor_data(
                *old(u),
            ).skip(k as int),
            Err(e) => r == Err::<i16, DecodeError>(e.0) && cursor_data(*final(u)) == cursor_data(
                *old(u),
            ),
        },
{
    let v = take2(u)?;
    let (b0, b1) = (v[0], v[1]);
    if ed.big_endian {
        Ok(((b0 as u16) * 0x100 + (b1 as u16)) as i16)
    } else {
        Ok(((b1 as u16) * 0x100 + (b0 as u16)) as i16)
    }
}

/// Decode the raw bits of an `f32` payload.
pub fn deserialize_f32_bits(ed: Edition, u: &mut arbitrary::Unstructured) -> (r: Result<
    u32,
    DecodeError,
>)
    ensures
        match spec_decode_f32_bits(cursor_data(*old(u)), ed) {
            Ok((v, k)) => r == Ok::<u32, DecodeError>(v) && cursor_data(*final(u)) == cursor_data(
                *old(u),
            ).skip(k as int),
            Err(e) => r == Err::<u32, DecodeError>(e.0) && cursor_data(*final(u)) == cursor_data(
                *old(u),
            ),
        },
{
    if cursor_len(u) < 4 {
        return Err(DecodeError::InsufficientData);
    }
    let v = cursor_take(u, 4);
    let (b0, b1, b2, b3) = (v[0] as u32, v[1] as u32, v[2] as u32, v[3] as u32);
    if ed.big_endian {
        Ok(b0 * 0x1000000 + b1 * 0x10000 + b2 * 0x100 + b3)
    } else {
        Ok(b3 * 0x1000000 + b2 * 0x10000 + b1 * 0x100 + b0)
    }
}

/// Decode the raw bits of an `f64` payload.
pub fn deserialize_f64_bits(ed: Edition, u: &mut arbitrary::Unstructured) -> (r: Result<
    u64,
    DecodeError,
>)
    ensures
        match spec_decode_f64_bits(cursor_data(*old(u)), ed) {
            Ok((v, k)) => r == Ok::<u64, DecodeError>(v) && cursor_data(*final(u)) == cursor_data(
                *old(u),
            ).skip(k as int),
            Err(e) => r == Err::<u64, DecodeError>(e.0) && cursor_data(*final(u)) == cursor_data(
                *old(u),
            ),
        },
{
    if cursor_len(u) < 8 {
        return Err(DecodeError::InsufficientData);
    }
    let v = cursor_take(u, 8);
    let b0 = v[0] as u64;
    let b1 = v[1] as u64;
    let b2 = v[2] as u64;
    let b3 = v[3] as u64;
    let b4 = v[4] as u64;
    let b5 = v[5] as u64;
    let b6 = v[6] as u64;
    let b7 = v[7] as u64;
    if ed.big_endian {
        Ok(
            b0 * 0x100000000000000 + b1 * 0x1000000000000 + b2 * 0x10000000000 + b3 * 0x100000000
                + b4 * 0x1000000 + b5 * 0x10000 + b6 * 0x100 + b7,
        )
    } else {
        Ok(
            b7 * 0x100000000000000 + b6 * 0x1000000000000 + b5 * 0x10000000000 + b4 * 0x100000000
                + b3 * 0x1000000 + b2 * 0x10000 + b1 * 0x100 + b0,
        )
    }
}

} // verus!
