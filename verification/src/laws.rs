//! The decoder's general properties, each stated over the spec model and
//! proved: the zig-zag varint round trip, the varint byte cap, the untyped
//! empty list, compound termination, root rejection of `End`, failure with
//! the insufficient-data error on any truncated document, and the closed
//! failure of over-deep nesting.

use vstd::prelude::*;
use vstd::arithmetic::div_mod::lemma_add_mod_noop;
use vstd::arithmetic::div_mod::lemma_div_decreases;
use vstd::arithmetic::div_mod::lemma_fundamental_div_mod;
use vstd::arithmetic::div_mod::lemma_mod_twice;
use vstd::arithmetic::power2::lemma_pow2_adds;
use vstd::arithmetic::power2::lemma_pow2_strictly_increases;
use vstd::arithmetic::power2::lemma2_to64;
use vstd::arithmetic::power2::lemma2_to64_rest;
use vstd::arithmetic::power2::pow2;

use crate::DecodeError;
use crate::Edition;
use crate::owned::ListV;
use crate::owned::PayloadV;
use crate::owned::spec_decode_compound;
use crate::owned::spec_decode_list;
use crate::owned::spec_decode_named_tag;
use crate::prim::spec_decode_i32;
use crate::prim::spec_decode_i64;
use crate::prim::spec_varint_step;
use crate::prim::spec_zigzag32;
use crate::prim::spec_zigzag64;
use crate::owned::spec_decode_i8_seq;
use crate::owned::spec_decode_i32_seq;
use crate::owned::spec_decode_i64_seq;
use crate::owned::spec_decode_len;
use crate::owned::spec_decode_payload;
use crate::owned::spec_decode_payload_seq;
use crate::owned::lemma_i8_seq_within;
use crate::owned::lemma_i32_seq_within;
use crate::owned::lemma_i64_seq_within;
use crate::owned::lemma_decode_len_within;
use crate::owned::lemma_payload_within;
use crate::owned::lemma_payload_seq_within;
use crate::prim::spec_decode_f32_bits;
use crate::prim::spec_decode_f64_bits;
use crate::prim::spec_decode_i16;
use crate::prim::spec_decode_i8;
use crate::prim::spec_decode_string;
use crate::prim::spec_decode_u16;
use crate::tag::Tag;
use crate::tag::spec_decode_tag;

verus! {

/// Zig-zag encoding of a 32-bit signed value: the sign is folded into the
/// low bit.
pub open spec fn spec_zigzag_encode32(v: i32) -> u32 {
    if v >= 0 {
        (2 * (v as int)) as u32
    } else {
        (-2 * (v as int) - 1) as u32
    }
}

/// Zig-zag encoding of a 64-bit signed value.
pub open spec fn spec_zigzag_encode64(v: i64) -> u64 {
    if v >= 0 {
        (2 * (v as int)) as u64
    } else {
        (-2 * (v as int) - 1) as u64
    }
}

/// Varint encoding of an unsigned value: seven payload bits per byte, low
/// group first, the high bit flagging continuation.
pub open spec fn spec_varint_encode(x: u64) -> Seq<u8>
    decreases x via spec_varint_encode_decreases
{
    if x < 0x80 {
        seq![x as u8]
    } else {
        seq![((x % 0x80) + 0x80) as u8].add(spec_varint_encode(x / 0x80))
    }
}

#[via_fn]
proof fn spec_varint_encode_decreases(x: u64) {
    if x >= 0x80 {
        lemma_div_decreases(x as int, 0x80);
    }
}

/// Zig-zag decoding undoes zig-zag encoding, for every 32-bit value.
pub proof fn lemma_zigzag32_round_trip(v: i32)
    ensures
        spec_zigzag32(spec_zigzag_encode32(v)) == v,
{
}

/// Zig-zag decoding undoes zig-zag encoding, for every 64-bit value.
pub proof fn lemma_zigzag64_round_trip(v: i64)
    ensures
        spec_zigzag64(spec_zigzag_encode64(v)) == v,
{
}

/// A value below `pow2(7 * w)` encodes into at most `w` bytes.
proof fn lemma_varint_encode_len(x: u64, w: nat)
    requires
        w >= 1,
        x < pow2(7 * w),
    ensures
        1 <= spec_varint_encode(x).len() <= w,
    decreases w,
{
    if x >= 0x80 {
        lemma_pow2_adds((7 * (w - 1)) as nat, 7);
        lemma2_to64();
        assert(pow2(7 * w) == pow2((7 * (w - 1)) as nat) * 0x80);
        lemma_fundamental_div_mod(x as int, 0x80);
        assert(x / 0x80 < pow2((7 * (w - 1)) as nat)) by (nonlinear_arith)
            requires
                x < pow2((7 * (w - 1)) as nat) * 0x80,
                x == 0x80 * (x as int / 0x80) + (x as int % 0x80),
                0 <= x as int % 0x80,
        ;
        assert(w >= 2) by {
            if w == 1 {
                lemma2_to64();
                assert(pow2(7) == 0x80);
            }
        }
        lemma_varint_encode_len(x / 0x80, (w - 1) as nat);
    }
}

/// Decoding an encoded varint that sits at position `i` of the input adds
/// the encoded value, shifted to its position, to the accumulator, and
/// consumes exactly the encoding.
proof fn lemma_varint_step_of_encoding(x: u64, i: nat, acc: u64, max_bytes: nat, b: Seq<u8>)
    requires
        forall|j: int|
            0 <= j < spec_varint_encode(x).len() ==> b[i + j] == spec_varint_encode(x)[j],
        i + spec_varint_encode(x).len() <= max_bytes,
        i + spec_varint_encode(x).len() <= b.len(),
    ensures
        spec_varint_step(b, i, acc, max_bytes) == Ok::<(u64, nat), (DecodeError, nat)>(
            (
                ((acc + x * pow2(7 * i)) % 0x10000000000000000) as u64,
                (i + spec_varint_encode(x).len()) as nat,
            ),
        ),
    decreases x,
{
    let m: int = 0x10000000000000000;
    let enc = spec_varint_encode(x);
    let byte = b[i as int];
    assert(byte == enc[0]);
    if x < 0x80 {
        assert(byte == x as u8);
        assert(byte % 0x80 == x);
        assert(acc + (byte % 0x80) * pow2(7 * i) == acc + x * pow2(7 * i));
    } else {
        assert(byte == ((x % 0x80) + 0x80) as u8);
        assert(byte % 0x80 == x % 0x80);
        assert(byte >= 0x80);
        let acc2 = ((acc + (x % 0x80) * pow2(7 * i)) % m) as u64;
        let q = x / 0x80;
        lemma_div_decreases(x as int, 0x80);
        let enc2 = spec_varint_encode(q);
        assert(enc == seq![byte].add(enc2));
        assert(forall|j: int| 0 <= j < enc2.len() ==> b[i + 1 + j] == enc2[j]) by {
            assert(forall|j: int| 0 <= j < enc2.len() ==> enc[j + 1] == enc2[j]);
        }
        lemma_varint_step_of_encoding(q, i + 1, acc2, max_bytes, b);
        assert(spec_varint_step(b, i, acc, max_bytes) == Ok::<(u64, nat), (DecodeError, nat)>(
            (((acc2 + q * pow2(7 * (i + 1))) % m) as u64, (i + enc.len()) as nat),
        ));
        lemma_pow2_adds(7 * i, 7);
        lemma2_to64();
        assert(pow2(7 * (i + 1)) == pow2(7 * i) * 0x80);
        lemma_fundamental_div_mod(x as int, 0x80);
        assert((x % 0x80) * pow2(7 * i) + q * (pow2(7 * i) * 0x80) == x * pow2(7 * i))
            by (nonlinear_arith)
            requires
                x == 0x80 * (x as int / 0x80) + (x as int % 0x80),
                q == x as int / 0x80,
        ;
        let a1: int = acc + (x % 0x80) * pow2(7 * i);
        let b1: int = q * pow2(7 * (i + 1));
        lemma_add_mod_noop(a1 % m, b1, m);
        lemma_add_mod_noop(a1, b1, m);
        lemma_mod_twice(a1, m);
        assert((a1 % m + b1) % m == (a1 + b1) % m);
        assert(a1 + b1 == acc + x * pow2(7 * i));
    }
}

/// **Zig-zag round trip**: decoding the zig-zag varint encoding of any
/// 32-bit signed value, with any bytes following it, yields exactly that
/// value and consumes exactly the encoding.
pub proof fn lemma_round_trip_i32(ed: Edition, v: i32, tail: Seq<u8>)
    requires
        ed.variable_length_ints,
    ensures
        spec_decode_i32(spec_varint_encode(spec_zigzag_encode32(v) as u64).add(tail), ed)
            == Ok::<(i32, nat), (DecodeError, nat)>(
            (v, spec_varint_encode(spec_zigzag_encode32(v) as u64).len() as nat),
        ),
{
    let x = spec_zigzag_encode32(v) as u64;
    let enc = spec_varint_encode(x);
    let b = enc.add(tail);
    lemma2_to64();
    lemma2_to64_rest();
    lemma_pow2_strictly_increases(32, 35);
    assert(x < pow2(35));
    lemma_varint_encode_len(x, 5);
    assert(forall|j: int| 0 <= j < enc.len() ==> b[0 + j] == enc[j]);
    lemma_varint_step_of_encoding(x, 0, 0, 5, b);
    assert(pow2(0) == 1) by {
        lemma2_to64();
    }
    assert((0 + x * pow2(0)) % 0x10000000000000000 == x);
    lemma_zigzag32_round_trip(v);
}

/// **Zig-zag round trip**: the same, for 64-bit signed values.
pub proof fn lemma_round_trip_i64(ed: Edition, v: i64, tail: Seq<u8>)
    requires
        ed.variable_length_ints,
    ensures
        spec_decode_i64(spec_varint_encode(spec_zigzag_encode64(v)).add(tail), ed) == Ok::<
            (i64, nat),
            (DecodeError, nat),
        >((v, spec_varint_encode(spec_zigzag_encode64(v)).len() as nat)),
{
    let x = spec_zigzag_encode64(v);
    let enc = spec_varint_encode(x);
    let b = enc.add(tail);
    lemma2_to64();
    lemma2_to64_rest();
    assert(pow2(70) == pow2(64) * pow2(6)) by {
        lemma_pow2_adds(64, 6);
    }
    assert(x < pow2(70));
    lemma_varint_encode_len(x, 10);
    assert(forall|j: int| 0 <= j < enc.len() ==> b[0 + j] == enc[j]);
    lemma_varint_step_of_encoding(x, 0, 0, 10, b);
    assert(pow2(0) == 1) by {
        lemma2_to64();
    }
    assert((0 + x * pow2(0)) % 0x10000000000000000 == x);
    lemma_zigzag64_round_trip(v);
}

/// Helper for the varint cap: from any position with only continuation
/// bytes in reach, decoding stops at the cap.
proof fn lemma_varint_cap_step(b: Seq<u8>, i: nat, acc: u64, max_bytes: nat)
    requires
        i <= max_bytes,
        max_bytes <= b.len(),
        forall|j: int| 0 <= j < max_bytes ==> b[j] >= 0x80,
    ensures
        spec_varint_step(b, i, acc, max_bytes) is Ok,
        spec_varint_step(b, i, acc, max_bytes)->Ok_0.1 == max_bytes,
    decreases max_bytes - i,
{
    if i < max_bytes {
        let byte = b[i as int];
        let acc2 = ((acc + (byte % 0x80) * pow2(7 * i)) % 0x10000000000000000) as u64;
        lemma_varint_cap_step(b, i + 1, acc2, max_bytes);
    }
}

/// **Varint cap**: a 32-bit varint whose first five bytes all carry the
/// continuation bit still decodes, consuming exactly five bytes and
/// reading no sixth.
pub proof fn lemma_varint_cap(b: Seq<u8>, ed: Edition)
    requires
        ed.variable_length_ints,
        b.len() >= 5,
        forall|j: int| 0 <= j < 5 ==> b[j] >= 0x80,
    ensures
        spec_decode_i32(b, ed) is Ok,
        spec_decode_i32(b, ed)->Ok_0.1 == 5,
{
    lemma_varint_cap_step(b, 0, 0, 5);
}

/// **Empty list distinctness**: a list whose element-tag byte is `End`
/// decodes to the untyped empty list after that one byte, a state distinct
/// from a `Byte` list with zero elements.
pub proof fn lemma_untyped_empty_list(b: Seq<u8>, ed: Edition, depth: nat)
    requires
        b.len() >= 1,
        b[0] == 0,
    ensures
        spec_decode_list(b, ed, depth) == Ok::<(ListV, nat), (DecodeError, nat)>(
            (ListV::Empty, 1nat),
        ),
        ListV::Empty != ListV::Byte(Seq::<i8>::empty()),
{
}

/// **Compound termination**: a compound body holding just the `End` byte
/// decodes to the empty mapping, consuming that one byte.
pub proof fn lemma_compound_lone_end(b: Seq<u8>, ed: Edition, depth: nat)
    requires
        b.len() >= 1,
        b[0] == 0,
    ensures
        spec_decode_compound(b, ed, depth, Map::empty(), 0) == Ok::<
            (Map<Seq<u8>, PayloadV>, nat),
            (DecodeError, nat),
        >((Map::empty(), 1nat)),
{
}

/// **Root failure on End**: a root document whose first byte is the `End`
/// discriminant fails with the invalid-discriminant error, whatever
/// follows.
pub proof fn lemma_root_end_rejected(b: Seq<u8>, ed: Edition, depth: nat)
    requires
        b.len() >= 1,
        b[0] == 0,
    ensures
        spec_decode_named_tag(b, ed, depth) == Err::<((Seq<u8>, PayloadV), nat), (
            DecodeError,
            nat,
        )>((DecodeError::InvalidDiscriminant, 1nat)),
{
}

/// Taking a prefix commutes with skipping a consumed front.
proof fn lemma_take_skip(b: Seq<u8>, m: int, j: int)
    requires
        0 <= m <= j <= b.len(),
    ensures
        b.take(j).skip(m) == b.skip(m).take(j - m),
{
    assert(b.take(j).skip(m) =~= b.skip(m).take(j - m));
}

/// Prefix behaviour of the tag decode: a long enough prefix decodes the
/// same, a shorter one runs out of data.
proof fn lemma_prefix_tag(b: Seq<u8>, j: int)
    requires
        0 <= j <= b.len(),
    ensures
        spec_decode_tag(b) matches Ok((t, k)) ==> {
            &&& k <= j ==> spec_decode_tag(b.take(j)) == spec_decode_tag(b)
            &&& j < k ==> (spec_decode_tag(b.take(j)) matches Err(e2)
                && e2.0 == DecodeError::InsufficientData)
        },
{
    if j >= 1 {
        assert(b.take(j)[0] == b[0]);
    }
}

/// Prefix behaviour of the fixed-width `u16` decode.
proof fn lemma_prefix_u16(b: Seq<u8>, ed: Edition, j: int)
    requires
        0 <= j <= b.len(),
    ensures
        spec_decode_u16(b, ed) matches Ok((v, k)) ==> {
            &&& k <= j ==> spec_decode_u16(b.take(j), ed) == spec_decode_u16(b, ed)
            &&& j < k ==> (spec_decode_u16(b.take(j), ed) matches Err(e2)
                && e2.0 == DecodeError::InsufficientData)
        },
{
    if b.len() >= 2 && j >= 2 {
        assert(b.take(j).take(2) =~= b.take(2));
    }
}

/// Prefix behaviour of the `i8` decode.
proof fn lemma_prefix_i8(b: Seq<u8>, j: int)
    requires
        0 <= j <= b.len(),
    ensures
        spec_decode_i8(b) matches Ok((v, k)) ==> {
            &&& k <= j ==> spec_decode_i8(b.take(j)) == spec_decode_i8(b)
            &&& j < k ==> (spec_decode_i8(b.take(j)) matches Err(e2)
                && e2.0 == DecodeError::InsufficientData)
        },
{
    if j >= 1 {
        assert(b.take(j)[0] == b[0]);
    }
}

/// Prefix behaviour of the fixed-width `i16` decode.
proof fn lemma_prefix_i16(b: Seq<u8>, ed: Edition, j: int)
    requires
        0 <= j <= b.len(),
    ensures
        spec_decode_i16(b, ed) matches Ok((v, k)) ==> {
            &&& k <= j ==> spec_decode_i16(b.take(j), ed) == spec_decode_i16(b, ed)
            &&& j < k ==> (spec_decode_i16(b.take(j), ed) matches Err(e2)
                && e2.0 == DecodeError::InsufficientData)
        },
{
    if b.len() >= 2 && j >= 2 {
        assert(b.take(j).take(2) =~= b.take(2));
    }
}

/// Prefix behaviour of the `f32` bits decode.
proof fn lemma_prefix_f32(b: Seq<u8>, ed: Edition, j: int)
    requires
        0 <= j <= b.len(),
    ensures
        spec_decode_f32_bits(b, ed) matches Ok((v, k)) ==> {
            &&& k <= j ==> spec_decode_f32_bits(b.take(j), ed) == spec_decode_f32_bits(b, ed)
            &&& j < k ==> (spec_decode_f32_bits(b.take(j), ed) matches Err(e2)
                && e2.0 == DecodeError::InsufficientData)
        },
{
    if b.len() >= 4 && j >= 4 {
        assert(b.take(j).take(4) =~= b.take(4));
    }
}

/// Prefix behaviour of the `f64` bits decode.
proof fn lemma_prefix_f64(b: Seq<u8>, ed: Edition, j: int)
    requires
        0 <= j <= b.len(),
    ensures
        spec_decode_f64_bits(b, ed) matches Ok((v, k)) ==> {
            &&& k <= j ==> spec_decode_f64_bits(b.take(j), ed) == spec_decode_f64_bits(b, ed)
            &&& j < k ==> (spec_decode_f64_bits(b.take(j), ed) matches Err(e2)
                && e2.0 == DecodeError::InsufficientData)
        },
{
    if b.len() >= 8 && j >= 8 {
        assert(b.take(j).take(8) =~= b.take(8));
    }
}

/// Prefix behaviour of the varint accumulation.
proof fn lemma_prefix_varint(b: Seq<u8>, i: nat, acc: u64, max_bytes: nat, j: int)
    requires
        i <= b.len(),
        0 <= j <= b.len(),
    ensures
        spec_varint_step(b, i, acc, max_bytes) matches Ok((v, k)) ==> {
            &&& k <= j ==> spec_varint_step(b.take(j), i, acc, max_bytes) == spec_varint_step(
                b,
                i,
                acc,
                max_bytes,
            )
            &&& i <= j < k ==> (spec_varint_step(b.take(j), i, acc, max_bytes) matches Err(e2)
                && e2.0 == DecodeError::InsufficientData)
        },
    decreases max_bytes - i,
{
    if i >= max_bytes || b.len() <= i {
    } else {
        let byte = b[i as int];
        let acc2 = ((acc + (byte % 0x80) * pow2(7 * i)) % 0x10000000000000000) as u64;
        if (j as nat) > i {
            assert(b.take(j)[i as int] == b[i as int]);
        }
        if byte >= 0x80 {
            lemma_prefix_varint(b, i + 1, acc2, max_bytes, j);
        }
    }
}

/// Prefix behaviour of the `i32` field decode.
proof fn lemma_prefix_i32(b: Seq<u8>, ed: Edition, j: int)
    requires
        0 <= j <= b.len(),
    ensures
        spec_decode_i32(b, ed) matches Ok((v, k)) ==> {
            &&& k <= j ==> spec_decode_i32(b.take(j), ed) == spec_decode_i32(b, ed)
            &&& j < k ==> (spec_decode_i32(b.take(j), ed) matches Err(e2)
                && e2.0 == DecodeError::InsufficientData)
        },
{
    if ed.variable_length_ints {
        lemma_prefix_varint(b, 0, 0, 5, j);
    } else if b.len() >= 4 && j >= 4 {
        assert(b.take(j).take(4) =~= b.take(4));
    }
}

/// Prefix behaviour of the `i64` field decode.
proof fn lemma_prefix_i64(b: Seq<u8>, ed: Edition, j: int)
    requires
        0 <= j <= b.len(),
    ensures
        spec_decode_i64(b, ed) matches Ok((v, k)) ==> {
            &&& k <= j ==> spec_decode_i64(b.take(j), ed) == spec_decode_i64(b, ed)
            &&& j < k ==> (spec_decode_i64(b.take(j), ed) matches Err(e2)
                && e2.0 == DecodeError::InsufficientData)
        },
{
    if ed.variable_length_ints {
        lemma_prefix_varint(b, 0, 0, 10, j);
    } else if b.len() >= 8 && j >= 8 {
        assert(b.take(j).take(8) =~= b.take(8));
    }
}

/// Prefix behaviour of the length field decode.
proof fn lemma_prefix_len(b: Seq<u8>, ed: Edition, j: int)
    requires
        0 <= j <= b.len(),
    ensures
        spec_decode_len(b, ed) matches Ok((n, k)) ==> {
            &&& k <= j ==> spec_decode_len(b.take(j), ed) == spec_decode_len(b, ed)
            &&& j < k ==> (spec_decode_len(b.take(j), ed) matches Err(e2)
                && e2.0 == DecodeError::InsufficientData)
        },
{
    lemma_prefix_i32(b, ed, j);
}

/// Prefix behaviour of the string decode.
proof fn lemma_prefix_string(b: Seq<u8>, ed: Edition, j: int)
    requires
        0 <= j <= b.len(),
    ensures
        spec_decode_string(b, ed) matches Ok((v, k)) ==> {
            &&& k <= j ==> spec_decode_string(b.take(j), ed) == spec_decode_string(b, ed)
            &&& j < k ==> (spec_decode_string(b.take(j), ed) matches Err(e2)
                && e2.0 == DecodeError::InsufficientData)
        },
{
    lemma_prefix_u16(b, ed, j);
    if spec_decode_string(b, ed) is Ok {
        let (v, k) = spec_decode_string(b, ed)->Ok_0;
        let n = spec_decode_u16(b, ed)->Ok_0.0;
        if k <= j {
            assert(b.take(j).subrange(2, 2 + n as int) =~= b.subrange(2, 2 + n as int));
        }
    }
}

/// Prefix behaviour of an `i8` element run.
proof fn lemma_prefix_i8_seq(b: Seq<u8>, n: nat, acc: Seq<i8>, used: nat, j: int)
    requires
        0 <= j <= b.len(),
    ensures
        spec_decode_i8_seq(b, n, acc, used) matches Ok((s, k)) ==> {
            &&& k - used <= j ==> spec_decode_i8_seq(b.take(j), n, acc, used) == spec_decode_i8_seq(
                b,
                n,
                acc,
                used,
            )
            &&& j < k - used ==> (spec_decode_i8_seq(b.take(j), n, acc, used) matches Err(e2)
                && e2.0 == DecodeError::InsufficientData)
        },
    decreases n,
{
    if n > 0 && spec_decode_i8(b) is Ok {
        let (v, k1) = spec_decode_i8(b)->Ok_0;
        lemma_prefix_i8(b, j);
        lemma_i8_seq_within(b.skip(k1 as int), (n - 1) as nat, acc.push(v), used + k1);
        if j >= k1 {
            lemma_take_skip(b, k1 as int, j);
            lemma_prefix_i8_seq(b.skip(k1 as int), (n - 1) as nat, acc.push(v), used + k1, j - 1);
        }
    }
}

/// Prefix behaviour of an `i32` element run.
proof fn lemma_prefix_i32_seq(b: Seq<u8>, ed: Edition, n: nat, acc: Seq<i32>, used: nat, j: int)
    requires
        0 <= j <= b.len(),
    ensures
        spec_decode_i32_seq(b, ed, n, acc, used) matches Ok((s, k)) ==> {
            &&& k - used <= j ==> spec_decode_i32_seq(b.take(j), ed, n, acc, used)
                == spec_decode_i32_seq(b, ed, n, acc, used)
            &&& j < k - used ==> (spec_decode_i32_seq(b.take(j), ed, n, acc, used) matches Err(
                e2,
            ) && e2.0 == DecodeError::InsufficientData)
        },
    decreases n,
{
    if n > 0 && crate::prim::spec_decode_i32(b, ed) is Ok {
        let (v, k1) = crate::prim::spec_decode_i32(b, ed)->Ok_0;
        lemma_prefix_i32(b, ed, j);
        crate::owned::lemma_decode_i32_within(b, ed);
        lemma_i32_seq_within(b.skip(k1 as int), ed, (n - 1) as nat, acc.push(v), used + k1);
        if j >= k1 {
            lemma_take_skip(b, k1 as int, j);
            lemma_prefix_i32_seq(
                b.skip(k1 as int),
                ed,
                (n - 1) as nat,
                acc.push(v),
                used + k1,
                j - k1,
            );
        }
    }
}

/// Prefix behaviour of an `i64` element run.
proof fn lemma_prefix_i64_seq(b: Seq<u8>, ed: Edition, n: nat, acc: Seq<i64>, used: nat, j: int)
    requires
        0 <= j <= b.len(),
    ensures
        spec_decode_i64_seq(b, ed, n, acc, used) matches Ok((s, k)) ==> {
            &&& k - used <= j ==> spec_decode_i64_seq(b.take(j), ed, n, acc, used)
                == spec_decode_i64_seq(b, ed, n, acc, used)
            &&& j < k - used ==> (spec_decode_i64_seq(b.take(j), ed, n, acc, used) matches Err(
                e2,
            ) && e2.0 == DecodeError::InsufficientData)
        },
    decreases n,
{
    if n > 0 && spec_decode_i64(b, ed) is Ok {
        let (v, k1) = spec_decode_i64(b, ed)->Ok_0;
        lemma_prefix_i64(b, ed, j);
        crate::owned::lemma_decode_i64_within(b, ed);
        lemma_i64_seq_within(b.skip(k1 as int), ed, (n - 1) as nat, acc.push(v), used + k1);
        if j >= k1 {
            lemma_take_skip(b, k1 as int, j);
            lemma_prefix_i64_seq(
                b.skip(k1 as int),
                ed,
                (n - 1) as nat,
                acc.push(v),
                used + k1,
                j - k1,
            );
        }
    }
}

/// Prefix behaviour of a payload decode.
proof fn lemma_prefix_payload(t: Tag, b: Seq<u8>, ed: Edition, depth: nat, j: int)
    requires
        0 <= j <= b.len(),
    ensures
        spec_decode_payload(t, b, ed, depth) matches Ok((p, k)) ==> {
            &&& k <= j ==> spec_decode_payload(t, b.take(j), ed, depth) == spec_decode_payload(
                t,
                b,
                ed,
                depth,
            )
            &&& j < k ==> (spec_decode_payload(t, b.take(j), ed, depth) matches Err(e2)
                && e2.0 == DecodeError::InsufficientData)
        },
    decreases depth, 0nat, 0nat, 0nat,
{
    if depth == 0 {
    } else {
        let d = (depth - 1) as nat;
        match t {
            Tag::Byte => lemma_prefix_i8(b, j),
            Tag::Short => lemma_prefix_i16(b, ed, j),
            Tag::Int => lemma_prefix_i32(b, ed, j),
            Tag::Long => lemma_prefix_i64(b, ed, j),
            Tag::Float => lemma_prefix_f32(b, ed, j),
            Tag::Double => lemma_prefix_f64(b, ed, j),
            Tag::String => lemma_prefix_string(b, ed, j),
            Tag::ByteArray => {
                lemma_prefix_len(b, ed, j);
                if spec_decode_len(b, ed) is Ok {
                    let (n, k1) = spec_decode_len(b, ed)->Ok_0;
                    lemma_decode_len_within(b, ed);
                    lemma_i8_seq_within(b.skip(k1 as int), n, Seq::empty(), 0);
                    if j >= k1 {
                        lemma_take_skip(b, k1 as int, j);
                        lemma_prefix_i8_seq(b.skip(k1 as int), n, Seq::empty(), 0, j - k1);
                    }
                }
            },
            Tag::IntArray => {
                lemma_prefix_len(b, ed, j);
                if spec_decode_len(b, ed) is Ok {
                    let (n, k1) = spec_decode_len(b, ed)->Ok_0;
                    lemma_decode_len_within(b, ed);
                    lemma_i32_seq_within(b.skip(k1 as int), ed, n, Seq::empty(), 0);
                    if j >= k1 {
                        lemma_take_skip(b, k1 as int, j);
                        lemma_prefix_i32_seq(b.skip(k1 as int), ed, n, Seq::empty(), 0, j - k1);
                    }
                }
            },
            Tag::LongArray => {
                lemma_prefix_len(b, ed, j);
                if spec_decode_len(b, ed) is Ok {
                    let (n, k1) = spec_decode_len(b, ed)->Ok_0;
                    lemma_decode_len_within(b, ed);
                    lemma_i64_seq_within(b.skip(k1 as int), ed, n, Seq::empty(), 0);
                    if j >= k1 {
                        lemma_take_skip(b, k1 as int, j);
                        lemma_prefix_i64_seq(b.skip(k1 as int), ed, n, Seq::empty(), 0, j - k1);
                    }
                }
            },
            Tag::List => lemma_prefix_list(b, ed, d, j),
            Tag::Compound => lemma_prefix_compound(b, ed, d, Map::empty(), 0, j),
            Tag::End => {},
        }
    }
}

/// Prefix behaviour of a payload element run.
proof fn lemma_prefix_payload_seq(
    t: Tag,
    n: nat,
    b: Seq<u8>,
    ed: Edition,
    depth: nat,
    acc: Seq<PayloadV>,
    used: nat,
    j: int,
)
    requires
        0 <= j <= b.len(),
    ensures
        spec_decode_payload_seq(t, n, b, ed, depth, acc, used) matches Ok((s, k)) ==> {
            &&& k - used <= j ==> spec_decode_payload_seq(t, n, b.take(j), ed, depth, acc, used)
                == spec_decode_payload_seq(t, n, b, ed, depth, acc, used)
            &&& j < k - used ==> (spec_decode_payload_seq(t, n, b.take(j), ed, depth, acc, used)
                matches Err(e2) && e2.0 == DecodeError::InsufficientData)
        },
    decreases depth, 1nat, n, 0nat,
{
    if n > 0 && spec_decode_payload(t, b, ed, depth) is Ok {
        let (p, k1) = spec_decode_payload(t, b, ed, depth)->Ok_0;
        lemma_prefix_payload(t, b, ed, depth, j);
        lemma_payload_within(t, b, ed, depth);
        lemma_payload_seq_within(
            t,
            (n - 1) as nat,
            b.skip(k1 as int),
            ed,
            depth,
            acc.push(p),
            used + k1,
        );
        if j >= k1 {
            lemma_take_skip(b, k1 as int, j);
            lemma_prefix_payload_seq(
                t,
                (n - 1) as nat,
                b.skip(k1 as int),
                ed,
                depth,
                acc.push(p),
                used + k1,
                j - k1,
            );
        }
    }
}

/// Prefix behaviour of a list decode.
proof fn lemma_prefix_list(b: Seq<u8>, ed: Edition, depth: nat, j: int)
    requires
        0 <= j <= b.len(),
    ensures
        spec_decode_list(b, ed, depth) matches Ok((l, k)) ==> {
            &&& k <= j ==> spec_decode_list(b.take(j), ed, depth) == spec_decode_list(b, ed, depth)
            &&& j < k ==> (spec_decode_list(b.take(j), ed, depth) matches Err(e2) && e2.0
                == DecodeError::InsufficientData)
        },
    decreases depth, 2nat, 0nat, 0nat,
{
    lemma_prefix_tag(b, j);
    if spec_decode_tag(b) is Ok {
        let (t, kt) = spec_decode_tag(b)->Ok_0;
        if t != Tag::End && j >= kt {
            lemma_take_skip(b, kt as int, j);
            lemma_prefix_len(b.skip(kt as int), ed, j - kt);
            if spec_decode_len(b.skip(kt as int), ed) is Ok {
                let (n, kn) = spec_decode_len(b.skip(kt as int), ed)->Ok_0;
                lemma_decode_len_within(b.skip(kt as int), ed);
                lemma_payload_seq_within(
                    t,
                    n,
                    b.skip(kt as int + kn as int),
                    ed,
                    depth,
                    Seq::empty(),
                    0,
                );
                if j >= kt + kn {
                    lemma_take_skip(b, kt as int + kn as int, j);
                    assert(b.take(j).skip(kt as int).skip(kn as int) =~= b.take(j).skip(
                        kt as int + kn as int,
                    ));
                    lemma_prefix_payload_seq(
                        t,
                        n,
                        b.skip(kt as int + kn as int),
                        ed,
                        depth,
                        Seq::empty(),
                        0,
                        j - kt - kn,
                    );
                }
            }
        }
    }
}

/// Prefix behaviour of a compound decode: a prefix that holds the whole
/// body decodes the same.
#[verifier::rlimit(100)]
proof fn lemma_prefix_compound_stab(
    b: Seq<u8>,
    ed: Edition,
    depth: nat,
    acc: Map<Seq<u8>, PayloadV>,
    used: nat,
    j: int,
)
    requires
        0 <= j <= b.len(),
    ensures
        spec_decode_compound(b, ed, depth, acc, used) matches Ok((m, k)) && k - used <= j
            ==> spec_decode_compound(b.take(j), ed, depth, acc, used) == spec_decode_compound(
            b,
            ed,
            depth,
            acc,
            used,
        ),
    decreases depth, 2nat, 0nat, b.len(),
{
    lemma_prefix_tag(b, j);
    if spec_decode_tag(b) is Ok {
        let (t, kt) = spec_decode_tag(b)->Ok_0;
        if t != Tag::End && spec_decode_string(b.skip(kt as int), ed) is Ok {
            let (name, kn) = spec_decode_string(b.skip(kt as int), ed)->Ok_0;
            if spec_decode_payload(t, b.skip(kt as int + kn as int), ed, depth) is Ok {
                let (p, kp) = spec_decode_payload(t, b.skip(kt as int + kn as int), ed, depth)
                    ->Ok_0;
                lemma_payload_within(t, b.skip(kt as int + kn as int), ed, depth);
                if kt + kn + kp <= b.len() {
                    let rest = b.skip(kt as int + kn as int + kp as int);
                    let acc2 = acc.insert(name, p);
                    let used2 = used + kt + kn + kp;
                    crate::owned::lemma_compound_within(rest, ed, depth, acc2, used2);
                    if j >= kt + kn + kp {
                        lemma_take_skip(b, kt as int, j);
                        lemma_prefix_string(b.skip(kt as int), ed, j - kt);
                        lemma_take_skip(b, kt as int + kn as int, j);
                        assert(b.take(j).skip(kt as int).skip(kn as int) =~= b.take(j).skip(
                            kt as int + kn as int,
                        ));
                        lemma_prefix_payload(
                            t,
                            b.skip(kt as int + kn as int),
                            ed,
                            depth,
                            j - kt - kn,
                        );
                        lemma_take_skip(b, kt as int + kn as int + kp as int, j);
                        assert(b.take(j).skip(kt as int + kn as int).skip(kp as int) =~= b.take(
                            j,
                        ).skip(kt as int + kn as int + kp as int));
                        lemma_prefix_compound_stab(rest, ed, depth, acc2, used2, j - kt - kn - kp);
                        assert(spec_decode_compound(b, ed, depth, acc, used)
                            == spec_decode_compound(rest, ed, depth, acc2, used2));
                        assert(spec_decode_compound(b.take(j), ed, depth, acc, used)
                            == spec_decode_compound(
                            rest.take(j - kt - kn - kp),
                            ed,
                            depth,
                            acc2,
                            used2,
                        ));
                    }
                }
            }
        }
    }
}

/// Prefix behaviour of a compound decode: a prefix cut before the body's
/// end runs out of data.
#[verifier::rlimit(100)]
proof fn lemma_prefix_compound_trunc(
    b: Seq<u8>,
    ed: Edition,
    depth: nat,
    acc: Map<Seq<u8>, PayloadV>,
    used: nat,
    j: int,
)
    requires
        0 <= j <= b.len(),
    ensures
        spec_decode_compound(b, ed, depth, acc, used) matches Ok((m, k)) && j < k - used
            ==> (spec_decode_compound(b.take(j), ed, depth, acc, used) matches Err(e2)
                && e2.0 == DecodeError::InsufficientData),
    decreases depth, 2nat, 0nat, b.len(),
{
    lemma_prefix_tag(b, j);
    if spec_decode_tag(b) is Ok {
        let (t, kt) = spec_decode_tag(b)->Ok_0;
        if t != Tag::End && j >= kt && spec_decode_string(b.skip(kt as int), ed) is Ok {
            let (name, kn) = spec_decode_string(b.skip(kt as int), ed)->Ok_0;
            lemma_take_skip(b, kt as int, j);
            lemma_prefix_string(b.skip(kt as int), ed, j - kt);
            if spec_decode_payload(t, b.skip(kt as int + kn as int), ed, depth) is Ok {
                let (p, kp) = spec_decode_payload(t, b.skip(kt as int + kn as int), ed, depth)
                    ->Ok_0;
                lemma_payload_within(t, b.skip(kt as int + kn as int), ed, depth);
                if j >= kt + kn {
                    lemma_take_skip(b, kt as int + kn as int, j);
                    assert(b.take(j).skip(kt as int).skip(kn as int) =~= b.take(j).skip(
                        kt as int + kn as int,
                    ));
                    lemma_prefix_payload(t, b.skip(kt as int + kn as int), ed, depth, j - kt - kn);
                    if kt + kn + kp <= b.len() {
                        let rest = b.skip(kt as int + kn as int + kp as int);
                        let acc2 = acc.insert(name, p);
                        let used2 = used + kt + kn + kp;
                        crate::owned::lemma_compound_within(rest, ed, depth, acc2, used2);
                        if j >= kt + kn + kp {
                            lemma_take_skip(b, kt as int + kn as int + kp as int, j);
                            assert(b.take(j).skip(kt as int + kn as int).skip(kp as int)
                                =~= b.take(j).skip(kt as int + kn as int + kp as int));
                            lemma_prefix_compound_trunc(
                                rest,
                                ed,
                                depth,
                                acc2,
                                used2,
                                j - kt - kn - kp,
                            );
                            assert(spec_decode_compound(b, ed, depth, acc, used)
                                == spec_decode_compound(rest, ed, depth, acc2, used2));
                            assert(spec_decode_compound(b.take(j), ed, depth, acc, used)
                                == spec_decode_compound(
                                rest.take(j - kt - kn - kp),
                                ed,
                                depth,
                                acc2,
                                used2,
                            ));
                        }
                    }
                }
            }
        }
    }
}

/// Prefix behaviour of a compound decode, both halves together.
proof fn lemma_prefix_compound(
    b: Seq<u8>,
    ed: Edition,
    depth: nat,
    acc: Map<Seq<u8>, PayloadV>,
    used: nat,
    j: int,
)
    requires
        0 <= j <= b.len(),
    ensures
        spec_decode_compound(b, ed, depth, acc, used) matches Ok((m, k)) ==> {
            &&& k - used <= j ==> spec_decode_compound(b.take(j), ed, depth, acc, used)
                == spec_decode_compound(b, ed, depth, acc, used)
            &&& j < k - used ==> (spec_decode_compound(b.take(j), ed, depth, acc, used) matches
                Err(e2) && e2.0 == DecodeError::InsufficientData)
        },
    decreases depth, 3nat, 0nat, 0nat,
{
    lemma_prefix_compound_stab(b, ed, depth, acc, used, j);
    lemma_prefix_compound_trunc(b, ed, depth, acc, used, j);
}

/// **Insufficient data**: truncating a well-formed encoded document
/// anywhere before its logical end makes decoding fail with the
/// insufficient-data error, never yield a partial result; and a prefix
/// that still holds the whole document decodes to the same result.
pub proof fn lemma_truncation_insufficient(b: Seq<u8>, ed: Edition, depth: nat, j: int)
    requires
        0 <= j <= b.len(),
    ensures
        spec_decode_named_tag(b, ed, depth) matches Ok((v, k)) ==> {
            &&& j < k ==> (spec_decode_named_tag(b.take(j), ed, depth) matches Err(e2)
                && e2.0 == DecodeError::InsufficientData)
            &&& k <= j ==> spec_decode_named_tag(b.take(j), ed, depth) == spec_decode_named_tag(
                b,
                ed,
                depth,
            )
        },
{
    lemma_prefix_tag(b, j);
    if spec_decode_tag(b) is Ok {
        let (t, kt) = spec_decode_tag(b)->Ok_0;
        if t != Tag::End && j >= kt {
            lemma_take_skip(b, kt as int, j);
            lemma_prefix_string(b.skip(kt as int), ed, j - kt);
            if spec_decode_string(b.skip(kt as int), ed) is Ok {
                let (name, kn) = spec_decode_string(b.skip(kt as int), ed)->Ok_0;
                if j >= kt + kn {
                    lemma_take_skip(b, kt as int + kn as int, j);
                    assert(b.take(j).skip(kt as int).skip(kn as int) =~= b.take(j).skip(
                        kt as int + kn as int,
                    ));
                    lemma_prefix_payload(
                        t,
                        b.skip(kt as int + kn as int),
                        ed,
                        depth,
                        j - kt - kn,
                    );
                }
            }
        }
    }
}

/// The canonical deeply nested compound body: `n` unnamed compound
/// entries opened inside one another, then the matching `End` bytes.
pub open spec fn spec_nested_compound(n: nat) -> Seq<u8>
    decreases n,
{
    if n == 0 {
        seq![0u8]
    } else {
        seq![10u8, 0u8, 0u8].add(spec_nested_compound((n - 1) as nat)).push(0u8)
    }
}

/// Helper: a compound body nested deeper than the remaining budget fails
/// with the depth-limit error.
proof fn lemma_nested_compound_exceeds(
    n: nat,
    ed: Edition,
    depth: nat,
    acc: Map<Seq<u8>, PayloadV>,
    used: nat,
    tail: Seq<u8>,
)
    requires
        n > depth,
    ensures
        spec_decode_compound(spec_nested_compound(n).add(tail), ed, depth, acc, used) matches
            Err(e2) && e2.0 == DecodeError::DepthLimitExceeded,
    decreases n,
{
    let b = spec_nested_compound(n).add(tail);
    let inner = spec_nested_compound((n - 1) as nat);
    assert(b[0] == 10);
    assert(b[1] == 0);
    assert(b[2] == 0);
    assert(spec_decode_tag(b) == Ok::<(Tag, nat), (DecodeError, nat)>((Tag::Compound, 1nat)));
    assert(b.skip(1).take(2) =~= seq![0u8, 0u8]);
    assert(spec_decode_u16(b.skip(1), ed) == Ok::<(u16, nat), (DecodeError, nat)>((0u16, 2nat)));
    assert(b.skip(1).subrange(2, 2) =~= Seq::<u8>::empty());
    assert(spec_decode_string(b.skip(1), ed) == Ok::<(Seq<u8>, nat), (DecodeError, nat)>(
        (Seq::<u8>::empty(), 2nat),
    ));
    if depth > 0 {
        assert(b.skip(3) =~= inner.add(seq![0u8].add(tail)));
        lemma_nested_compound_exceeds(
            (n - 1) as nat,
            ed,
            (depth - 1) as nat,
            Map::empty(),
            0,
            seq![0u8].add(tail),
        );
        assert(spec_decode_compound(b.skip(3), ed, (depth - 1) as nat, Map::empty(), 0) matches
            Err(e2) && e2.0 == DecodeError::DepthLimitExceeded);
    }
    assert(spec_decode_payload(Tag::Compound, b.skip(3), ed, depth) matches Err(e2)
        && e2.0 == DecodeError::DepthLimitExceeded);
}

/// **Deep nesting safety**: a compound payload nested deeper than the
/// remaining nesting budget fails closed with the depth-limit error,
/// whatever bytes follow; it never yields a partial tree.
pub proof fn lemma_deep_nesting_fails_closed(n: nat, ed: Edition, depth: nat, tail: Seq<u8>)
    requires
        n >= depth,
    ensures
        spec_decode_payload(Tag::Compound, spec_nested_compound(n).add(tail), ed, depth) matches
            Err(e2) && e2.0 == DecodeError::DepthLimitExceeded,
{
    if depth > 0 {
        lemma_nested_compound_exceeds(n, ed, (depth - 1) as nat, Map::empty(), 0, tail);
    }
}

} // verus!
