use crate::bittable::Bittable;
use crate::error::CustomIdError;
use crate::uint::{lemma_uint_value_bit, uint_value};
use vstd::prelude::*;

verus! {

/// A `bool` is written as the one bit it is.
pub proof fn lemma_bool_layout(v: bool)
    ensures
        <bool as Bittable>::spec_bits(v) == seq![v],
{
}

/// Reading a `bool` takes one bit: the bit at `pos`, or `false` when `pos`
/// is the end of the bits; past the end nothing is read.
pub proof fn lemma_bool_read(bits: Seq<bool>, pos: int)
    ensures
        (pos < 0 || pos > bits.len()) ==> <bool as Bittable>::spec_read(bits, pos) is None,
        pos == bits.len() ==> <bool as Bittable>::spec_read(bits, pos) == Some(
            Ok::<(int, bool), CustomIdError>((1, false)),
        ),
        0 <= pos < bits.len() ==> <bool as Bittable>::spec_read(bits, pos) == Some(
            Ok::<(int, bool), CustomIdError>((1, bits[pos])),
        ),
{
}

/// Bit `k` of a `u8` is bit `k` of its widening to `u128`, and bit `k` of
/// a `u128` survives narrowing to a `u8`.
proof fn lemma_u8_bit(x: u128, v: u8, k: u8)
    by (bit_vector)
    requires
        k < 8,
    ensures
        (((v as u128) >> (k as u128)) & 1 == 1) == (((v as u8) >> k) & 1 == 1),
        ((((x as u8) as u8) >> k) & 1 == 1) == ((x >> (k as u128)) & 1 == 1),
{
}

/// The bits written for a `u8` are its 8 bits (two's complement for
/// signed types), least significant first: bit `k` of the run is bit `k` of
/// the value.
pub proof fn lemma_u8_layout(v: u8)
    ensures
        <u8 as Bittable>::spec_bits(v).len() == 8,
        forall|k: int|
            0 <= k < 8 ==> #[trigger] <u8 as Bittable>::spec_bits(v)[k] == (((v as u8) >> (
            k as u8)) & 1 == 1),
{
    assert forall|k: int| 0 <= k < 8 implies #[trigger] <u8 as Bittable>::spec_bits(v)[k] == (((v
        as u8) >> (k as u8)) & 1 == 1) by {
        lemma_u8_bit(0, v, k as u8);
    }
}

/// Reading a `u8` at `pos`: past the end nothing is read; with fewer than
/// 8 bits left it fails; otherwise it takes 8 bits, and bit `k` of
/// the value read is the bit at `pos + k`.
pub proof fn lemma_u8_read(bits: Seq<bool>, pos: int)
    ensures
        (pos < 0 || pos > bits.len()) ==> <u8 as Bittable>::spec_read(bits, pos) is None,
        0 <= pos <= bits.len() < pos + 8 ==> <u8 as Bittable>::spec_read(bits, pos) == Some(
            Err::<(int, u8), CustomIdError>(CustomIdError::DeserializationFailed),
        ),
        0 <= pos && pos + 8 <= bits.len() ==> (<u8 as Bittable>::spec_read(bits, pos) matches Some(
            Ok((n, x)),
        ) && n == 8 && forall|k: int|
            0 <= k < 8 ==> (((x as u8) >> (k as u8)) & 1 == 1) == #[trigger] bits[pos + k]),
{
    if 0 <= pos && pos + 8 <= bits.len() {
        let sub = bits.subrange(pos, pos + 8);
        lemma_uint_value_bit(sub);
        let y = uint_value(sub);
        assert forall|k: int| 0 <= k < 8 implies ((((y as u8) as u8) >> (k as u8)) & 1 == 1)
            == #[trigger] bits[pos + k] by {
            assert(sub[k] == bits[pos + k]);
            lemma_u8_bit(y, 0, k as u8);
        }
    }
}

/// Bit `k` of a `i8` is bit `k` of its widening to `u128`, and bit `k` of
/// a `u128` survives narrowing to a `i8`.
proof fn lemma_i8_bit(x: u128, v: i8, k: u8)
    by (bit_vector)
    requires
        k < 8,
    ensures
        (((v as u128) >> (k as u128)) & 1 == 1) == (((v as u8) >> k) & 1 == 1),
        ((((x as i8) as u8) >> k) & 1 == 1) == ((x >> (k as u128)) & 1 == 1),
{
}

/// The bits written for a `i8` are its 8 bits (two's complement for
/// signed types), least significant first: bit `k` of the run is bit `k` of
/// the value.
pub proof fn lemma_i8_layout(v: i8)
    ensures
        <i8 as Bittable>::spec_bits(v).len() == 8,
        forall|k: int|
            0 <= k < 8 ==> #[trigger] <i8 as Bittable>::spec_bits(v)[k] == (((v as u8) >> (
            k as u8)) & 1 == 1),
{
    assert forall|k: int| 0 <= k < 8 implies #[trigger] <i8 as Bittable>::spec_bits(v)[k] == (((v
        as u8) >> (k as u8)) & 1 == 1) by {
        lemma_i8_bit(0, v, k as u8);
    }
}

/// Reading a `i8` at `pos`: past the end nothing is read; with fewer than
/// 8 bits left it fails; otherwise it takes 8 bits, and bit `k` of
/// the value read is the bit at `pos + k`.
pub proof fn lemma_i8_read(bits: Seq<bool>, pos: int)
    ensures
        (pos < 0 || pos > bits.len()) ==> <i8 as Bittable>::spec_read(bits, pos) is None,
        0 <= pos <= bits.len() < pos + 8 ==> <i8 as Bittable>::spec_read(bits, pos) == Some(
            Err::<(int, i8), CustomIdError>(CustomIdError::DeserializationFailed),
        ),
        0 <= pos && pos + 8 <= bits.len() ==> (<i8 as Bittable>::spec_read(bits, pos) matches Some(
            Ok((n, x)),
        ) && n == 8 && forall|k: int|
            0 <= k < 8 ==> (((x as u8) >> (k as u8)) & 1 == 1) == #[trigger] bits[pos + k]),
{
    if 0 <= pos && pos + 8 <= bits.len() {
        let sub = bits.subrange(pos, pos + 8);
        lemma_uint_value_bit(sub);
        let y = uint_value(sub);
        assert forall|k: int| 0 <= k < 8 implies ((((y as i8) as u8) >> (k as u8)) & 1 == 1)
            == #[trigger] bits[pos + k] by {
            assert(sub[k] == bits[pos + k]);
            lemma_i8_bit(y, 0, k as u8);
        }
    }
}

/// Bit `k` of a `u16` is bit `k` of its widening to `u128`, and bit `k` of
/// a `u128` survives narrowing to a `u16`.
proof fn lemma_u16_bit(x: u128, v: u16, k: u16)
    by (bit_vector)
    requires
        k < 16,
    ensures
        (((v as u128) >> (k as u128)) & 1 == 1) == (((v as u16) >> k) & 1 == 1),
        ((((x as u16) as u16) >> k) & 1 == 1) == ((x >> (k as u128)) & 1 == 1),
{
}

/// The bits written for a `u16` are its 16 bits (two's complement for
/// signed types), least significant first: bit `k` of the run is bit `k` of
/// the value.
pub proof fn lemma_u16_layout(v: u16)
    ensures
        <u16 as Bittable>::spec_bits(v).len() == 16,
        forall|k: int|
            0 <= k < 16 ==> #[trigger] <u16 as Bittable>::spec_bits(v)[k] == (((v as u16) >> (
            k as u16)) & 1 == 1),
{
    assert forall|k: int| 0 <= k < 16 implies #[trigger] <u16 as Bittable>::spec_bits(v)[k] == (((v
        as u16) >> (k as u16)) & 1 == 1) by {
        lemma_u16_bit(0, v, k as u16);
    }
}

/// Reading a `u16` at `pos`: past the end nothing is read; with fewer than
/// 16 bits left it fails; otherwise it takes 16 bits, and bit `k` of
/// the value read is the bit at `pos + k`.
pub proof fn lemma_u16_read(bits: Seq<bool>, pos: int)
    ensures
        (pos < 0 || pos > bits.len()) ==> <u16 as Bittable>::spec_read(bits, pos) is None,
        0 <= pos <= bits.len() < pos + 16 ==> <u16 as Bittable>::spec_read(bits, pos) == Some(
            Err::<(int, u16), CustomIdError>(CustomIdError::DeserializationFailed),
        ),
        0 <= pos && pos + 16 <= bits.len() ==> (<u16 as Bittable>::spec_read(bits, pos) matches Some(
            Ok((n, x)),
        ) && n == 16 && forall|k: int|
            0 <= k < 16 ==> (((x as u16) >> (k as u16)) & 1 == 1) == #[trigger] bits[pos + k]),
{
    if 0 <= pos && pos + 16 <= bits.len() {
        let sub = bits.subrange(pos, pos + 16);
        lemma_uint_value_bit(sub);
        let y = uint_value(sub);
        assert forall|k: int| 0 <= k < 16 implies ((((y as u16) as u16) >> (k as u16)) & 1 == 1)
            == #[trigger] bits[pos + k] by {
            assert(sub[k] == bits[pos + k]);
            lemma_u16_bit(y, 0, k as u16);
        }
    }
}

/// Bit `k` of a `i16` is bit `k` of its widening to `u128`, and bit `k` of
/// a `u128` survives narrowing to a `i16`.
proof fn lemma_i16_bit(x: u128, v: i16, k: u16)
    by (bit_vector)
    requires
        k < 16,
    ensures
        (((v as u128) >> (k as u128)) & 1 == 1) == (((v as u16) >> k) & 1 == 1),
        ((((x as i16) as u16) >> k) & 1 == 1) == ((x >> (k as u128)) & 1 == 1),
{
}

/// The bits written for a `i16` are its 16 bits (two's complement for
/// signed types), least significant first: bit `k` of the run is bit `k` of
/// the value.
pub proof fn lemma_i16_layout(v: i16)
    ensures
        <i16 as Bittable>::spec_bits(v).len() == 16,
        forall|k: int|
            0 <= k < 16 ==> #[trigger] <i16 as Bittable>::spec_bits(v)[k] == (((v as u16) >> (
            k as u16)) & 1 == 1),
{
    assert forall|k: int| 0 <= k < 16 implies #[trigger] <i16 as Bittable>::spec_bits(v)[k] == (((v
        as u16) >> (k as u16)) & 1 == 1) by {
        lemma_i16_bit(0, v, k as u16);
    }
}

/// Reading a `i16` at `pos`: past the end nothing is read; with fewer than
/// 16 bits left it fails; otherwise it takes 16 bits, and bit `k` of
/// the value read is the bit at `pos + k`.
pub proof fn lemma_i16_read(bits: Seq<bool>, pos: int)
    ensures
        (pos < 0 || pos > bits.len()) ==> <i16 as Bittable>::spec_read(bits, pos) is None,
        0 <= pos <= bits.len() < pos + 16 ==> <i16 as Bittable>::spec_read(bits, pos) == Some(
            Err::<(int, i16), CustomIdError>(CustomIdError::DeserializationFailed),
        ),
        0 <= pos && pos + 16 <= bits.len() ==> (<i16 as Bittable>::spec_read(bits, pos) matches Some(
            Ok((n, x)),
        ) && n == 16 && forall|k: int|
            0 <= k < 16 ==> (((x as u16) >> (k as u16)) & 1 == 1) == #[trigger] bits[pos + k]),
{
    if 0 <= pos && pos + 16 <= bits.len() {
        let sub = bits.subrange(pos, pos + 16);
        lemma_uint_value_bit(sub);
        let y = uint_value(sub);
        assert forall|k: int| 0 <= k < 16 implies ((((y as i16) as u16) >> (k as u16)) & 1 == 1)
            == #[trigger] bits[pos + k] by {
            assert(sub[k] == bits[pos + k]);
            lemma_i16_bit(y, 0, k as u16);
        }
    }
}

/// Bit `k` of a `u32` is bit `k` of its widening to `u128`, and bit `k` of
/// a `u128` survives narrowing to a `u32`.
proof fn lemma_u32_bit(x: u128, v: u32, k: u32)
    by (bit_vector)
    requires
        k < 32,
    ensures
        (((v as u128) >> (k as u128)) & 1 == 1) == (((v as u32) >> k) & 1 == 1),
        ((((x as u32) as u32) >> k) & 1 == 1) == ((x >> (k as u128)) & 1 == 1),
{
}

/// The bits written for a `u32` are its 32 bits (two's complement for
/// signed types), least significant first: bit `k` of the run is bit `k` of
/// the value.
pub proof fn lemma_u32_layout(v: u32)
    ensures
        <u32 as Bittable>::spec_bits(v).len() == 32,
        forall|k: int|
            0 <= k < 32 ==> #[trigger] <u32 as Bittable>::spec_bits(v)[k] == (((v as u32) >> (
            k as u32)) & 1 == 1),
{
    assert forall|k: int| 0 <= k < 32 implies #[trigger] <u32 as Bittable>::spec_bits(v)[k] == (((v
        as u32) >> (k as u32)) & 1 == 1) by {
        lemma_u32_bit(0, v, k as u32);
    }
}

/// Reading a `u32` at `pos`: past the end nothing is read; with fewer than
/// 32 bits left it fails; otherwise it takes 32 bits, and bit `k` of
/// the value read is the bit at `pos + k`.
pub proof fn lemma_u32_read(bits: Seq<bool>, pos: int)
    ensures
        (pos < 0 || pos > bits.len()) ==> <u32 as Bittable>::spec_read(bits, pos) is None,
        0 <= pos <= bits.len() < pos + 32 ==> <u32 as Bittable>::spec_read(bits, pos) == Some(
            Err::<(int, u32), CustomIdError>(CustomIdError::DeserializationFailed),
        ),
        0 <= pos && pos + 32 <= bits.len() ==> (<u32 as Bittable>::spec_read(bits, pos) matches Some(
            Ok((n, x)),
        ) && n == 32 && forall|k: int|
            0 <= k < 32 ==> (((x as u32) >> (k as u32)) & 1 == 1) == #[trigger] bits[pos + k]),
{
    if 0 <= pos && pos + 32 <= bits.len() {
        let sub = bits.subrange(pos, pos + 32);
        lemma_uint_value_bit(sub);
        let y = uint_value(sub);
        assert forall|k: int| 0 <= k < 32 implies ((((y as u32) as u32) >> (k as u32)) & 1 == 1)
            == #[trigger] bits[pos + k] by {
            assert(sub[k] == bits[pos + k]);
            lemma_u32_bit(y, 0, k as u32);
        }
    }
}

/// Bit `k` of a `i32` is bit `k` of its widening to `u128`, and bit `k` of
/// a `u128` survives narrowing to a `i32`.
proof fn lemma_i32_bit(x: u128, v: i32, k: u32)
    by (bit_vector)
    requires
        k < 32,
    ensures
        (((v as u128) >> (k as u128)) & 1 == 1) == (((v as u32) >> k) & 1 == 1),
        ((((x as i32) as u32) >> k) & 1 == 1) == ((x >> (k as u128)) & 1 == 1),
{
}

/// The bits written for a `i32` are its 32 bits (two's complement for
/// signed types), least significant first: bit `k` of the run is bit `k` of
/// the value.
pub proof fn lemma_i32_layout(v: i32)
    ensures
        <i32 as Bittable>::spec_bits(v).len() == 32,
        forall|k: int|
            0 <= k < 32 ==> #[trigger] <i32 as Bittable>::spec_bits(v)[k] == (((v as u32) >> (
            k as u32)) & 1 == 1),
{
    assert forall|k: int| 0 <= k < 32 implies #[trigger] <i32 as Bittable>::spec_bits(v)[k] == (((v
        as u32) >> (k as u32)) & 1 == 1) by {
        lemma_i32_bit(0, v, k as u32);
    }
}

/// Reading a `i32` at `pos`: past the end nothing is read; with fewer than
/// 32 bits left it fails; otherwise it takes 32 bits, and bit `k` of
/// the value read is the bit at `pos + k`.
pub proof fn lemma_i32_read(bits: Seq<bool>, pos: int)
    ensures
        (pos < 0 || pos > bits.len()) ==> <i32 as Bittable>::spec_read(bits, pos) is None,
        0 <= pos <= bits.len() < pos + 32 ==> <i32 as Bittable>::spec_read(bits, pos) == Some(
            Err::<(int, i32), CustomIdError>(CustomIdError::DeserializationFailed),
        ),
        0 <= pos && pos + 32 <= bits.len() ==> (<i32 as Bittable>::spec_read(bits, pos) matches Some(
            Ok((n, x)),
        ) && n == 32 && forall|k: int|
            0 <= k < 32 ==> (((x as u32) >> (k as u32)) & 1 == 1) == #[trigger] bits[pos + k]),
{
    if 0 <= pos && pos + 32 <= bits.len() {
        let sub = bits.subrange(pos, pos + 32);
        lemma_uint_value_bit(sub);
        let y = uint_value(sub);
        assert forall|k: int| 0 <= k < 32 implies ((((y as i32) as u32) >> (k as u32)) & 1 == 1)
            == #[trigger] bits[pos + k] by {
            assert(sub[k] == bits[pos + k]);
            lemma_i32_bit(y, 0, k as u32);
        }
    }
}

/// Bit `k` of a `u64` is bit `k` of its widening to `u128`, and bit `k` of
/// a `u128` survives narrowing to a `u64`.
proof fn lemma_u64_bit(x: u128, v: u64, k: u64)
    by (bit_vector)
    requires
        k < 64,
    ensures
        (((v as u128) >> (k as u128)) & 1 == 1) == (((v as u64) >> k) & 1 == 1),
        ((((x as u64) as u64) >> k) & 1 == 1) == ((x >> (k as u128)) & 1 == 1),
{
}

/// The bits written for a `u64` are its 64 bits (two's complement for
/// signed types), least significant first: bit `k` of the run is bit `k` of
/// the value.
pub proof fn lemma_u64_layout(v: u64)
    ensures
        <u64 as Bittable>::spec_bits(v).len() == 64,
        forall|k: int|
            0 <= k < 64 ==> #[trigger] <u64 as Bittable>::spec_bits(v)[k] == (((v as u64) >> (
            k as u64)) & 1 == 1),
{
    assert forall|k: int| 0 <= k < 64 implies #[trigger] <u64 as Bittable>::spec_bits(v)[k] == (((v
        as u64) >> (k as u64)) & 1 == 1) by {
        lemma_u64_bit(0, v, k as u64);
    }
}

/// Reading a `u64` at `pos`: past the end nothing is read; with fewer than
/// 64 bits left it fails; otherwise it takes 64 bits, and bit `k` of
/// the value read is the bit at `pos + k`.
pub proof fn lemma_u64_read(bits: Seq<bool>, pos: int)
    ensures
        (pos < 0 || pos > bits.len()) ==> <u64 as Bittable>::spec_read(bits, pos) is None,
        0 <= pos <= bits.len() < pos + 64 ==> <u64 as Bittable>::spec_read(bits, pos) == Some(
            Err::<(int, u64), CustomIdError>(CustomIdError::DeserializationFailed),
        ),
        0 <= pos && pos + 64 <= bits.len() ==> (<u64 as Bittable>::spec_read(bits, pos) matches Some(
            Ok((n, x)),
        ) && n == 64 && forall|k: int|
            0 <= k < 64 ==> (((x as u64) >> (k as u64)) & 1 == 1) == #[trigger] bits[pos + k]),
{
    if 0 <= pos && pos + 64 <= bits.len() {
        let sub = bits.subrange(pos, pos + 64);
        lemma_uint_value_bit(sub);
        let y = uint_value(sub);
        assert forall|k: int| 0 <= k < 64 implies ((((y as u64) as u64) >> (k as u64)) & 1 == 1)
            == #[trigger] bits[pos + k] by {
            assert(sub[k] == bits[pos + k]);
            lemma_u64_bit(y, 0, k as u64);
        }
    }
}

/// Bit `k` of a `i64` is bit `k` of its widening to `u128`, and bit `k` of
/// a `u128` survives narrowing to a `i64`.
proof fn lemma_i64_bit(x: u128, v: i64, k: u64)
    by (bit_vector)
    requires
        k < 64,
    ensures
        (((v as u128) >> (k as u128)) & 1 == 1) == (((v as u64) >> k) & 1 == 1),
        ((((x as i64) as u64) >> k) & 1 == 1) == ((x >> (k as u128)) & 1 == 1),
{
}

/// The bits written for a `i64` are its 64 bits (two's complement for
/// signed types), least significant first: bit `k` of the run is bit `k` of
/// the value.
pub proof fn lemma_i64_layout(v: i64)
    ensures
        <i64 as Bittable>::spec_bits(v).len() == 64,
        forall|k: int|
            0 <= k < 64 ==> #[trigger] <i64 as Bittable>::spec_bits(v)[k] == (((v as u64) >> (
            k as u64)) & 1 == 1),
{
    assert forall|k: int| 0 <= k < 64 implies #[trigger] <i64 as Bittable>::spec_bits(v)[k] == (((v
        as u64) >> (k as u64)) & 1 == 1) by {
        lemma_i64_bit(0, v, k as u64);
    }
}

/// Reading a `i64` at `pos`: past the end nothing is read; with fewer than
/// 64 bits left it fails; otherwise it takes 64 bits, and bit `k` of
/// the value read is the bit at `pos + k`.
pub proof fn lemma_i64_read(bits: Seq<bool>, pos: int)
    ensures
        (pos < 0 || pos > bits.len()) ==> <i64 as Bittable>::spec_read(bits, pos) is None,
        0 <= pos <= bits.len() < pos + 64 ==> <i64 as Bittable>::spec_read(bits, pos) == Some(
            Err::<(int, i64), CustomIdError>(CustomIdError::DeserializationFailed),
        ),
        0 <= pos && pos + 64 <= bits.len() ==> (<i64 as Bittable>::spec_read(bits, pos) matches Some(
            Ok((n, x)),
        ) && n == 64 && forall|k: int|
            0 <= k < 64 ==> (((x as u64) >> (k as u64)) & 1 == 1) == #[trigger] bits[pos + k]),
{
    if 0 <= pos && pos + 64 <= bits.len() {
        let sub = bits.subrange(pos, pos + 64);
        lemma_uint_value_bit(sub);
        let y = uint_value(sub);
        assert forall|k: int| 0 <= k < 64 implies ((((y as i64) as u64) >> (k as u64)) & 1 == 1)
            == #[trigger] bits[pos + k] by {
            assert(sub[k] == bits[pos + k]);
            lemma_i64_bit(y, 0, k as u64);
        }
    }
}

/// Bit `k` of a `u128` is bit `k` of its widening to `u128`, and bit `k` of
/// a `u128` survives narrowing to a `u128`.
proof fn lemma_u128_bit(x: u128, v: u128, k: u128)
    by (bit_vector)
    requires
        k < 128,
    ensures
        (((v as u128) >> (k as u128)) & 1 == 1) == (((v as u128) >> k) & 1 == 1),
        ((((x as u128) as u128) >> k) & 1 == 1) == ((x >> (k as u128)) & 1 == 1),
{
}

/// The bits written for a `u128` are its 128 bits (two's complement for
/// signed types), least significant first: bit `k` of the run is bit `k` of
/// the value.
pub proof fn lemma_u128_layout(v: u128)
    ensures
        <u128 as Bittable>::spec_bits(v).len() == 128,
        forall|k: int|
            0 <= k < 128 ==> #[trigger] <u128 as Bittable>::spec_bits(v)[k] == (((v as u128) >> (
            k as u128)) & 1 == 1),
{
    assert forall|k: int| 0 <= k < 128 implies #[trigger] <u128 as Bittable>::spec_bits(v)[k] == (((v
        as u128) >> (k as u128)) & 1 == 1) by {
        lemma_u128_bit(0, v, k as u128);
    }
}

/// Reading a `u128` at `pos`: past the end nothing is read; with fewer than
/// 128 bits left it fails; otherwise it takes 128 bits, and bit `k` of
/// the value read is the bit at `pos + k`.
pub proof fn lemma_u128_read(bits: Seq<bool>, pos: int)
    ensures
        (pos < 0 || pos > bits.len()) ==> <u128 as Bittable>::spec_read(bits, pos) is None,
        0 <= pos <= bits.len() < pos + 128 ==> <u128 as Bittable>::spec_read(bits, pos) == Some(
            Err::<(int, u128), CustomIdError>(CustomIdError::DeserializationFailed),
        ),
        0 <= pos && pos + 128 <= bits.len() ==> (<u128 as Bittable>::spec_read(bits, pos) matches Some(
            Ok((n, x)),
        ) && n == 128 && forall|k: int|
            0 <= k < 128 ==> (((x as u128) >> (k as u128)) & 1 == 1) == #[trigger] bits[pos + k]),
{
    if 0 <= pos && pos + 128 <= bits.len() {
        let sub = bits.subrange(pos, pos + 128);
        lemma_uint_value_bit(sub);
        let y = uint_value(sub);
        assert forall|k: int| 0 <= k < 128 implies ((((y as u128) as u128) >> (k as u128)) & 1 == 1)
            == #[trigger] bits[pos + k] by {
            assert(sub[k] == bits[pos + k]);
            lemma_u128_bit(y, 0, k as u128);
        }
    }
}

/// Bit `k` of a `i128` is bit `k` of its widening to `u128`, and bit `k` of
/// a `u128` survives narrowing to a `i128`.
proof fn lemma_i128_bit(x: u128, v: i128, k: u128)
    by (bit_vector)
    requires
        k < 128,
    ensures
        (((v as u128) >> (k as u128)) & 1 == 1) == (((v as u128) >> k) & 1 == 1),
        ((((x as i128) as u128) >> k) & 1 == 1) == ((x >> (k as u128)) & 1 == 1),
{
}

/// The bits written for a `i128` are its 128 bits (two's complement for
/// signed types), least significant first: bit `k` of the run is bit `k` of
/// the value.
pub proof fn lemma_i128_layout(v: i128)
    ensures
        <i128 as Bittable>::spec_bits(v).len() == 128,
        forall|k: int|
            0 <= k < 128 ==> #[trigger] <i128 as Bittable>::spec_bits(v)[k] == (((v as u128) >> (
            k as u128)) & 1 == 1),
{
    assert forall|k: int| 0 <= k < 128 implies #[trigger] <i128 as Bittable>::spec_bits(v)[k] == (((v
        as u128) >> (k as u128)) & 1 == 1) by {
        lemma_i128_bit(0, v, k as u128);
    }
}

/// Reading a `i128` at `pos`: past the end nothing is read; with fewer than
/// 128 bits left it fails; otherwise it takes 128 bits, and bit `k` of
/// the value read is the bit at `pos + k`.
pub proof fn lemma_i128_read(bits: Seq<bool>, pos: int)
    ensures
        (pos < 0 || pos > bits.len()) ==> <i128 as Bittable>::spec_read(bits, pos) is None,
        0 <= pos <= bits.len() < pos + 128 ==> <i128 as Bittable>::spec_read(bits, pos) == Some(
            Err::<(int, i128), CustomIdError>(CustomIdError::DeserializationFailed),
        ),
        0 <= pos && pos + 128 <= bits.len() ==> (<i128 as Bittable>::spec_read(bits, pos) matches Some(
            Ok((n, x)),
        ) && n == 128 && forall|k: int|
            0 <= k < 128 ==> (((x as u128) >> (k as u128)) & 1 == 1) == #[trigger] bits[pos + k]),
{
    if 0 <= pos && pos + 128 <= bits.len() {
        let sub = bits.subrange(pos, pos + 128);
        lemma_uint_value_bit(sub);
        let y = uint_value(sub);
        assert forall|k: int| 0 <= k < 128 implies ((((y as i128) as u128) >> (k as u128)) & 1 == 1)
            == #[trigger] bits[pos + k] by {
            assert(sub[k] == bits[pos + k]);
            lemma_i128_bit(y, 0, k as u128);
        }
    }
}

/// Bit `k` of a `usize` is bit `k` of its widening to `u128`, and bit `k` of
/// a `u128` survives narrowing to a `usize`.
proof fn lemma_usize_bit(x: u128, v: usize, k: usize)
    by (bit_vector)
    requires
        k < usize::BITS,
    ensures
        (((v as u128) >> (k as u128)) & 1 == 1) == (((v as usize) >> k) & 1 == 1),
        ((((x as usize) as usize) >> k) & 1 == 1) == ((x >> (k as u128)) & 1 == 1),
{
}

/// The bits written for a `usize` are its `usize::BITS` bits (two's complement for
/// signed types), least significant first: bit `k` of the run is bit `k` of
/// the value.
pub proof fn lemma_usize_layout(v: usize)
    ensures
        <usize as Bittable>::spec_bits(v).len() == usize::BITS,
        forall|k: int|
            0 <= k < usize::BITS ==> #[trigger] <usize as Bittable>::spec_bits(v)[k] == (((v as usize) >> (
            k as usize)) & 1 == 1),
{
    assert forall|k: int| 0 <= k < usize::BITS implies #[trigger] <usize as Bittable>::spec_bits(v)[k] == (((v
        as usize) >> (k as usize)) & 1 == 1) by {
        lemma_usize_bit(0, v, k as usize);
    }
}

/// Reading a `usize` at `pos`: past the end nothing is read; with fewer than
/// `usize::BITS` bits left it fails; otherwise it takes `usize::BITS` bits, and bit `k` of
/// the value read is the bit at `pos + k`.
pub proof fn lemma_usize_read(bits: Seq<bool>, pos: int)
    ensures
        (pos < 0 || pos > bits.len()) ==> <usize as Bittable>::spec_read(bits, pos) is None,
        0 <= pos <= bits.len() < pos + usize::BITS ==> <usize as Bittable>::spec_read(bits, pos) == Some(
            Err::<(int, usize), CustomIdError>(CustomIdError::DeserializationFailed),
        ),
        0 <= pos && pos + usize::BITS <= bits.len() ==> (<usize as Bittable>::spec_read(bits, pos) matches Some(
            Ok((n, x)),
        ) && n == usize::BITS && forall|k: int|
            0 <= k < usize::BITS ==> (((x as usize) >> (k as usize)) & 1 == 1) == #[trigger] bits[pos + k]),
{
    if 0 <= pos && pos + usize::BITS <= bits.len() {
        let sub = bits.subrange(pos, pos + usize::BITS);
        lemma_uint_value_bit(sub);
        let y = uint_value(sub);
        assert forall|k: int| 0 <= k < usize::BITS implies ((((y as usize) as usize) >> (k as usize)) & 1 == 1)
            == #[trigger] bits[pos + k] by {
            assert(sub[k] == bits[pos + k]);
            lemma_usize_bit(y, 0, k as usize);
        }
    }
}

/// Bit `k` of a `isize` is bit `k` of its widening to `u128`, and bit `k` of
/// a `u128` survives narrowing to a `isize`.
proof fn lemma_isize_bit(x: u128, v: isize, k: usize)
    by (bit_vector)
    requires
        k < usize::BITS,
    ensures
        (((v as u128) >> (k as u128)) & 1 == 1) == (((v as usize) >> k) & 1 == 1),
        ((((x as isize) as usize) >> k) & 1 == 1) == ((x >> (k as u128)) & 1 == 1),
{
}

/// The bits written for a `isize` are its `usize::BITS` bits (two's complement for
/// signed types), least significant first: bit `k` of the run is bit `k` of
/// the value.
pub proof fn lemma_isize_layout(v: isize)
    ensures
        <isize as Bittable>::spec_bits(v).len() == usize::BITS,
        forall|k: int|
            0 <= k < usize::BITS ==> #[trigger] <isize as Bittable>::spec_bits(v)[k] == (((v as usize) >> (
            k as usize)) & 1 == 1),
{
    assert forall|k: int| 0 <= k < usize::BITS implies #[trigger] <isize as Bittable>::spec_bits(v)[k] == (((v
        as usize) >> (k as usize)) & 1 == 1) by {
        lemma_isize_bit(0, v, k as usize);
    }
}

/// Reading a `isize` at `pos`: past the end nothing is read; with fewer than
/// `usize::BITS` bits left it fails; otherwise it takes `usize::BITS` bits, and bit `k` of
/// the value read is the bit at `pos + k`.
pub proof fn lemma_isize_read(bits: Seq<bool>, pos: int)
    ensures
        (pos < 0 || pos > bits.len()) ==> <isize as Bittable>::spec_read(bits, pos) is None,
        0 <= pos <= bits.len() < pos + usize::BITS ==> <isize as Bittable>::spec_read(bits, pos) == Some(
            Err::<(int, isize), CustomIdError>(CustomIdError::DeserializationFailed),
        ),
        0 <= pos && pos + usize::BITS <= bits.len() ==> (<isize as Bittable>::spec_read(bits, pos) matches Some(
            Ok((n, x)),
        ) && n == usize::BITS && forall|k: int|
            0 <= k < usize::BITS ==> (((x as usize) >> (k as usize)) & 1 == 1) == #[trigger] bits[pos + k]),
{
    if 0 <= pos && pos + usize::BITS <= bits.len() {
        let sub = bits.subrange(pos, pos + usize::BITS);
        lemma_uint_value_bit(sub);
        let y = uint_value(sub);
        assert forall|k: int| 0 <= k < usize::BITS implies ((((y as isize) as usize) >> (k as usize)) & 1 == 1)
            == #[trigger] bits[pos + k] by {
            assert(sub[k] == bits[pos + k]);
            lemma_isize_bit(y, 0, k as usize);
        }
    }
}

} // verus!
