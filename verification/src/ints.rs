use crate::bits::{bit_seq, BitBuffer};
use crate::bittable::{spliced, Bittable};
use crate::error::CustomIdError;
use crate::uint::{lemma_uint_value_bits, low_mask, read_uint_at, uint_bits, uint_read, write_uint};
use vstd::prelude::*;

verus! {

impl Bittable for bool {
    /// One bit.
    open spec fn spec_bits(v: bool) -> Seq<bool> {
        seq![v]
    }

    open spec fn spec_fits(v: bool) -> bool {
        true
    }

    /// A bool reads the bit at `pos`, or `false` when `pos` is the end; it
    /// always counts one bit taken.
    open spec fn spec_read(bits: Seq<bool>, pos: int) -> Option<Result<(int, bool), CustomIdError>> {
        if pos < 0 || pos > bits.len() {
            None
        } else if pos == bits.len() {
            Some(Ok((1, false)))
        } else {
            Some(Ok((1, bits[pos])))
        }
    }

    proof fn lemma_read_back(v: bool, bits: Seq<bool>, pos: int) {
        assert(bits[pos] == bits.subrange(pos, pos + 1)[0]);
    }

    proof fn lemma_read_extent(bits: Seq<bool>, pos: int) {
    }

    fn bit_count(&self) -> (n: usize) {
        1
    }

    fn write_bits(&self, dest: &mut BitBuffer, pos: usize) -> (n: usize) {
        let ghost old_bits = bit_seq(*dest);
        dest.set(pos, *self);
        assert(bit_seq(*dest) =~= spliced(old_bits, pos as int, seq![*self]));
        1
    }

    fn read_bits(bits: &BitBuffer, pos: usize) -> (r: Option<Result<(usize, bool), CustomIdError>>) {
        if pos > bits.len() {
            return None;
        }
        let res = match bits.get(pos) {
            Some(b) => b,
            None => false,
        };
        Some(Ok((1, res)))
    }
}

impl Bittable for u8 {
    /// The 8 bits of the value, least significant first.
    open spec fn spec_bits(v: u8) -> Seq<bool> {
        uint_bits(v as u128, 8)
    }

    open spec fn spec_fits(v: u8) -> bool {
        true
    }

    /// Fails when fewer than 8 bits are left.
    open spec fn spec_read(bits: Seq<bool>, pos: int) -> Option<Result<(int, u8), CustomIdError>> {
        match uint_read(bits, pos, 8) {
            Some(Ok((n, x))) => Some(Ok((n, x as u8))),
            Some(Err(e)) => Some(Err(e)),
            None => None,
        }
    }

    proof fn lemma_read_back(v: u8, bits: Seq<bool>, pos: int) {
        lemma_uint_value_bits(v as u128, 8);
        assert(((v as u128) & low_mask(8)) as u8 == v) by {
            assert((((v as u128) & ((1u128 << 8u128) - 1) as u128) as u8) == v) by (bit_vector);
        }
    }

    proof fn lemma_read_extent(bits: Seq<bool>, pos: int) {
    }

    fn bit_count(&self) -> (n: usize) {
        u8::BITS as usize
    }

    fn write_bits(&self, dest: &mut BitBuffer, pos: usize) -> (n: usize) {
        write_uint(*self as u128, u8::BITS as usize, dest, pos);
        u8::BITS as usize
    }

    fn read_bits(bits: &BitBuffer, pos: usize) -> (r: Option<Result<(usize, u8), CustomIdError>>) {
        match read_uint_at(bits, pos, u8::BITS as usize) {
            Some(Ok((n, x))) => Some(Ok((n, x as u8))),
            Some(Err(e)) => Some(Err(e)),
            None => None,
        }
    }
}

impl Bittable for i8 {
    /// The 8 bits of the value in two's complement, least significant
    /// first.
    open spec fn spec_bits(v: i8) -> Seq<bool> {
        uint_bits(v as u128, 8)
    }

    open spec fn spec_fits(v: i8) -> bool {
        true
    }

    /// Fails when fewer than 8 bits are left.
    open spec fn spec_read(bits: Seq<bool>, pos: int) -> Option<Result<(int, i8), CustomIdError>> {
        match uint_read(bits, pos, 8) {
            Some(Ok((n, x))) => Some(Ok((n, x as i8))),
            Some(Err(e)) => Some(Err(e)),
            None => None,
        }
    }

    proof fn lemma_read_back(v: i8, bits: Seq<bool>, pos: int) {
        lemma_uint_value_bits(v as u128, 8);
        assert(((v as u128) & low_mask(8)) as i8 == v) by {
            assert((((v as u128) & ((1u128 << 8u128) - 1) as u128) as i8) == v) by (bit_vector);
        }
    }

    proof fn lemma_read_extent(bits: Seq<bool>, pos: int) {
    }

    fn bit_count(&self) -> (n: usize) {
        i8::BITS as usize
    }

    fn write_bits(&self, dest: &mut BitBuffer, pos: usize) -> (n: usize) {
        write_uint(*self as u128, i8::BITS as usize, dest, pos);
        i8::BITS as usize
    }

    fn read_bits(bits: &BitBuffer, pos: usize) -> (r: Option<Result<(usize, i8), CustomIdError>>) {
        match read_uint_at(bits, pos, i8::BITS as usize) {
            Some(Ok((n, x))) => Some(Ok((n, x as i8))),
            Some(Err(e)) => Some(Err(e)),
            None => None,
        }
    }
}

impl Bittable for u16 {
    /// The 16 bits of the value, least significant first.
    open spec fn spec_bits(v: u16) -> Seq<bool> {
        uint_bits(v as u128, 16)
    }

    open spec fn spec_fits(v: u16) -> bool {
        true
    }

    /// Fails when fewer than 16 bits are left.
    open spec fn spec_read(bits: Seq<bool>, pos: int) -> Option<Result<(int, u16), CustomIdError>> {
        match uint_read(bits, pos, 16) {
            Some(Ok((n, x))) => Some(Ok((n, x as u16))),
            Some(Err(e)) => Some(Err(e)),
            None => None,
        }
    }

    proof fn lemma_read_back(v: u16, bits: Seq<bool>, pos: int) {
        lemma_uint_value_bits(v as u128, 16);
        assert(((v as u128) & low_mask(16)) as u16 == v) by {
            assert((((v as u128) & ((1u128 << 16u128) - 1) as u128) as u16) == v) by (bit_vector);
        }
    }

    proof fn lemma_read_extent(bits: Seq<bool>, pos: int) {
    }

    fn bit_count(&self) -> (n: usize) {
        u16::BITS as usize
    }

    fn write_bits(&self, dest: &mut BitBuffer, pos: usize) -> (n: usize) {
        write_uint(*self as u128, u16::BITS as usize, dest, pos);
        u16::BITS as usize
    }

    fn read_bits(bits: &BitBuffer, pos: usize) -> (r: Option<Result<(usize, u16), CustomIdError>>) {
        match read_uint_at(bits, pos, u16::BITS as usize) {
            Some(Ok((n, x))) => Some(Ok((n, x as u16))),
            Some(Err(e)) => Some(Err(e)),
            None => None,
        }
    }
}

impl Bittable for i16 {
    /// The 16 bits of the value in two's complement, least significant
    /// first.
    open spec fn spec_bits(v: i16) -> Seq<bool> {
        uint_bits(v as u128, 16)
    }

    open spec fn spec_fits(v: i16) -> bool {
        true
    }

    /// Fails when fewer than 16 bits are left.
    open spec fn spec_read(bits: Seq<bool>, pos: int) -> Option<Result<(int, i16), CustomIdError>> {
        match uint_read(bits, pos, 16) {
            Some(Ok((n, x))) => Some(Ok((n, x as i16))),
            Some(Err(e)) => Some(Err(e)),
            None => None,
        }
    }

    proof fn lemma_read_back(v: i16, bits: Seq<bool>, pos: int) {
        lemma_uint_value_bits(v as u128, 16);
        assert(((v as u128) & low_mask(16)) as i16 == v) by {
            assert((((v as u128) & ((1u128 << 16u128) - 1) as u128) as i16) == v) by (bit_vector);
        }
    }

    proof fn lemma_read_extent(bits: Seq<bool>, pos: int) {
    }

    fn bit_count(&self) -> (n: usize) {
        i16::BITS as usize
    }

    fn write_bits(&self, dest: &mut BitBuffer, pos: usize) -> (n: usize) {
        write_uint(*self as u128, i16::BITS as usize, dest, pos);
        i16::BITS as usize
    }

    fn read_bits(bits: &BitBuffer, pos: usize) -> (r: Option<Result<(usize, i16), CustomIdError>>) {
        match read_uint_at(bits, pos, i16::BITS as usize) {
            Some(Ok((n, x))) => Some(Ok((n, x as i16))),
            Some(Err(e)) => Some(Err(e)),
            None => None,
        }
    }
}

impl Bittable for u32 {
    /// The 32 bits of the value, least significant first.
    open spec fn spec_bits(v: u32) -> Seq<bool> {
        uint_bits(v as u128, 32)
    }

    open spec fn spec_fits(v: u32) -> bool {
        true
    }

    /// Fails when fewer than 32 bits are left.
    open spec fn spec_read(bits: Seq<bool>, pos: int) -> Option<Result<(int, u32), CustomIdError>> {
        match uint_read(bits, pos, 32) {
            Some(Ok((n, x))) => Some(Ok((n, x as u32))),
            Some(Err(e)) => Some(Err(e)),
            None => None,
        }
    }

    proof fn lemma_read_back(v: u32, bits: Seq<bool>, pos: int) {
        lemma_uint_value_bits(v as u128, 32);
        assert(((v as u128) & low_mask(32)) as u32 == v) by {
            assert((((v as u128) & ((1u128 << 32u128) - 1) as u128) as u32) == v) by (bit_vector);
        }
    }

    proof fn lemma_read_extent(bits: Seq<bool>, pos: int) {
    }

    fn bit_count(&self) -> (n: usize) {
        u32::BITS as usize
    }

    fn write_bits(&self, dest: &mut BitBuffer, pos: usize) -> (n: usize) {
        write_uint(*self as u128, u32::BITS as usize, dest, pos);
        u32::BITS as usize
    }

    fn read_bits(bits: &BitBuffer, pos: usize) -> (r: Option<Result<(usize, u32), CustomIdError>>) {
        match read_uint_at(bits, pos, u32::BITS as usize) {
            Some(Ok((n, x))) => Some(Ok((n, x as u32))),
            Some(Err(e)) => Some(Err(e)),
            None => None,
        }
    }
}

impl Bittable for i32 {
    /// The 32 bits of the value in two's complement, least significant
    /// first.
    open spec fn spec_bits(v: i32) -> Seq<bool> {
        uint_bits(v as u128, 32)
    }

    open spec fn spec_fits(v: i32) -> bool {
        true
    }

    /// Fails when fewer than 32 bits are left.
    open spec fn spec_read(bits: Seq<bool>, pos: int) -> Option<Result<(int, i32), CustomIdError>> {
        match uint_read(bits, pos, 32) {
            Some(Ok((n, x))) => Some(Ok((n, x as i32))),
            Some(Err(e)) => Some(Err(e)),
            None => None,
        }
    }

    proof fn lemma_read_back(v: i32, bits: Seq<bool>, pos: int) {
        lemma_uint_value_bits(v as u128, 32);
        assert(((v as u128) & low_mask(32)) as i32 == v) by {
            assert((((v as u128) & ((1u128 << 32u128) - 1) as u128) as i32) == v) by (bit_vector);
        }
    }

    proof fn lemma_read_extent(bits: Seq<bool>, pos: int) {
    }

    fn bit_count(&self) -> (n: usize) {
        i32::BITS as usize
    }

    fn write_bits(&self, dest: &mut BitBuffer, pos: usize) -> (n: usize) {
        write_uint(*self as u128, i32::BITS as usize, dest, pos);
        i32::BITS as usize
    }

    fn read_bits(bits: &BitBuffer, pos: usize) -> (r: Option<Result<(usize, i32), CustomIdError>>) {
        match read_uint_at(bits, pos, i32::BITS as usize) {
            Some(Ok((n, x))) => Some(Ok((n, x as i32))),
            Some(Err(e)) => Some(Err(e)),
            None => None,
        }
    }
}

impl Bittable for u64 {
    /// The 64 bits of the value, least significant first.
    open spec fn spec_bits(v: u64) -> Seq<bool> {
        uint_bits(v as u128, 64)
    }

    open spec fn spec_fits(v: u64) -> bool {
        true
    }

    /// Fails when fewer than 64 bits are left.
    open spec fn spec_read(bits: Seq<bool>, pos: int) -> Option<Result<(int, u64), CustomIdError>> {
        match uint_read(bits, pos, 64) {
            Some(Ok((n, x))) => Some(Ok((n, x as u64))),
            Some(Err(e)) => Some(Err(e)),
            None => None,
        }
    }

    proof fn lemma_read_back(v: u64, bits: Seq<bool>, pos: int) {
        lemma_uint_value_bits(v as u128, 64);
        assert(((v as u128) & low_mask(64)) as u64 == v) by {
            assert((((v as u128) & ((1u128 << 64u128) - 1) as u128) as u64) == v) by (bit_vector);
        }
    }

    proof fn lemma_read_extent(bits: Seq<bool>, pos: int) {
    }

    fn bit_count(&self) -> (n: usize) {
        u64::BITS as usize
    }

    fn write_bits(&self, dest: &mut BitBuffer, pos: usize) -> (n: usize) {
        write_uint(*self as u128, u64::BITS as usize, dest, pos);
        u64::BITS as usize
    }

    fn read_bits(bits: &BitBuffer, pos: usize) -> (r: Option<Result<(usize, u64), CustomIdError>>) {
        match read_uint_at(bits, pos, u64::BITS as usize) {
            Some(Ok((n, x))) => Some(Ok((n, x as u64))),
            Some(Err(e)) => Some(Err(e)),
            None => None,
        }
    }
}

impl Bittable for i64 {
    /// The 64 bits of the value in two's complement, least significant
    /// first.
    open spec fn spec_bits(v: i64) -> Seq<bool> {
        uint_bits(v as u128, 64)
    }

    open spec fn spec_fits(v: i64) -> bool {
        true
    }

    /// Fails when fewer than 64 bits are left.
    open spec fn spec_read(bits: Seq<bool>, pos: int) -> Option<Result<(int, i64), CustomIdError>> {
        match uint_read(bits, pos, 64) {
            Some(Ok((n, x))) => Some(Ok((n, x as i64))),
            Some(Err(e)) => Some(Err(e)),
            None => None,
        }
    }

    proof fn lemma_read_back(v: i64, bits: Seq<bool>, pos: int) {
        lemma_uint_value_bits(v as u128, 64);
        assert(((v as u128) & low_mask(64)) as i64 == v) by {
            assert((((v as u128) & ((1u128 << 64u128) - 1) as u128) as i64) == v) by (bit_vector);
        }
    }

    proof fn lemma_read_extent(bits: Seq<bool>, pos: int) {
    }

    fn bit_count(&self) -> (n: usize) {
        i64::BITS as usize
    }

    fn write_bits(&self, dest: &mut BitBuffer, pos: usize) -> (n: usize) {
        write_uint(*self as u128, i64::BITS as usize, dest, pos);
        i64::BITS as usize
    }

    fn read_bits(bits: &BitBuffer, pos: usize) -> (r: Option<Result<(usize, i64), CustomIdError>>) {
        match read_uint_at(bits, pos, i64::BITS as usize) {
            Some(Ok((n, x))) => Some(Ok((n, x as i64))),
            Some(Err(e)) => Some(Err(e)),
            None => None,
        }
    }
}

impl Bittable for i128 {
    /// The 128 bits of the value in two's complement, least significant
    /// first.
    open spec fn spec_bits(v: i128) -> Seq<bool> {
        uint_bits(v as u128, 128)
    }

    open spec fn spec_fits(v: i128) -> bool {
        true
    }

    /// Fails when fewer than 128 bits are left.
    open spec fn spec_read(bits: Seq<bool>, pos: int) -> Option<Result<(int, i128), CustomIdError>> {
        match uint_read(bits, pos, 128) {
            Some(Ok((n, x))) => Some(Ok((n, x as i128))),
            Some(Err(e)) => Some(Err(e)),
            None => None,
        }
    }

    proof fn lemma_read_back(v: i128, bits: Seq<bool>, pos: int) {
        lemma_uint_value_bits(v as u128, 128);
        assert(((v as u128) & low_mask(128)) as i128 == v) by {
            assert((((v as u128) & u128::MAX) as i128) == v) by (bit_vector);
        }
    }

    proof fn lemma_read_extent(bits: Seq<bool>, pos: int) {
    }

    fn bit_count(&self) -> (n: usize) {
        i128::BITS as usize
    }

    fn write_bits(&self, dest: &mut BitBuffer, pos: usize) -> (n: usize) {
        write_uint(*self as u128, i128::BITS as usize, dest, pos);
        i128::BITS as usize
    }

    fn read_bits(bits: &BitBuffer, pos: usize) -> (r: Option<Result<(usize, i128), CustomIdError>>) {
        match read_uint_at(bits, pos, i128::BITS as usize) {
            Some(Ok((n, x))) => Some(Ok((n, x as i128))),
            Some(Err(e)) => Some(Err(e)),
            None => None,
        }
    }
}

impl Bittable for u128 {
    /// The 128 bits of the value, least significant first.
    open spec fn spec_bits(v: u128) -> Seq<bool> {
        uint_bits(v as u128, 128)
    }

    open spec fn spec_fits(v: u128) -> bool {
        true
    }

    /// Fails when fewer than 128 bits are left.
    open spec fn spec_read(bits: Seq<bool>, pos: int) -> Option<Result<(int, u128), CustomIdError>> {
        match uint_read(bits, pos, 128) {
            Some(Ok((n, x))) => Some(Ok((n, x as u128))),
            Some(Err(e)) => Some(Err(e)),
            None => None,
        }
    }

    proof fn lemma_read_back(v: u128, bits: Seq<bool>, pos: int) {
        lemma_uint_value_bits(v as u128, 128);
        assert(((v as u128) & low_mask(128)) as u128 == v) by {
            assert((((v as u128) & u128::MAX) as u128) == v) by (bit_vector);
        }
    }

    proof fn lemma_read_extent(bits: Seq<bool>, pos: int) {
    }

    fn bit_count(&self) -> (n: usize) {
        u128::BITS as usize
    }

    fn write_bits(&self, dest: &mut BitBuffer, pos: usize) -> (n: usize) {
        write_uint(*self as u128, u128::BITS as usize, dest, pos);
        u128::BITS as usize
    }

    fn read_bits(bits: &BitBuffer, pos: usize) -> (r: Option<Result<(usize, u128), CustomIdError>>) {
        match read_uint_at(bits, pos, u128::BITS as usize) {
            Some(Ok((n, x))) => Some(Ok((n, x as u128))),
            Some(Err(e)) => Some(Err(e)),
            None => None,
        }
    }
}

impl Bittable for usize {
    /// The `usize::BITS` bits of the value, least significant first.
    open spec fn spec_bits(v: usize) -> Seq<bool> {
        uint_bits(v as u128, usize::BITS as nat)
    }

    open spec fn spec_fits(v: usize) -> bool {
        true
    }

    /// Fails when fewer than `usize::BITS` bits are left.
    open spec fn spec_read(bits: Seq<bool>, pos: int) -> Option<Result<(int, usize), CustomIdError>> {
        match uint_read(bits, pos, usize::BITS as nat) {
            Some(Ok((n, x))) => Some(Ok((n, x as usize))),
            Some(Err(e)) => Some(Err(e)),
            None => None,
        }
    }

    proof fn lemma_read_back(v: usize, bits: Seq<bool>, pos: int) {
        lemma_uint_value_bits(v as u128, usize::BITS as nat);
        assert(((v as u128) & low_mask(usize::BITS as nat)) as usize == v) by {
            assert((v as u128) & ((1u128 << (usize::BITS as u128)) - 1) as u128 == (v as u128) & low_mask(usize::BITS as nat));
            assert((((v as u128) & ((1u128 << (usize::BITS as u128)) - 1) as u128) as usize) == v) by (bit_vector);
        }
    }

    proof fn lemma_read_extent(bits: Seq<bool>, pos: int) {
    }

    fn bit_count(&self) -> (n: usize) {
        usize::BITS as usize
    }

    fn write_bits(&self, dest: &mut BitBuffer, pos: usize) -> (n: usize) {
        write_uint(*self as u128, usize::BITS as usize, dest, pos);
        usize::BITS as usize
    }

    fn read_bits(bits: &BitBuffer, pos: usize) -> (r: Option<Result<(usize, usize), CustomIdError>>) {
        match read_uint_at(bits, pos, usize::BITS as usize) {
            Some(Ok((n, x))) => Some(Ok((n, x as usize))),
            Some(Err(e)) => Some(Err(e)),
            None => None,
        }
    }
}

impl Bittable for isize {
    /// The `usize::BITS` bits of the value in two's complement, least significant
    /// first.
    open spec fn spec_bits(v: isize) -> Seq<bool> {
        uint_bits(v as u128, usize::BITS as nat)
    }

    open spec fn spec_fits(v: isize) -> bool {
        true
    }

    /// Fails when fewer than `usize::BITS` bits are left.
    open spec fn spec_read(bits: Seq<bool>, pos: int) -> Option<Result<(int, isize), CustomIdError>> {
        match uint_read(bits, pos, usize::BITS as nat) {
            Some(Ok((n, x))) => Some(Ok((n, x as isize))),
            Some(Err(e)) => Some(Err(e)),
            None => None,
        }
    }

    proof fn lemma_read_back(v: isize, bits: Seq<bool>, pos: int) {
        lemma_uint_value_bits(v as u128, usize::BITS as nat);
        assert(((v as u128) & low_mask(usize::BITS as nat)) as isize == v) by {
            assert((v as u128) & ((1u128 << (usize::BITS as u128)) - 1) as u128 == (v as u128) & low_mask(usize::BITS as nat));
            assert((((v as u128) & ((1u128 << (usize::BITS as u128)) - 1) as u128) as isize) == v) by (bit_vector);
        }
    }

    proof fn lemma_read_extent(bits: Seq<bool>, pos: int) {
    }

    fn bit_count(&self) -> (n: usize) {
        isize::BITS as usize
    }

    fn write_bits(&self, dest: &mut BitBuffer, pos: usize) -> (n: usize) {
        write_uint(*self as u128, isize::BITS as usize, dest, pos);
        isize::BITS as usize
    }

    fn read_bits(bits: &BitBuffer, pos: usize) -> (r: Option<Result<(usize, isize), CustomIdError>>) {
        match read_uint_at(bits, pos, isize::BITS as usize) {
            Some(Ok((n, x))) => Some(Ok((n, x as isize))),
            Some(Err(e)) => Some(Err(e)),
            None => None,
        }
    }
}

} // verus!
