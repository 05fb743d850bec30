use crate::bits::{bit_seq, max_bits, BitBuffer};
use crate::bittable::Bittable;
use crate::error::CustomIdError;
use crate::uint::{bit_of, lemma_uint_value_bit, read_uint, uint_value};
use crate::utf16::{
    encode_utf16, is_high_surrogate, is_low_surrogate, lemma_utf16_encode_plain,
    lemma_utf16_lossy_encode, lemma_utf16_lossy_len, lemma_utf16_lossy_plain,
    string_from_utf16_lossy, utf16_encode, utf16_lossy, valid_utf16,
};
use vstd::prelude::*;

verus! {

/// The most bits a custom id carries: Discord allows 100 UTF-16 code
/// units, of 16 bits each.
pub const MAX_CUSTOM_ID_BITS: usize = 1600;

/// The number of 16-bit code units that `n` bits fill.
pub open spec fn unit_count(n: nat) -> nat {
    ((n + 15) / 16) as nat
}

/// The bits that go into code unit `j`: sixteen of them, or what is left.
pub open spec fn unit_chunk(bits: Seq<bool>, j: int) -> Seq<bool> {
    bits.subrange(16 * j, if 16 * j + 16 <= bits.len() { 16 * j + 16 } else { bits.len() as int })
}

/// Bits packed sixteen to a code unit, least significant first; the last
/// unit is filled up with zero bits.
pub open spec fn pack_bits(bits: Seq<bool>) -> Seq<u16> {
    Seq::new(unit_count(bits.len()), |j: int| uint_value(unit_chunk(bits, j)) as u16)
}

/// The bits of code units, sixteen per unit, least significant first.
pub open spec fn unpack_units(units: Seq<u16>) -> Seq<bool> {
    Seq::new(16 * units.len(), |k: int| bit_of(units[k / 16] as u128, (k % 16) as nat))
}

/// The custom id made from a value with model `v`: its bits packed into
/// code units, decoded lossily as UTF-16; too many bits fail.
pub open spec fn encoded_custom_id<T: Bittable>(v: T::V) -> Result<Seq<char>, CustomIdError> {
    if T::spec_bits(v).len() > MAX_CUSTOM_ID_BITS {
        Err(CustomIdError::DataTooBig)
    } else {
        Ok(utf16_lossy(pack_bits(T::spec_bits(v))))
    }
}

/// What reading a value from the custom id `s` gives: the bits of its
/// UTF-16 code units are read from the start; `None` where a read would
/// run past the end or a `Snowflake` would be zero.
pub open spec fn decoded_custom_id<T: Bittable>(s: Seq<char>) -> Option<Result<T::V, CustomIdError>> {
    match T::spec_read(unpack_units(utf16_encode(s)), 0) {
        Some(Ok((n, v))) => Some(Ok(v)),
        Some(Err(e)) => Some(Err(e)),
        None => None,
    }
}

/// Whether the custom id `s` has few enough code units for its bits to fit
/// in a bit-vector.
pub open spec fn custom_id_in_bounds(s: Seq<char>) -> bool {
    16 * utf16_encode(s).len() <= max_bits()
}

/// A custom id result, with the text taken by its characters.
pub open spec fn text_result(r: Result<String, CustomIdError>) -> Result<Seq<char>, CustomIdError> {
    match r {
        Ok(s) => Ok(s@),
        Err(e) => Err(e),
    }
}

/// A decoding result, with the value taken by its model.
pub open spec fn value_result<T: DeepView>(r: Result<T, CustomIdError>) -> Result<T::V, CustomIdError> {
    match r {
        Ok(v) => Ok(v.deep_view()),
        Err(e) => Err(e),
    }
}

proof fn lemma_unit_bit(x: u128, i: u128)
    requires
        i < 16,
    ensures
        bit_of((x as u16) as u128, i as nat) == bit_of(x, i as nat),
{
    assert(i < 16 ==> (((x as u16) as u128) >> i) & 1 == (x >> i) & 1) by (bit_vector);
}

/// Unpacking the packed bits gives the bits back, followed by the zero bits
/// that filled the last unit.
pub proof fn lemma_unpack_pack(bits: Seq<bool>)
    ensures
        unpack_units(pack_bits(bits)).len() >= bits.len(),
        unpack_units(pack_bits(bits)).subrange(0, bits.len() as int) == bits,
{
    let u = pack_bits(bits);
    assert forall|k: int| 0 <= k < bits.len() implies #[trigger] unpack_units(u)[k] == bits[k] by {
        let j = k / 16;
        let i = k % 16;
        let c = unit_chunk(bits, j);
        assert(0 <= j < u.len());
        assert(i < c.len());
        lemma_uint_value_bit(c);
        lemma_unit_bit(uint_value(c), i as u128);
        assert(c[i] == bits[k]);
    }
    assert(unpack_units(u).subrange(0, bits.len() as int) =~= bits);
}

/// Packs bits sixteen to a code unit (`BitSlice::chunks(16)`).
fn pack(bits: &BitBuffer) -> (r: Vec<u16>)
    ensures
        r@ == pack_bits(bit_seq(*bits)),
{
    let ghost s = bit_seq(*bits);
    let len = bits.len();
    let mut packed: Vec<u16> = Vec::with_capacity((len + 15) / 16);
    let mut start: usize = 0;
    while start < len
        invariant
            s == bit_seq(*bits),
            len == s.len() <= max_bits(),
            start <= len,
            start == len || start == 16 * packed.len(),
            packed.len() == unit_count(start as nat),
            forall|j: int| 0 <= j < packed.len() ==> #[trigger] packed@[j] == pack_bits(s)[j],
        decreases len - start,
    {
        let end = if len - start < 16 {
            len
        } else {
            start + 16
        };
        let value = read_uint(bits, start, end - start) as u16;
        proof {
            assert(s.subrange(start as int, end as int) == unit_chunk(s, packed.len() as int));
        }
        packed.push(value);
        start = end;
    }
    proof {
        assert(packed@ =~= pack_bits(s));
    }
    packed
}

/// The bits of code units, sixteen per unit, least significant first.
fn unpack(units: &Vec<u16>) -> (r: BitBuffer)
    requires
        16 * units.len() <= max_bits(),
    ensures
        bit_seq(r) == unpack_units(units@),
{
    let mut bits = BitBuffer::with_capacity(units.len() * 16);
    let mut j: usize = 0;
    while j < units.len()
        invariant
            16 * units.len() <= max_bits(),
            j <= units.len(),
            bit_seq(bits).len() == 16 * j,
            forall|k: int| 0 <= k < 16 * j ==> #[trigger] bit_seq(bits)[k] == unpack_units(units@)[k],
        decreases units.len() - j,
    {
        let value = units[j];
        let mut i: usize = 0;
        while i < 16
            invariant
                16 * units.len() <= max_bits(),
                j < units.len(),
                i <= 16,
                value == units@[j as int],
                bit_seq(bits).len() == 16 * j + i,
                forall|k: int| 0 <= k < 16 * j + i ==> #[trigger] bit_seq(bits)[k] == unpack_units(units@)[k],
            decreases 16 - i,
        {
            let bit = (value >> i) & 1;
            proof {
                let k = 16 * j + i;
                assert(k / 16 == j && k % 16 == i);
                assert((((value >> i) & 1) == 1) == ((((value as u128) >> (i as u128)) & 1) == 1))
                    by (bit_vector)
                    requires
                        i < 16,
                ;
            }
            bits.push(bit == 1);
            i = i + 1;
        }
        j = j + 1;
    }
    proof {
        assert(bit_seq(bits) =~= unpack_units(units@));
    }
    bits
}

/// The bits of a custom id's UTF-16 code units, or `None` when there are
/// too many for a bit-vector.
fn custom_id_bits(custom_id: &String) -> (r: Option<BitBuffer>)
    ensures
        r is Some <==> custom_id_in_bounds(custom_id@),
        r matches Some(b) ==> bit_seq(b) == unpack_units(utf16_encode(custom_id@)),
{
    let utf16 = encode_utf16(custom_id);
    if utf16.len() > usize::MAX / 8 / 16 {
        return None;
    }
    Some(unpack(&utf16))
}

/// Storing a value in a Discord custom id and reading it back.
pub trait CustomIdConv: Bittable + Sized {
    /// The custom id for this value: its bits packed sixteen to a UTF-16
    /// code unit, decoded lossily. Fails with `DataTooBig` when the value
    /// needs more than 1600 bits.
    fn to_custom_id(&self) -> (r: Result<String, CustomIdError>)
        requires
            Self::spec_bits(self.deep_view()).len() <= usize::MAX,
        ensures
            text_result(r) == encoded_custom_id::<Self>(self.deep_view()),
    {
        let bit_count = self.bit_count();
        if bit_count > 100 * 8 * 2 {
            return Err(CustomIdError::DataTooBig);
        }
        let mut bits = BitBuffer::zeroed(bit_count);
        self.write_bits(&mut bits, 0);
        proof {
            assert(bit_seq(bits) =~= Self::spec_bits(self.deep_view()));
        }
        let packed = pack(&bits);
        Ok(string_from_utf16_lossy(packed.as_slice()))
    }

    /// Reads a value from a custom id: the bits of its UTF-16 code units,
    /// from the start. Fails with `DeserializationFailed` when the bits run
    /// out.
    fn from_custom_id(custom_id: String) -> (r: Result<Self, CustomIdError>)
        requires
            custom_id_in_bounds(custom_id@),
            decoded_custom_id::<Self>(custom_id@) is Some,
        ensures
            decoded_custom_id::<Self>(custom_id@) == Some(value_result(r)),
    {
        let bits = match custom_id_bits(&custom_id) {
            Some(bits) => bits,
            None => return Err(CustomIdError::DeserializationFailed),
        };
        match Self::from_bits(&bits, 0) {
            Ok((_, result)) => Ok(result),
            Err(e) => Err(e),
        }
    }

    /// As `from_custom_id`, for any text: `None` where reading would run
    /// past the end of the bits, would make a zero `Snowflake`, or where the
    /// text is too long for a bit-vector.
    fn try_from_custom_id(custom_id: String) -> (r: Option<Result<Self, CustomIdError>>)
        ensures
            r is None <==> !custom_id_in_bounds(custom_id@) || decoded_custom_id::<Self>(
                custom_id@,
            ) is None,
            r matches Some(x) ==> decoded_custom_id::<Self>(custom_id@) == Some(value_result(x)),
    {
        let bits = match custom_id_bits(&custom_id) {
            Some(bits) => bits,
            None => return None,
        };
        match Self::read_bits(&bits, 0) {
            Some(Ok((_, result))) => Some(Ok(result)),
            Some(Err(e)) => Some(Err(e)),
            None => None,
        }
    }
}

impl<T: Bittable> CustomIdConv for T {

}

/// A value whose bits fit in a custom id, and whose packed code units hold
/// no unpaired surrogate, reads back from its custom id as itself; that
/// custom id is within the bounds `from_custom_id` asks for.
pub proof fn lemma_custom_id_roundtrip<T: Bittable>(v: T::V)
    requires
        T::spec_fits(v),
        T::spec_bits(v).len() <= MAX_CUSTOM_ID_BITS,
        valid_utf16(pack_bits(T::spec_bits(v))),
    ensures
        encoded_custom_id::<T>(v) is Ok,
        custom_id_in_bounds(encoded_custom_id::<T>(v)->Ok_0),
        decoded_custom_id::<T>(encoded_custom_id::<T>(v)->Ok_0) == Some(
            Ok::<T::V, CustomIdError>(v),
        ),
{
    let bits = T::spec_bits(v);
    let units = pack_bits(bits);
    lemma_utf16_lossy_encode(units);
    lemma_unpack_pack(bits);
    let all = unpack_units(units);
    assert(all.subrange(0, bits.len() as int) == bits);
    T::lemma_read_back(v, all, 0);
}

/// A custom id is at most 100 UTF-16 code units long: one per sixteen bits
/// of the value, rounded up.
pub proof fn lemma_custom_id_len<T: Bittable>(v: T::V)
    requires
        encoded_custom_id::<T>(v) is Ok,
    ensures
        utf16_encode(encoded_custom_id::<T>(v)->Ok_0).len() == unit_count(T::spec_bits(v).len()),
        utf16_encode(encoded_custom_id::<T>(v)->Ok_0).len() <= 100,
{
    lemma_utf16_lossy_len(pack_bits(T::spec_bits(v)));
}

/// A value gets a custom id exactly when it needs at most 1600 bits (100
/// UTF-16 code units of 16 bits); otherwise the answer is `DataTooBig`.
pub proof fn lemma_custom_id_limit<T: Bittable>(v: T::V)
    ensures
        T::spec_bits(v).len() <= 1600 ==> encoded_custom_id::<T>(v) is Ok,
        T::spec_bits(v).len() > 1600 ==> encoded_custom_id::<T>(v) == Err::<Seq<char>, CustomIdError>(
            CustomIdError::DataTooBig,
        ),
{
}

/// Bit `i` of a code unit (bit 0 is the least significant).
pub open spec fn unit_bit(u: u16, i: int) -> bool {
    (u >> (i as u16)) & 1 == 1
}

/// Packing `n` bits makes `(n + 15) / 16` code units; bit `i` of unit `j`
/// is bit `16 * j + i` of the run, or zero past its end.
pub proof fn lemma_pack_bits(bits: Seq<bool>)
    ensures
        pack_bits(bits).len() == (bits.len() + 15) / 16,
        forall|j: int, i: int|
            0 <= j < pack_bits(bits).len() && 0 <= i < 16 ==> #[trigger] unit_bit(
                pack_bits(bits)[j],
                i,
            ) == (16 * j + i < bits.len() && bits[16 * j + i]),
{
    assert forall|j: int, i: int|
        0 <= j < pack_bits(bits).len() && 0 <= i < 16 implies #[trigger] unit_bit(
        pack_bits(bits)[j],
        i,
    ) == (16 * j + i < bits.len() && bits[16 * j + i]) by {
        let c = unit_chunk(bits, j);
        lemma_uint_value_bit(c);
        let x = uint_value(c);
        let ii = i as u128;
        let m = c.len() as u128;
        assert(unit_bit(x as u16, i) == ((x >> ii) & 1 == 1)) by {
            assert((((x as u16) >> (ii as u16)) & 1 == 1) == ((x >> ii) & 1 == 1)) by (bit_vector)
                requires
                    ii < 16,
            ;
        }
        if i < c.len() {
            assert(c[i] == bits[16 * j + i]);
        } else {
            assert(x & ((1u128 << m) - 1) as u128 == x);
            assert((x >> ii) & 1 == 0) by (bit_vector)
                requires
                    m <= ii < 16,
                    x & ((1u128 << m) - 1) as u128 == x,
            ;
        }
    }
}

/// Unpacking code units gives sixteen bits per unit: bit `16 * j + i` is
/// bit `i` of unit `j`.
pub proof fn lemma_unpack_units(units: Seq<u16>)
    ensures
        unpack_units(units).len() == 16 * units.len(),
        forall|j: int, i: int|
            0 <= j < units.len() && 0 <= i < 16 ==> unpack_units(units)[16 * j + i] == #[trigger] unit_bit(
                units[j],
                i,
            ),
{
    assert forall|j: int, i: int| 0 <= j < units.len() && 0 <= i < 16 implies unpack_units(units)[16
        * j + i] == #[trigger] unit_bit(units[j], i) by {
        let k = 16 * j + i;
        assert(k / 16 == j && k % 16 == i);
        let u = units[j];
        let ii = i as u16;
        assert((((u as u128) >> (ii as u128)) & 1 == 1) == ((u >> ii) & 1 == 1)) by (bit_vector)
            requires
                ii < 16,
        ;
    }
}

/// When a value fits and none of its packed code units is a surrogate, its
/// custom id has one char per sixteen bits (rounded up), and bit `i` of
/// char `j` is bit `16 * j + i` of the value's bits, or zero past their end.
pub proof fn lemma_custom_id_plain<T: Bittable>(v: T::V)
    requires
        T::spec_bits(v).len() <= MAX_CUSTOM_ID_BITS,
        forall|j: int|
            0 <= j < pack_bits(T::spec_bits(v)).len() ==> !is_high_surrogate(
                #[trigger] pack_bits(T::spec_bits(v))[j],
            ) && !is_low_surrogate(pack_bits(T::spec_bits(v))[j]),
    ensures
        encoded_custom_id::<T>(v) is Ok,
        encoded_custom_id::<T>(v)->Ok_0.len() == (T::spec_bits(v).len() + 15) / 16,
        forall|j: int, i: int|
            0 <= j < encoded_custom_id::<T>(v)->Ok_0.len() && 0 <= i < 16 ==> #[trigger] unit_bit(
                (encoded_custom_id::<T>(v)->Ok_0[j] as u32) as u16,
                i,
            ) == (16 * j + i < T::spec_bits(v).len() && T::spec_bits(v)[16 * j + i]),
{
    let bits = T::spec_bits(v);
    let u = pack_bits(bits);
    lemma_pack_bits(bits);
    lemma_utf16_lossy_plain(u);
    let s = encoded_custom_id::<T>(v)->Ok_0;
    assert forall|j: int, i: int| 0 <= j < s.len() && 0 <= i < 16 implies #[trigger] unit_bit(
        (s[j] as u32) as u16,
        i,
    ) == (16 * j + i < bits.len() && bits[16 * j + i]) by {
        assert(!is_high_surrogate(u[j]) && !is_low_surrogate(u[j]));
        assert(((s[j] as u32) as u16) == u[j]);
        assert(unit_bit(u[j], i) == (16 * j + i < bits.len() && bits[16 * j + i]));
    }
}

/// Reading from a custom id whose chars are all below U+10000 reads the
/// bits of its chars' numbers, sixteen per char, least significant first.
pub proof fn lemma_custom_id_bits(s: Seq<char>)
    requires
        forall|i: int| 0 <= i < s.len() ==> (#[trigger] s[i] as u32) < 0x10000,
    ensures
        unpack_units(utf16_encode(s)).len() == 16 * s.len(),
        forall|j: int, i: int|
            0 <= j < s.len() && 0 <= i < 16 ==> unpack_units(utf16_encode(s))[16 * j + i]
                == #[trigger] unit_bit((s[j] as u32) as u16, i),
{
    lemma_utf16_encode_plain(s);
    lemma_unpack_units(utf16_encode(s));
    assert forall|j: int, i: int| 0 <= j < s.len() && 0 <= i < 16 implies unpack_units(
        utf16_encode(s),
    )[16 * j + i] == #[trigger] unit_bit((s[j] as u32) as u16, i) by {
        assert(utf16_encode(s)[j] == (s[j] as u32) as u16);
        assert(unit_bit(utf16_encode(s)[j], i) == unpack_units(utf16_encode(s))[16 * j + i]);
    }
}

} // verus!
