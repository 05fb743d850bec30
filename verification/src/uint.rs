use crate::bits::{bit_seq, BitBuffer};
use crate::error::CustomIdError;
use vstd::prelude::*;

verus! {

/// Bit `i` of `v` (bit 0 is the least significant).
pub open spec fn bit_of(v: u128, i: nat) -> bool {
    (v >> i) & 1 == 1
}

/// The `width` low bits of `v`, least significant first.
pub open spec fn uint_bits(v: u128, width: nat) -> Seq<bool> {
    Seq::new(width, |i: int| bit_of(v, i as nat))
}

/// The number whose bits, least significant first, are `s`.
pub open spec fn uint_value(s: Seq<bool>) -> u128
    decreases s.len(),
{
    if s.len() == 0 {
        0
    } else {
        uint_value(s.drop_last()) | (if s.last() {
            1u128 << ((s.len() - 1) as u128)
        } else {
            0u128
        })
    }
}

/// The mask of the `width` low bits.
pub open spec fn low_mask(width: nat) -> u128 {
    if width >= 128 {
        u128::MAX
    } else {
        ((1u128 << (width as u128)) - 1) as u128
    }
}

/// Reading a `width`-bit number at `pos`: a read that starts past the end
/// leaves the bits (`None`); fewer than `width` bits left fail; otherwise
/// `width` bits are taken.
pub open spec fn uint_read(bits: Seq<bool>, pos: int, width: nat) -> Option<
    Result<(int, u128), CustomIdError>,
> {
    if pos < 0 || pos > bits.len() {
        None
    } else if bits.len() - pos < width {
        Some(Err(CustomIdError::DeserializationFailed))
    } else {
        Some(Ok((width as int, uint_value(bits.subrange(pos, pos + width)))))
    }
}

proof fn lemma_low_mask_step(v: u128, w: u128)
    requires
        w < 128,
    ensures
        (v & low_mask(w as nat)) | (if bit_of(v, w as nat) { 1u128 << w } else { 0u128 })
            == v & low_mask((w + 1) as nat),
{
    if w + 1 >= 128 {
        assert(w == 127);
        assert((v & ((1u128 << 127u128) - 1) as u128) | (if (v >> 127u128) & 1 == 1 {
            1u128 << 127u128
        } else {
            0u128
        }) == v & u128::MAX) by (bit_vector);
    } else {
        assert(w + 1 < 128 ==> (v & ((1u128 << w) - 1) as u128) | (if (v >> w) & 1 == 1 {
            1u128 << w
        } else {
            0u128
        }) == v & ((1u128 << ((w + 1) as u128)) - 1) as u128) by (bit_vector);
    }
}

/// Reading back the `width` low bits of `v` gives `v` with its other bits
/// cleared.
pub proof fn lemma_uint_value_bits(v: u128, width: nat)
    requires
        width <= 128,
    ensures
        uint_value(uint_bits(v, width)) == v & low_mask(width),
    decreases width,
{
    if width == 0 {
        assert(v & low_mask(0) == 0) by {
            assert(v & ((1u128 << 0u128) - 1) as u128 == 0) by (bit_vector);
        }
    } else {
        let w = (width - 1) as nat;
        lemma_uint_value_bits(v, w);
        assert(uint_bits(v, width).drop_last() =~= uint_bits(v, w));
        lemma_low_mask_step(v, w as u128);
    }
}

/// The number read from `s` has no bits above `s.len()`, and its bit `i`
/// is `s[i]`.
pub proof fn lemma_uint_value_bit(s: Seq<bool>)
    requires
        s.len() <= 128,
    ensures
        uint_value(s) & low_mask(s.len()) == uint_value(s),
        forall|i: nat| i < s.len() ==> bit_of(uint_value(s), i) == s[i as int],
    decreases s.len(),
{
    if s.len() == 0 {
        assert(0u128 & ((1u128 << 0u128) - 1) as u128 == 0) by (bit_vector);
    } else {
        let prev = s.drop_last();
        lemma_uint_value_bit(prev);
        let x = uint_value(prev);
        let m = prev.len() as u128;
        let y = uint_value(s);
        assert(x & ((1u128 << m) - 1) as u128 == x);
        if s.last() {
            assert(y == x | (1u128 << m));
            assert(m < 128 && x & ((1u128 << m) - 1) as u128 == x ==> ((x | (1u128 << m)) >> m)
                & 1 == 1) by (bit_vector);
            if m + 1 < 128 {
                assert(m + 1 < 128 && x & ((1u128 << m) - 1) as u128 == x ==> (x | (1u128 << m))
                    & ((1u128 << ((m + 1) as u128)) - 1) as u128 == x | (1u128 << m))
                    by (bit_vector);
            } else {
                assert(y & u128::MAX == y) by (bit_vector);
            }
            assert forall|i: nat| i < s.len() implies bit_of(y, i) == s[i as int] by {
                if i < m {
                    let j = i as u128;
                    assert(j < m && m < 128 ==> ((x | (1u128 << m)) >> j) & 1 == (x >> j) & 1)
                        by (bit_vector);
                    assert(prev[i as int] == s[i as int]);
                }
            }
        } else {
            assert(y == x | 0u128);
            assert(x | 0u128 == x) by (bit_vector);
            assert(m < 128 && x & ((1u128 << m) - 1) as u128 == x ==> (x >> m) & 1 == 0)
                by (bit_vector);
            if m + 1 < 128 {
                assert(m + 1 < 128 && x & ((1u128 << m) - 1) as u128 == x ==> x & ((1u128 << ((m
                    + 1) as u128)) - 1) as u128 == x) by (bit_vector);
            } else {
                assert(x & u128::MAX == x) by (bit_vector);
            }
            assert forall|i: nat| i < s.len() implies bit_of(y, i) == s[i as int] by {
                if i < m {
                    assert(prev[i as int] == s[i as int]);
                }
            }
        }
    }
}

/// Writes the `width` low bits of `value` at `pos`, the highest first.
pub(crate) fn write_uint(value: u128, width: usize, dest: &mut BitBuffer, pos: usize)
    requires
        width <= 128,
        pos + width <= bit_seq(*old(dest)).len(),
    ensures
        bit_seq(*final(dest)) == bit_seq(*old(dest)).take(pos as int) + uint_bits(value, width as nat)
            + bit_seq(*old(dest)).skip(pos + width),
{
    let ghost old_bits = bit_seq(*dest);
    // The length of the buffer (at most `BitSlice::MAX_BITS`) bounds the
    // positions below.
    let _len = dest.len();
    let mut i = width;
    while i > 0
        invariant
            i <= width <= 128,
            pos + width <= old_bits.len() <= usize::MAX,
            bit_seq(*dest).len() == old_bits.len(),
            forall|k: int|
                0 <= k < old_bits.len() ==> #[trigger] bit_seq(*dest)[k] == if pos + i <= k < pos
                    + width {
                    bit_of(value, (k - pos) as nat)
                } else {
                    old_bits[k]
                },
        decreases i,
    {
        i = i - 1;
        let b = (value >> i) & 1 == 1;
        assert(b == bit_of(value, i as nat));
        dest.set(pos + i, b);
    }
    assert(bit_seq(*dest) =~= old_bits.take(pos as int) + uint_bits(value, width as nat)
        + old_bits.skip(pos + width));
}

/// Reads `width` bits at `pos`, least significant first.
pub(crate) fn read_uint(bits: &BitBuffer, pos: usize, width: usize) -> (r: u128)
    requires
        width <= 128,
        pos + width <= bit_seq(*bits).len(),
    ensures
        r == uint_value(bit_seq(*bits).subrange(pos as int, pos + width)),
{
    let ghost s = bit_seq(*bits);
    // The length of the buffer (at most `BitSlice::MAX_BITS`) bounds the
    // positions below.
    let _len = bits.len();
    let mut result: u128 = 0;
    let mut i: usize = 0;
    while i < width
        invariant
            i <= width <= 128,
            pos + width <= s.len() <= usize::MAX,
            s == bit_seq(*bits),
            result == uint_value(s.subrange(pos as int, pos + i)),
        decreases width - i,
    {
        let bit = match bits.get(pos + i) {
            Some(b) => b,
            None => false,
        };
        let ghost next = s.subrange(pos as int, pos + i + 1);
        assert(next.drop_last() =~= s.subrange(pos as int, pos + i));
        assert(next.last() == bit);
        let ghost prev = result;
        if bit {
            result = result | (1u128 << i);
        }
        assert(result == prev | (if bit { 1u128 << (i as u128) } else { 0u128 })) by {
            if !bit {
                assert(prev | 0u128 == prev) by (bit_vector);
            }
        }
        i = i + 1;
    }
    result
}

/// The total reader behind the integer impls: `None` for a read that
/// starts past the end.
pub(crate) fn read_uint_at(bits: &BitBuffer, pos: usize, width: usize) -> (r: Option<
    Result<(usize, u128), CustomIdError>,
>)
    requires
        width <= 128,
    ensures
        match r {
            None => uint_read(bit_seq(*bits), pos as int, width as nat) is None,
            Some(Err(e)) => uint_read(bit_seq(*bits), pos as int, width as nat) == Some(
                Err::<(int, u128), CustomIdError>(e),
            ),
            Some(Ok((n, v))) => uint_read(bit_seq(*bits), pos as int, width as nat) == Some(
                Ok::<(int, u128), CustomIdError>((n as int, v)),
            ),
        },
{
    let len = bits.len();
    if pos > len {
        None
    } else if len - pos < width {
        Some(Err(CustomIdError::DeserializationFailed))
    } else {
        Some(Ok((width, read_uint(bits, pos, width))))
    }
}

} // verus!
