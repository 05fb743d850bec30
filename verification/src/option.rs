use crate::bits::{bit_seq, BitBuffer};
use crate::bittable::{spliced, Bittable};
use crate::error::CustomIdError;
use vstd::prelude::*;

verus! {

impl<T: Bittable> Bittable for Option<T> {
    /// A presence bit, then the value's bits when there is one.
    open spec fn spec_bits(v: Option<T::V>) -> Seq<bool> {
        match v {
            Some(x) => seq![true] + T::spec_bits(x),
            None => seq![false],
        }
    }

    open spec fn spec_fits(v: Option<T::V>) -> bool {
        match v {
            Some(x) => T::spec_fits(x),
            None => true,
        }
    }

    /// The presence bit is read as a `bool` (so `false` at the very end);
    /// when it is set, the value follows it.
    open spec fn spec_read(bits: Seq<bool>, pos: int) -> Option<
        Result<(int, Option<T::V>), CustomIdError>,
    > {
        if pos < 0 || pos > bits.len() {
            None
        } else if pos == bits.len() || !bits[pos] {
            Some(Ok((1, None)))
        } else {
            match T::spec_read(bits, pos + 1) {
                Some(Ok((n, x))) => Some(Ok((1 + n, Some(x)))),
                Some(Err(e)) => Some(Err(e)),
                None => None,
            }
        }
    }

    proof fn lemma_read_back(v: Option<T::V>, bits: Seq<bool>, pos: int) {
        let b = Self::spec_bits(v);
        assert(bits[pos] == b[0]) by {
            assert(bits.subrange(pos, pos + b.len())[0] == bits[pos]);
        }
        if let Some(x) = v {
            let xb = T::spec_bits(x);
            assert(bits.subrange(pos + 1, pos + 1 + xb.len()) =~= xb) by {
                assert forall|k: int| 0 <= k < xb.len() implies bits.subrange(
                    pos + 1,
                    pos + 1 + xb.len(),
                )[k] == xb[k] by {
                    assert(bits.subrange(pos, pos + b.len())[k + 1] == b[k + 1]);
                }
            }
            T::lemma_read_back(x, bits, pos + 1);
        }
    }

    proof fn lemma_read_extent(bits: Seq<bool>, pos: int) {
        T::lemma_read_extent(bits, pos + 1);
    }

    fn bit_count(&self) -> (n: usize) {
        1 + match self {
            Some(item) => item.bit_count(),
            None => 0,
        }
    }

    fn write_bits(&self, dest: &mut BitBuffer, pos: usize) -> (n: usize) {
        let ghost old_bits = bit_seq(*dest);
        // The length of the buffer (at most `BitSlice::MAX_BITS`) bounds the
        // positions below.
        let _len = dest.len();
        let mut total_written = self.is_some().write_bits(dest, pos);
        if let Some(item) = self {
            let ghost mid = bit_seq(*dest);
            total_written = total_written + item.write_bits(dest, pos + total_written);
            assert(bit_seq(*dest) =~= spliced(old_bits, pos as int, Self::spec_bits(self.deep_view())));
        } else {
            assert(bit_seq(*dest) =~= spliced(old_bits, pos as int, Self::spec_bits(self.deep_view())));
        }
        total_written
    }

    fn read_bits(bits: &BitBuffer, pos: usize) -> (r: Option<
        Result<(usize, Option<T>), CustomIdError>,
    >) {
        // The length of the buffer (at most `BitSlice::MAX_BITS`) bounds the
        // positions below.
        let _len = bits.len();
        let (mut total_read, exists) = match bool::read_bits(bits, pos) {
            Some(Ok(x)) => x,
            Some(Err(e)) => return Some(Err(e)),
            None => return None,
        };
        if !exists {
            return Some(Ok((total_read, None)));
        }
        let (read, item) = match T::read_bits(bits, pos + total_read) {
            Some(Ok(x)) => x,
            Some(Err(e)) => return Some(Err(e)),
            None => return None,
        };
        proof {
            T::lemma_read_extent(bit_seq(*bits), pos + 1);
        }
        total_read = total_read + read;
        Some(Ok((total_read, Some(item))))
    }
}

/// An option is written as a presence bit, set exactly when it holds a
/// value, followed by the value's bits when it holds one.
pub proof fn lemma_option_layout<T: Bittable>(v: Option<T::V>)
    ensures
        <Option<T> as Bittable>::spec_bits(v).len() >= 1,
        <Option<T> as Bittable>::spec_bits(v)[0] == v is Some,
        v is None ==> <Option<T> as Bittable>::spec_bits(v).len() == 1,
        v matches Some(x) ==> <Option<T> as Bittable>::spec_bits(v).skip(1) == T::spec_bits(x),
{
    if let Some(x) = v {
        assert(<Option<T> as Bittable>::spec_bits(v).skip(1) =~= T::spec_bits(x));
    }
}

/// Reading an option reads its presence bit as a `bool` does (`false` at
/// the very end of the bits): unset, it gives `None` after one bit; set, it
/// gives the value read right after that bit, one bit longer.
pub proof fn lemma_option_read<T: Bittable>(bits: Seq<bool>, pos: int)
    ensures
        (pos < 0 || pos > bits.len()) ==> <Option<T> as Bittable>::spec_read(bits, pos) is None,
        0 <= pos <= bits.len() && (pos == bits.len() || !bits[pos]) ==> <Option<T> as Bittable>::spec_read(
            bits,
            pos,
        ) == Some(Ok::<(int, Option<T::V>), CustomIdError>((1, None))),
        0 <= pos < bits.len() && bits[pos] ==> match T::spec_read(bits, pos + 1) {
            Some(Ok((m, x))) => <Option<T> as Bittable>::spec_read(bits, pos) == Some(
                Ok::<(int, Option<T::V>), CustomIdError>((m + 1, Some(x))),
            ),
            Some(Err(e)) => <Option<T> as Bittable>::spec_read(bits, pos) == Some(
                Err::<(int, Option<T::V>), CustomIdError>(e),
            ),
            None => <Option<T> as Bittable>::spec_read(bits, pos) is None,
        },
{
}

} // verus!
