use crate::bits::{bit_seq, BitBuffer};
use crate::error::CustomIdError;
use vstd::prelude::*;

verus! {

/// `s` with the run `b` written over it from `pos` on.
pub open spec fn spliced(s: Seq<bool>, pos: int, b: Seq<bool>) -> Seq<bool> {
    s.take(pos) + b + s.skip(pos + b.len())
}

/// Writing `b` at `pos` keeps the length, puts `b` at `pos .. pos +
/// b.len()`, and keeps every other bit.
pub proof fn lemma_spliced(s: Seq<bool>, pos: int, b: Seq<bool>)
    requires
        0 <= pos,
        pos + b.len() <= s.len(),
    ensures
        spliced(s, pos, b).len() == s.len(),
        forall|k: int|
            0 <= k < s.len() ==> #[trigger] spliced(s, pos, b)[k] == if pos <= k < pos + b.len() {
                b[k - pos]
            } else {
                s[k]
            },
{
}

/// Writing `a` and then `b` right after it is writing `a + b`.
pub proof fn lemma_spliced_append(s: Seq<bool>, pos: int, a: Seq<bool>, b: Seq<bool>)
    requires
        0 <= pos,
        pos + a.len() + b.len() <= s.len(),
    ensures
        spliced(spliced(s, pos, a), pos + a.len(), b) == spliced(s, pos, a + b),
{
    assert(spliced(spliced(s, pos, a), pos + a.len(), b) =~= spliced(s, pos, a + b));
}

/// What a read returned, with the value taken by its model.
pub open spec fn read_model<T: DeepView>(r: Result<(usize, T), CustomIdError>) -> Result<
    (int, T::V),
    CustomIdError,
> {
    match r {
        Ok((n, v)) => Ok((n as int, v.deep_view())),
        Err(e) => Err(e),
    }
}

/// As `read_model`, for the total reader: `None` marks a read that cannot
/// be made.
pub open spec fn read_outcome<T: DeepView>(r: Option<Result<(usize, T), CustomIdError>>) -> Option<
    Result<(int, T::V), CustomIdError>,
> {
    match r {
        Some(x) => Some(read_model(x)),
        None => None,
    }
}

/// A type whose values can be laid down as a run of bits and read back.
///
/// A value's layout depends only on its model (`deep_view`): `spec_bits`.
/// Reading at a position is `spec_read`: it reports the number of bits taken
/// and the model of the value read, an error when the bits run out, or
/// `None` where no read can be made: it would start past the end of the
/// bits, or the bits stand for no value (a zero `Snowflake`).
pub trait Bittable: Sized + DeepView {
    /// The bits written for a value with model `v`.
    spec fn spec_bits(v: Self::V) -> Seq<bool>;

    /// Whether a value with model `v` reads back as itself (every length
    /// prefix inside it fits in a byte).
    spec fn spec_fits(v: Self::V) -> bool;

    /// The outcome of reading a value from `bits` at `pos`.
    spec fn spec_read(bits: Seq<bool>, pos: int) -> Option<Result<(int, Self::V), CustomIdError>>;

    /// Reading at `pos` where a value's bits were laid down gives the value
    /// back and takes exactly its bits, whatever surrounds them.
    proof fn lemma_read_back(v: Self::V, bits: Seq<bool>, pos: int)
        requires
            Self::spec_fits(v),
            0 <= pos,
            pos + Self::spec_bits(v).len() <= bits.len(),
            bits.subrange(pos, pos + Self::spec_bits(v).len()) == Self::spec_bits(v),
        ensures
            Self::spec_read(bits, pos) == Some(
                Ok::<(int, Self::V), CustomIdError>((Self::spec_bits(v).len() as int, v)),
            ),
    ;

    /// A read that succeeds starts within the bits and ends at most one bit
    /// past their end (a `bool` read at the very end takes one bit).
    proof fn lemma_read_extent(bits: Seq<bool>, pos: int)
        ensures
            Self::spec_read(bits, pos) matches Some(Ok((n, v))) ==> 0 <= pos <= bits.len() && 0
                <= n && pos + n <= bits.len() + 1,
    ;

    /// The number of bits that `write_bits` writes for this value.
    fn bit_count(&self) -> (n: usize)
        requires
            Self::spec_bits(self.deep_view()).len() <= usize::MAX,
        ensures
            n == Self::spec_bits(self.deep_view()).len(),
    ;

    /// Writes this value's bits into `dest` from `pos` on, and returns how
    /// many were written. The rest of `dest` is left as it was.
    fn write_bits(&self, dest: &mut BitBuffer, pos: usize) -> (n: usize)
        requires
            pos + Self::spec_bits(self.deep_view()).len() <= bit_seq(*old(dest)).len(),
        ensures
            n == Self::spec_bits(self.deep_view()).len(),
            bit_seq(*final(dest)) == spliced(
                bit_seq(*old(dest)),
                pos as int,
                Self::spec_bits(self.deep_view()),
            ),
    ;

    /// Reads a value from `bits` at `pos`: the number of bits taken and the
    /// value, an error, or `None` where no read can be made (see
    /// `spec_read`).
    fn read_bits(bits: &BitBuffer, pos: usize) -> (r: Option<Result<(usize, Self), CustomIdError>>)
        ensures
            read_outcome(r) == Self::spec_read(bit_seq(*bits), pos as int),
    ;

    /// Reads a value from `bits` at `pos`: the number of bits taken and the
    /// value, or `DeserializationFailed` when the bits run out.
    fn from_bits(bits: &BitBuffer, pos: usize) -> (r: Result<(usize, Self), CustomIdError>)
        requires
            Self::spec_read(bit_seq(*bits), pos as int) is Some,
        ensures
            Self::spec_read(bit_seq(*bits), pos as int) == Some(read_model(r)),
    {
        match Self::read_bits(bits, pos) {
            Some(r) => r,
            None => Err(CustomIdError::DeserializationFailed),
        }
    }
}

} // verus!
