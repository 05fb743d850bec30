use bitvec::order::Lsb0;
use bitvec::vec::BitVec;
use vstd::prelude::*;

verus! {

/// A growable run of bits, indexed from zero, held in a `bitvec` bit-vector
/// (`usize` storage, least significant bit first).
#[verifier::external_body]
pub struct BitBuffer {
    inner: BitVec<usize, Lsb0>,
}

/// The bits that a buffer holds, in index order.
pub uninterp spec fn bit_seq(b: BitBuffer) -> Seq<bool>;

/// The most bits a `bitvec` bit-vector can hold (`BitSlice::MAX_BITS`, a
/// `usize` with its three high bits clear).
pub open spec fn max_bits() -> nat {
    (usize::MAX / 8) as nat
}

impl BitBuffer {
    /// `BitVec::repeat(false, len)`: `len` cleared bits. The crate's source
    /// panics when `len` exceeds `BitSlice::MAX_BITS`.
    #[verifier::external_body]
    pub(crate) fn zeroed(len: usize) -> (r: BitBuffer)
        requires
            len <= max_bits(),
        ensures
            bit_seq(r) == Seq::new(len as nat, |i: int| false),
    {
        BitBuffer { inner: BitVec::repeat(false, len) }
    }

    /// `BitVec::with_capacity`: an empty bit-vector; the capacity is not
    /// observed. The crate's source panics above `BitSlice::MAX_BITS`.
    #[verifier::external_body]
    pub(crate) fn with_capacity(capacity: usize) -> (r: BitBuffer)
        requires
            capacity <= max_bits(),
        ensures
            bit_seq(r) == Seq::<bool>::empty(),
    {
        BitBuffer { inner: BitVec::with_capacity(capacity) }
    }

    /// `BitVec::len`: the number of bits held, which never exceeds
    /// `BitSlice::MAX_BITS` (the crate's constructors and `push` panic
    /// before a bit-vector grows past it).
    #[verifier::external_body]
    pub(crate) fn len(&self) -> (n: usize)
        ensures
            n == bit_seq(*self).len(),
            n <= max_bits(),
    {
        self.inner.len()
    }

    /// `BitSlice::get` on one index: the bit there, or `None` past the end.
    #[verifier::external_body]
    pub(crate) fn get(&self, index: usize) -> (r: Option<bool>)
        ensures
            r == (if index < bit_seq(*self).len() {
                Some(bit_seq(*self)[index as int])
            } else {
                None
            }),
    {
        self.inner.get(index).map(|b| *b)
    }

    /// `BitSlice::set`: overwrites one bit. The crate's source panics when
    /// `index` is out of bounds.
    #[verifier::external_body]
    pub(crate) fn set(&mut self, index: usize, value: bool)
        requires
            index < bit_seq(*old(self)).len(),
        ensures
            bit_seq(*final(self)) == bit_seq(*old(self)).update(index as int, value),
    {
        self.inner.set(index, value)
    }

    /// A buffer holding `bits`, in order.
    pub fn from_bools(bits: &Vec<bool>) -> (r: BitBuffer)
        requires
            bits.len() <= max_bits(),
        ensures
            bit_seq(r) == bits@,
    {
        let mut buffer = BitBuffer::with_capacity(bits.len());
        let mut i: usize = 0;
        while i < bits.len()
            invariant
                bits.len() <= max_bits(),
                i <= bits.len(),
                bit_seq(buffer) == bits@.take(i as int),
            decreases bits.len() - i,
        {
            buffer.push(bits[i]);
            i = i + 1;
            proof {
                assert(bit_seq(buffer) =~= bits@.take(i as int));
            }
        }
        proof {
            assert(bits@.take(bits.len() as int) =~= bits@);
        }
        buffer
    }

    /// The bits this buffer holds, in order.
    pub fn to_bools(&self) -> (r: Vec<bool>)
        ensures
            r@ == bit_seq(*self),
    {
        let len = self.len();
        let mut out: Vec<bool> = Vec::with_capacity(len);
        let mut i: usize = 0;
        while i < len
            invariant
                len == bit_seq(*self).len(),
                i <= len,
                out@ == bit_seq(*self).take(i as int),
            decreases len - i,
        {
            let bit = match self.get(i) {
                Some(b) => b,
                None => false,
            };
            out.push(bit);
            i = i + 1;
            proof {
                assert(out@ =~= bit_seq(*self).take(i as int));
            }
        }
        proof {
            assert(bit_seq(*self).take(len as int) =~= bit_seq(*self));
        }
        out
    }

    /// `BitVec::push`: appends one bit. The crate's source panics when the
    /// new length would exceed `BitSlice::MAX_BITS`.
    #[verifier::external_body]
    pub(crate) fn push(&mut self, value: bool)
        requires
            bit_seq(*old(self)).len() + 1 <= max_bits(),
        ensures
            bit_seq(*final(self)) == bit_seq(*old(self)).push(value),
    {
        self.inner.push(value)
    }
}

} // verus!
