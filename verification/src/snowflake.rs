use crate::bits::BitBuffer;
use crate::bittable::Bittable;
use crate::error::CustomIdError;
use vstd::prelude::*;

verus! {

/// A Discord id: a nonzero 64-bit number (what `twilight_model`'s `Id`
/// holds, without its marker type).
#[derive(Debug, Clone, Copy, PartialEq, Eq, Structural)]
pub struct Snowflake {
    value: u64,
}

impl Snowflake {
    #[verifier::type_invariant]
    spec fn nonzero(self) -> bool {
        self.value != 0
    }

    /// The id with number `n`. Zero is no id.
    pub fn new(n: u64) -> (r: Snowflake)
        requires
            n != 0,
        ensures
            r.deep_view() == n,
    {
        Snowflake { value: n }
    }

    /// The id's number.
    pub fn get(&self) -> (n: u64)
        ensures
            n == self.deep_view(),
            n != 0,
    {
        proof {
            use_type_invariant(self);
        }
        self.value
    }
}

impl DeepView for Snowflake {
    type V = u64;

    closed spec fn deep_view(&self) -> u64 {
        self.value
    }
}

impl Bittable for Snowflake {
    /// The id's number as a `u64`.
    open spec fn spec_bits(v: u64) -> Seq<bool> {
        u64::spec_bits(v)
    }

    open spec fn spec_fits(v: u64) -> bool {
        v != 0
    }

    /// A `u64`; reading the number zero makes no id, and is left out
    /// (`None`) like a read past the end.
    open spec fn spec_read(bits: Seq<bool>, pos: int) -> Option<Result<(int, u64), CustomIdError>> {
        match u64::spec_read(bits, pos) {
            Some(Ok((n, x))) => if x == 0 {
                None
            } else {
                Some(Ok((n, x)))
            },
            Some(Err(e)) => Some(Err(e)),
            None => None,
        }
    }

    proof fn lemma_read_back(v: u64, bits: Seq<bool>, pos: int) {
        u64::lemma_read_back(v, bits, pos);
    }

    proof fn lemma_read_extent(bits: Seq<bool>, pos: int) {
        u64::lemma_read_extent(bits, pos);
    }

    fn bit_count(&self) -> (n: usize) {
        u64::BITS as usize
    }

    fn write_bits(&self, dest: &mut BitBuffer, pos: usize) -> (n: usize) {
        self.get().write_bits(dest, pos)
    }

    fn read_bits(bits: &BitBuffer, pos: usize) -> (r: Option<Result<(usize, Snowflake), CustomIdError>>) {
        let (read, id) = match u64::read_bits(bits, pos) {
            Some(Ok(x)) => x,
            Some(Err(e)) => return Some(Err(e)),
            None => return None,
        };
        if id == 0 {
            return None;
        }
        Some(Ok((read, Snowflake::new(id))))
    }
}

/// An id is written as the 64 bits of its number, least significant first.
pub proof fn lemma_snowflake_layout(v: u64)
    ensures
        <Snowflake as Bittable>::spec_bits(v).len() == 64,
        forall|k: int|
            0 <= k < 64 ==> #[trigger] <Snowflake as Bittable>::spec_bits(v)[k] == ((v >> (
            k as u64)) & 1 == 1),
{
    crate::int_laws::lemma_u64_layout(v);
}

/// Reading an id reads a `u64` there: a failure or a read past the end
/// stays so, the number zero makes no id (`None`), and any other number is
/// the id read.
pub proof fn lemma_snowflake_read(bits: Seq<bool>, pos: int)
    ensures
        <u64 as Bittable>::spec_read(bits, pos) matches Some(Ok((n, x))) ==> (x == 0
            ==> <Snowflake as Bittable>::spec_read(bits, pos) is None) && (x != 0
            ==> <Snowflake as Bittable>::spec_read(bits, pos) == Some(
            Ok::<(int, u64), CustomIdError>((n, x)),
        )),
        <u64 as Bittable>::spec_read(bits, pos) matches Some(Err(e)) ==> <Snowflake as Bittable>::spec_read(
            bits,
            pos,
        ) == Some(Err::<(int, u64), CustomIdError>(e)),
        <u64 as Bittable>::spec_read(bits, pos) is None ==> <Snowflake as Bittable>::spec_read(bits, pos) is None,
{
}

} // verus!
