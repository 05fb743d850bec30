use crate::bits::{bit_seq, BitBuffer};
use crate::bittable::{lemma_spliced_append, spliced, Bittable};
use crate::error::CustomIdError;
use crate::uint::{uint_bits, uint_value};
use vstd::prelude::*;
use vstd::utf8::{
    decode_utf8, decode_utf8_encode_utf8, encode_utf8, encode_utf8_decode_utf8, encode_utf8_valid_utf8,
    valid_utf8,
};

verus! {

/// The bits of a run of bytes, eight per byte, least significant first.
pub open spec fn bytes_bits(b: Seq<u8>) -> Seq<bool>
    decreases b.len(),
{
    if b.len() == 0 {
        Seq::empty()
    } else {
        bytes_bits(b.drop_last()) + uint_bits(b.last() as u128, 8)
    }
}

/// The `count` bytes held in consecutive eight-bit groups from `pos`.
pub open spec fn bytes_at(bits: Seq<bool>, pos: int, count: nat) -> Seq<u8> {
    Seq::new(count, |k: int| uint_value(bits.subrange(pos + 8 * k, pos + 8 * k + 8)) as u8)
}

/// The string `String::from_utf8_lossy` makes of `bytes`.
pub uninterp spec fn utf8_lossy(bytes: Seq<u8>) -> Seq<char>;

/// The string that reading makes of its bytes: the decoded text when they
/// are valid UTF-8, otherwise the lossy decoding.
pub open spec fn decoded_string(bytes: Seq<u8>) -> Seq<char> {
    if valid_utf8(bytes) {
        decode_utf8(bytes)
    } else {
        utf8_lossy(bytes)
    }
}

/// `String::from_utf8`: the text when `bytes` is valid UTF-8; otherwise the
/// bytes are handed back (`FromUtf8Error::into_bytes`).
#[verifier::external_body]
fn string_from_utf8(bytes: Vec<u8>) -> (r: Result<String, Vec<u8>>)
    ensures
        match r {
            Ok(s) => valid_utf8(bytes@) && s@ == decode_utf8(bytes@),
            Err(b) => !valid_utf8(bytes@) && b@ == bytes@,
        },
{
    match String::from_utf8(bytes) {
        Ok(s) => Ok(s),
        Err(e) => Err(e.into_bytes()),
    }
}

/// `String::from_utf8_lossy(..).into_owned()`: the bytes decoded with
/// invalid sequences replaced by U+FFFD. Which replacements are made is not
/// spelled out; the result is named `utf8_lossy`.
#[verifier::external_body]
fn string_from_utf8_lossy(bytes: &[u8]) -> (r: String)
    ensures
        r@ == utf8_lossy(bytes@),
{
    String::from_utf8_lossy(bytes).into_owned()
}

proof fn lemma_bytes_bits_len(b: Seq<u8>)
    ensures
        bytes_bits(b).len() == 8 * b.len(),
    decreases b.len(),
{
    if b.len() > 0 {
        lemma_bytes_bits_len(b.drop_last());
    }
}

proof fn lemma_bytes_bits_take(b: Seq<u8>, i: int)
    requires
        0 <= i < b.len(),
    ensures
        bytes_bits(b.take(i + 1)) == bytes_bits(b.take(i)) + uint_bits(b[i] as u128, 8),
{
    assert(b.take(i + 1).drop_last() =~= b.take(i));
}

/// Byte `k` of a run sits at bits `8k .. 8k + 8` of its bits.
proof fn lemma_bytes_bits_at(b: Seq<u8>, k: int)
    requires
        0 <= k < b.len(),
    ensures
        bytes_bits(b).subrange(8 * k, 8 * k + 8) == uint_bits(b[k] as u128, 8),
    decreases b.len(),
{
    lemma_bytes_bits_len(b.drop_last());
    if k < b.len() - 1 {
        lemma_bytes_bits_at(b.drop_last(), k);
        assert(bytes_bits(b).subrange(8 * k, 8 * k + 8) =~= bytes_bits(b.drop_last()).subrange(
            8 * k,
            8 * k + 8,
        ));
    } else {
        assert(bytes_bits(b).subrange(8 * k, 8 * k + 8) =~= uint_bits(b[k] as u128, 8));
    }
}

impl Bittable for String {
    /// The UTF-8 length as a byte (modulo 256), then the UTF-8 bytes.
    open spec fn spec_bits(v: Seq<char>) -> Seq<bool> {
        uint_bits((encode_utf8(v).len() % 256) as u128, 8) + bytes_bits(encode_utf8(v))
    }

    open spec fn spec_fits(v: Seq<char>) -> bool {
        encode_utf8(v).len() <= 255
    }

    /// A byte count, then that many bytes, decoded as UTF-8 (lossily when
    /// they are not valid); fails when the bytes run out.
    open spec fn spec_read(bits: Seq<bool>, pos: int) -> Option<Result<(int, Seq<char>), CustomIdError>> {
        match u8::spec_read(bits, pos) {
            Some(Ok((n, count))) => if bits.len() - (pos + n) < 8 * count {
                Some(Err(CustomIdError::DeserializationFailed))
            } else {
                Some(Ok((n + 8 * count, decoded_string(bytes_at(bits, pos + n, count as nat)))))
            },
            Some(Err(e)) => Some(Err(e)),
            None => None,
        }
    }

    proof fn lemma_read_back(v: Seq<char>, bits: Seq<bool>, pos: int) {
        let bytes = encode_utf8(v);
        let b = Self::spec_bits(v);
        let count = bytes.len() as u8;
        lemma_bytes_bits_len(bytes);
        assert(bits.subrange(pos, pos + 8) =~= u8::spec_bits(count)) by {
            assert forall|j: int| 0 <= j < 8 implies bits.subrange(pos, pos + 8)[j]
                == u8::spec_bits(count)[j] by {
                assert(bits.subrange(pos, pos + b.len())[j] == b[j]);
            }
        }
        u8::lemma_read_back(count, bits, pos);
        assert(bytes_at(bits, pos + 8, count as nat) =~= bytes) by {
            assert forall|k: int| 0 <= k < bytes.len() implies bytes_at(bits, pos + 8, count as nat)[k]
                == bytes[k] by {
                lemma_bytes_bits_at(bytes, k);
                assert(bits.subrange(pos + 8 + 8 * k, pos + 8 + 8 * k + 8) =~= uint_bits(
                    bytes[k] as u128,
                    8,
                )) by {
                    assert forall|j: int| 0 <= j < 8 implies #[trigger] bits.subrange(
                        pos + 8 + 8 * k,
                        pos + 8 + 8 * k + 8,
                    )[j] == uint_bits(bytes[k] as u128, 8)[j] by {
                        assert(bits.subrange(pos, pos + b.len())[8 + 8 * k + j] == b[8 + 8 * k + j]);
                        assert(bytes_bits(bytes).subrange(8 * k, 8 * k + 8)[j] == bytes_bits(
                            bytes,
                        )[8 * k + j]);
                    }
                }
                u8::lemma_read_back(bytes[k], bits, pos + 8 + 8 * k);
            }
        }
        encode_utf8_valid_utf8(v);
        encode_utf8_decode_utf8(v);
    }

    proof fn lemma_read_extent(bits: Seq<bool>, pos: int) {
    }

    fn bit_count(&self) -> (n: usize) {
        proof {
            lemma_bytes_bits_len(encode_utf8(self@));
        }
        u8::BITS as usize + (self.as_str().as_bytes().len() * u8::BITS as usize)
    }

    fn write_bits(&self, dest: &mut BitBuffer, pos: usize) -> (n: usize) {
        let ghost old_bits = bit_seq(*dest);
        // The length of the buffer (at most `BitSlice::MAX_BITS`) bounds the
        // positions below.
        let _len = dest.len();
        let bytes = self.as_str().as_bytes();
        let ghost all = encode_utf8(self@);
        proof {
            lemma_bytes_bits_len(all);
        }
        let length = (bytes.len() % 256) as u8;
        let mut total_written = length.write_bits(dest, pos);
        let ghost head = uint_bits((all.len() % 256) as u128, 8);
        let mut i: usize = 0;
        proof {
            assert(all.take(0) =~= Seq::<u8>::empty());
            assert(head + bytes_bits(all.take(0)) =~= head);
        }
        while i < bytes.len()
            invariant
                bytes@ == all,
                i <= all.len(),
                head == uint_bits((all.len() % 256) as u128, 8),
                bytes_bits(all).len() == 8 * all.len(),
                total_written == 8 + 8 * i,
                pos + 8 + 8 * all.len() <= old_bits.len() <= usize::MAX,
                bit_seq(*dest) == spliced(old_bits, pos as int, head + bytes_bits(all.take(i as int))),
            decreases all.len() - i,
        {
            proof {
                lemma_bytes_bits_take(all, i as int);
                lemma_bytes_bits_len(all.take(i as int));
                lemma_spliced_append(
                    old_bits,
                    pos as int,
                    head + bytes_bits(all.take(i as int)),
                    uint_bits(all[i as int] as u128, 8),
                );
                assert(head + bytes_bits(all.take(i + 1)) =~= head + bytes_bits(all.take(i as int))
                    + uint_bits(all[i as int] as u128, 8));
            }
            total_written = total_written + bytes[i].write_bits(dest, pos + total_written);
            i = i + 1;
        }
        proof {
            assert(all.take(all.len() as int) =~= all);
        }
        total_written
    }

    fn read_bits(bits: &BitBuffer, pos: usize) -> (r: Option<Result<(usize, String), CustomIdError>>) {
        let ghost s = bit_seq(*bits);
        // The length of the buffer (at most `BitSlice::MAX_BITS`) bounds the
        // positions below.
        let _len = bits.len();
        let (mut total_read, length) = match u8::read_bits(bits, pos) {
            Some(Ok(x)) => x,
            Some(Err(e)) => return Some(Err(e)),
            None => return None,
        };
        let mut bytes: Vec<u8> = Vec::with_capacity(length as usize);
        let mut i: usize = 0;
        while i < length as usize
            invariant
                s == bit_seq(*bits),
                s.len() <= usize::MAX - 1,
                pos + 8 <= s.len(),
                u8::spec_read(s, pos as int) == Some(Ok::<(int, u8), CustomIdError>((8, length))),
                i <= length,
                total_read == 8 + 8 * i,
                pos + total_read <= s.len(),
                bytes@ == bytes_at(s, pos + 8, i as nat),
            decreases length - i,
        {
            let (read, byte) = match u8::read_bits(bits, pos + total_read) {
                Some(Ok(x)) => x,
                Some(Err(e)) => return Some(Err(e)),
                None => return None,
            };
            total_read = total_read + read;
            bytes.push(byte);
            proof {
                assert(bytes@ =~= bytes_at(s, pos + 8, (i + 1) as nat));
            }
            i = i + 1;
        }
        let string = match string_from_utf8(bytes) {
            Ok(string) => string,
            Err(bytes) => string_from_utf8_lossy(bytes.as_slice()),
        };
        Some(Ok((total_read, string)))
    }
}

/// A string is written as its UTF-8 byte length modulo 256, as a `u8`,
/// then its UTF-8 bytes in order, each as a `u8`.
pub proof fn lemma_string_layout(v: Seq<char>)
    ensures
        <String as Bittable>::spec_bits(v).len() == 8 + 8 * encode_utf8(v).len(),
        <String as Bittable>::spec_bits(v).take(8) == <u8 as Bittable>::spec_bits(
            (encode_utf8(v).len() % 256) as u8,
        ),
        forall|k: int|
            0 <= k < encode_utf8(v).len() ==> <String as Bittable>::spec_bits(v).subrange(
                8 + 8 * k,
                16 + 8 * k,
            ) == <u8 as Bittable>::spec_bits(#[trigger] encode_utf8(v)[k]),
{
    let bytes = encode_utf8(v);
    let b = <String as Bittable>::spec_bits(v);
    lemma_bytes_bits_len(bytes);
    assert(b.take(8) =~= <u8 as Bittable>::spec_bits((bytes.len() % 256) as u8));
    assert forall|k: int| 0 <= k < bytes.len() implies b.subrange(8 + 8 * k, 16 + 8 * k)
        == <u8 as Bittable>::spec_bits(#[trigger] bytes[k]) by {
        lemma_bytes_bits_at(bytes, k);
        assert(b.subrange(8 + 8 * k, 16 + 8 * k) =~= bytes_bits(bytes).subrange(8 * k, 8 * k + 8));
    }
}

/// Reading a string reads its byte count `c` as a `u8` at `pos`. It fails
/// when fewer than `8 * c` bits follow; otherwise it takes `8 + 8 * c`
/// bits, byte `k` being the `u8` read at `pos + 8 + 8 * k`, and the text is
/// the one those bytes encode when they are valid UTF-8 (their lossy
/// decoding otherwise). A count that cannot be read ends the read the same
/// way.
pub proof fn lemma_string_read(bits: Seq<bool>, pos: int)
    ensures
        <u8 as Bittable>::spec_read(bits, pos) matches Some(Err(e)) ==> <String as Bittable>::spec_read(
            bits,
            pos,
        ) == Some(Err::<(int, Seq<char>), CustomIdError>(e)),
        <u8 as Bittable>::spec_read(bits, pos) is None ==> <String as Bittable>::spec_read(bits, pos) is None,
        <u8 as Bittable>::spec_read(bits, pos) matches Some(Ok((n, c))) ==> {
            &&& n == 8
            &&& bits.len() - (pos + 8) < 8 * c ==> <String as Bittable>::spec_read(bits, pos) == Some(
                Err::<(int, Seq<char>), CustomIdError>(CustomIdError::DeserializationFailed),
            )
            &&& bits.len() - (pos + 8) >= 8 * c ==> (<String as Bittable>::spec_read(bits, pos) matches Some(
                Ok((m, s)),
            ) && m == 8 + 8 * c && exists|bytes: Seq<u8>|
                {
                    &&& bytes.len() == c
                    &&& forall|k: int|
                        0 <= k < c ==> <u8 as Bittable>::spec_read(bits, pos + 8 + 8 * k) == Some(
                            Ok::<(int, u8), CustomIdError>((8, #[trigger] bytes[k])),
                        )
                    &&& valid_utf8(bytes) ==> encode_utf8(s) == bytes
                    &&& !valid_utf8(bytes) ==> s == utf8_lossy(bytes)
                })
        },
{
    if let Some(Ok((n, c))) = <u8 as Bittable>::spec_read(bits, pos) {
        if bits.len() - (pos + 8) >= 8 * c {
            let bytes = bytes_at(bits, pos + 8, c as nat);
            let (m, s) = <String as Bittable>::spec_read(bits, pos)->Some_0->Ok_0;
            assert forall|k: int| 0 <= k < c implies <u8 as Bittable>::spec_read(
                bits,
                pos + 8 + 8 * k,
            ) == Some(Ok::<(int, u8), CustomIdError>((8, #[trigger] bytes[k]))) by {
                assert(pos + 8 + 8 * k + 8 <= pos + 8 + 8 * c) by (nonlinear_arith)
                    requires
                        k < c,
                ;
            }
            if valid_utf8(bytes) {
                decode_utf8_encode_utf8(bytes);
            }
        }
    }
}

} // verus!
