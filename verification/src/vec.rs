use crate::bits::{bit_seq, BitBuffer};
use crate::bittable::{lemma_spliced_append, spliced, Bittable};
use crate::error::CustomIdError;
use crate::uint::uint_bits;
use vstd::prelude::*;

verus! {

/// The bits of the items of a sequence, one after another.
pub open spec fn items_bits<T: Bittable>(vs: Seq<T::V>) -> Seq<bool>
    decreases vs.len(),
{
    if vs.len() == 0 {
        Seq::empty()
    } else {
        items_bits::<T>(vs.drop_last()) + T::spec_bits(vs.last())
    }
}

/// Reading `count` items one after another from `pos`: the bits taken by
/// all of them and their models, or the first item's failure.
pub open spec fn read_items<T: Bittable>(bits: Seq<bool>, pos: int, count: nat) -> Option<
    Result<(int, Seq<T::V>), CustomIdError>,
>
    decreases count,
{
    if count == 0 {
        Some(Ok((0, Seq::empty())))
    } else {
        match read_items::<T>(bits, pos, (count - 1) as nat) {
            Some(Ok((n, vs))) => match T::spec_read(bits, pos + n) {
                Some(Ok((m, v))) => Some(Ok((n + m, vs.push(v)))),
                Some(Err(e)) => Some(Err(e)),
                None => None,
            },
            Some(Err(e)) => Some(Err(e)),
            None => None,
        }
    }
}

proof fn lemma_items_bits_take<T: Bittable>(vs: Seq<T::V>, i: int)
    requires
        0 <= i < vs.len(),
    ensures
        items_bits::<T>(vs.take(i + 1)) == items_bits::<T>(vs.take(i)) + T::spec_bits(vs[i]),
{
    assert(vs.take(i + 1).drop_last() =~= vs.take(i));
}

/// The bits of the first `k` items are the start of the bits of all.
proof fn lemma_items_bits_prefix<T: Bittable>(vs: Seq<T::V>, k: int)
    requires
        0 <= k <= vs.len(),
    ensures
        items_bits::<T>(vs.take(k)).len() <= items_bits::<T>(vs).len(),
        items_bits::<T>(vs).take(items_bits::<T>(vs.take(k)).len() as int) == items_bits::<T>(
            vs.take(k),
        ),
    decreases vs.len(),
{
    if k == vs.len() {
        assert(vs.take(k) =~= vs);
    } else {
        let rest = vs.drop_last();
        assert(rest.take(k) =~= vs.take(k));
        lemma_items_bits_prefix::<T>(rest, k);
        assert(items_bits::<T>(vs).take(items_bits::<T>(vs.take(k)).len() as int)
            =~= items_bits::<T>(rest).take(items_bits::<T>(vs.take(k)).len() as int));
    }
}

/// Where the bits of the items were laid down, reading the first `k` of
/// them gives them back.
proof fn lemma_read_items_back<T: Bittable>(vs: Seq<T::V>, bits: Seq<bool>, pos: int, k: int)
    requires
        0 <= k <= vs.len(),
        forall|i: int| 0 <= i < vs.len() ==> T::spec_fits(#[trigger] vs[i]),
        0 <= pos,
        pos + items_bits::<T>(vs).len() <= bits.len(),
        bits.subrange(pos, pos + items_bits::<T>(vs).len()) == items_bits::<T>(vs),
    ensures
        read_items::<T>(bits, pos, k as nat) == Some(
            Ok::<(int, Seq<T::V>), CustomIdError>(
                (items_bits::<T>(vs.take(k)).len() as int, vs.take(k)),
            ),
        ),
    decreases k,
{
    if k == 0 {
        assert(vs.take(0) =~= Seq::<T::V>::empty());
    } else {
        lemma_read_items_back::<T>(vs, bits, pos, k - 1);
        lemma_items_bits_take::<T>(vs, k - 1);
        lemma_items_bits_prefix::<T>(vs, k);
        let all = items_bits::<T>(vs);
        let before = items_bits::<T>(vs.take(k - 1));
        let item = T::spec_bits(vs[k - 1]);
        let start = pos + before.len();
        assert(bits.subrange(start, start + item.len()) =~= item) by {
            assert forall|j: int| 0 <= j < item.len() implies bits.subrange(
                start,
                start + item.len(),
            )[j] == item[j] by {
                assert(bits.subrange(pos, pos + all.len())[before.len() + j] == all[before.len()
                    + j]);
                assert(all.take((before + item).len() as int)[before.len() + j] == (before
                    + item)[before.len() + j]);
            }
        }
        T::lemma_read_back(vs[k - 1], bits, start);
        assert(vs.take(k - 1).push(vs[k - 1]) =~= vs.take(k));
    }
}

/// Once reading items fails, reading more of them fails the same way.
proof fn lemma_read_items_stuck<T: Bittable>(bits: Seq<bool>, pos: int, k: nat, k2: nat)
    requires
        k <= k2,
        !(read_items::<T>(bits, pos, k) is Some && read_items::<T>(bits, pos, k).unwrap() is Ok),
    ensures
        read_items::<T>(bits, pos, k2) == read_items::<T>(bits, pos, k),
    decreases k2,
{
    if k2 > k {
        lemma_read_items_stuck::<T>(bits, pos, k, (k2 - 1) as nat);
    }
}

/// Reading items that succeeds stays within one bit past the end.
proof fn lemma_read_items_extent<T: Bittable>(bits: Seq<bool>, pos: int, k: nat)
    requires
        0 <= pos <= bits.len(),
    ensures
        read_items::<T>(bits, pos, k) matches Some(Ok((n, vs))) ==> 0 <= n && pos + n
            <= bits.len() + 1 && vs.len() == k,
    decreases k,
{
    if k > 0 {
        lemma_read_items_extent::<T>(bits, pos, (k - 1) as nat);
        if let Some(Ok((n, vs))) = read_items::<T>(bits, pos, (k - 1) as nat) {
            T::lemma_read_extent(bits, pos + n);
        }
    }
}

impl<T: Bittable> Bittable for Vec<T> {
    /// The number of items as a byte (the count modulo 256), then the
    /// items' bits one after another.
    open spec fn spec_bits(v: Seq<T::V>) -> Seq<bool> {
        uint_bits((v.len() % 256) as u128, 8) + items_bits::<T>(v)
    }

    open spec fn spec_fits(v: Seq<T::V>) -> bool {
        &&& v.len() <= 255
        &&& forall|i: int| 0 <= i < v.len() ==> T::spec_fits(#[trigger] v[i])
    }

    /// A byte count, then that many items.
    open spec fn spec_read(bits: Seq<bool>, pos: int) -> Option<
        Result<(int, Seq<T::V>), CustomIdError>,
    > {
        match u8::spec_read(bits, pos) {
            Some(Ok((n, count))) => match read_items::<T>(bits, pos + n, count as nat) {
                Some(Ok((m, vs))) => Some(Ok((n + m, vs))),
                Some(Err(e)) => Some(Err(e)),
                None => None,
            },
            Some(Err(e)) => Some(Err(e)),
            None => None,
        }
    }

    proof fn lemma_read_back(v: Seq<T::V>, bits: Seq<bool>, pos: int) {
        let b = Self::spec_bits(v);
        let items = items_bits::<T>(v);
        let count = v.len() as u8;
        assert((count as u128) == (v.len() % 256) as u128);
        assert(bits.subrange(pos, pos + 8) =~= u8::spec_bits(count)) by {
            assert forall|j: int| 0 <= j < 8 implies bits.subrange(pos, pos + 8)[j]
                == u8::spec_bits(count)[j] by {
                assert(bits.subrange(pos, pos + b.len())[j] == b[j]);
            }
        }
        u8::lemma_read_back(count, bits, pos);
        assert(bits.subrange(pos + 8, pos + 8 + items.len()) =~= items) by {
            assert forall|j: int| 0 <= j < items.len() implies bits.subrange(
                pos + 8,
                pos + 8 + items.len(),
            )[j] == items[j] by {
                assert(bits.subrange(pos, pos + b.len())[8 + j] == b[8 + j]);
            }
        }
        lemma_read_items_back::<T>(v, bits, pos + 8, v.len() as int);
        assert(v.take(v.len() as int) =~= v);
    }

    proof fn lemma_read_extent(bits: Seq<bool>, pos: int) {
        if let Some(Ok((n, count))) = u8::spec_read(bits, pos) {
            lemma_read_items_extent::<T>(bits, pos + n, count as nat);
        }
    }

    fn bit_count(&self) -> (n: usize) {
        let ghost vs = self.deep_view();
        let mut acc: usize = 0;
        let mut i: usize = 0;
        proof {
            lemma_items_bits_prefix::<T>(vs, 0);
        }
        while i < self.len()
            invariant
                vs == self.deep_view(),
                i <= vs.len(),
                acc == items_bits::<T>(vs.take(i as int)).len(),
                8 + items_bits::<T>(vs).len() <= usize::MAX,
            decreases vs.len() - i,
        {
            proof {
                lemma_items_bits_take::<T>(vs, i as int);
                lemma_items_bits_prefix::<T>(vs, i + 1);
            }
            acc = acc + self[i].bit_count();
            i = i + 1;
        }
        proof {
            assert(vs.take(vs.len() as int) =~= vs);
        }
        u8::BITS as usize + acc
    }

    fn write_bits(&self, dest: &mut BitBuffer, pos: usize) -> (n: usize) {
        let ghost old_bits = bit_seq(*dest);
        let ghost vs = self.deep_view();
        // The length of the buffer (at most `BitSlice::MAX_BITS`) bounds the
        // positions below.
        let _len = dest.len();
        let length = (self.len() % 256) as u8;
        let mut total_written = length.write_bits(dest, pos);
        let ghost head = uint_bits((vs.len() % 256) as u128, 8);
        let mut i: usize = 0;
        proof {
            assert(vs.take(0) =~= Seq::<T::V>::empty());
            assert(head + items_bits::<T>(vs.take(0)) =~= head);
            lemma_items_bits_prefix::<T>(vs, 0);
        }
        while i < self.len()
            invariant
                vs == self.deep_view(),
                i <= vs.len(),
                head == uint_bits((vs.len() % 256) as u128, 8),
                total_written == 8 + items_bits::<T>(vs.take(i as int)).len(),
                pos + 8 + items_bits::<T>(vs).len() <= old_bits.len() <= usize::MAX,
                bit_seq(*dest) == spliced(old_bits, pos as int, head + items_bits::<T>(vs.take(i as int))),
            decreases vs.len() - i,
        {
            proof {
                lemma_items_bits_take::<T>(vs, i as int);
                lemma_items_bits_prefix::<T>(vs, i + 1);
                lemma_spliced_append(
                    old_bits,
                    pos as int,
                    head + items_bits::<T>(vs.take(i as int)),
                    T::spec_bits(vs[i as int]),
                );
                assert(head + items_bits::<T>(vs.take(i + 1)) =~= head + items_bits::<T>(vs.take(i as int)) + T::spec_bits(vs[i as int]));
            }
            total_written = total_written + self[i].write_bits(dest, pos + total_written);
            i = i + 1;
        }
        proof {
            assert(vs.take(vs.len() as int) =~= vs);
        }
        total_written
    }

    fn read_bits(bits: &BitBuffer, pos: usize) -> (r: Option<Result<(usize, Vec<T>), CustomIdError>>) {
        let ghost s = bit_seq(*bits);
        // The length of the buffer (at most `BitSlice::MAX_BITS`) bounds the
        // positions below.
        let _len = bits.len();
        let (mut total_read, length) = match u8::read_bits(bits, pos) {
            Some(Ok(x)) => x,
            Some(Err(e)) => return Some(Err(e)),
            None => return None,
        };
        let mut result: Vec<T> = Vec::with_capacity(length as usize);
        let mut i: usize = 0;
        proof {
            assert(result.deep_view() =~= Seq::<T::V>::empty());
        }
        while i < length as usize
            invariant
                s == bit_seq(*bits),
                s.len() <= usize::MAX - 1,
                total_read >= 8,
                pos + 8 <= s.len(),
                u8::spec_read(s, pos as int) == Some(Ok::<(int, u8), CustomIdError>((8, length))),
                i <= length,
                pos + total_read <= s.len() + 1,
                read_items::<T>(s, pos + 8, i as nat) == Some(
                    Ok::<(int, Seq<T::V>), CustomIdError>((total_read - 8, result.deep_view())),
                ),
            decreases length - i,
        {
            let (read, item) = match T::read_bits(bits, pos + total_read) {
                Some(Ok(x)) => x,
                Some(Err(e)) => {
                    proof {
                        lemma_read_items_stuck::<T>(s, pos + 8, (i + 1) as nat, length as nat);
                    }
                    return Some(Err(e));
                },
                None => {
                    proof {
                        lemma_read_items_stuck::<T>(s, pos + 8, (i + 1) as nat, length as nat);
                    }
                    return None;
                },
            };
            proof {
                T::lemma_read_extent(s, pos + total_read);
            }
            let ghost before = result.deep_view();
            total_read = total_read + read;
            result.push(item);
            proof {
                assert(result.deep_view() =~= before.push(item.deep_view()));
            }
            i = i + 1;
        }
        Some(Ok((total_read, result)))
    }
}

/// The sum of a run of lengths.
pub open spec fn len_sum(ls: Seq<int>) -> int
    decreases ls.len(),
{
    if ls.len() == 0 {
        0
    } else {
        len_sum(ls.drop_last()) + ls.last()
    }
}

/// The number of bits written for each item of `v`.
pub open spec fn item_lens<T: Bittable>(v: Seq<T::V>) -> Seq<int> {
    Seq::new(v.len(), |i: int| T::spec_bits(v[i]).len() as int)
}

proof fn lemma_items_bits_len_sum<T: Bittable>(v: Seq<T::V>, k: int)
    requires
        0 <= k <= v.len(),
    ensures
        items_bits::<T>(v.take(k)).len() == len_sum(item_lens::<T>(v).take(k)),
    decreases k,
{
    if k > 0 {
        lemma_items_bits_len_sum::<T>(v, k - 1);
        lemma_items_bits_take::<T>(v, k - 1);
        assert(item_lens::<T>(v).take(k).drop_last() =~= item_lens::<T>(v).take(k - 1));
    }
}

/// A vector is written as its count of items modulo 256, as a `u8`, then
/// the bits of each item in index order: item `i` starts right after the
/// bits of items `0 .. i`.
pub proof fn lemma_vec_layout<T: Bittable>(v: Seq<T::V>)
    ensures
        <Vec<T> as Bittable>::spec_bits(v).len() == 8 + len_sum(item_lens::<T>(v)),
        <Vec<T> as Bittable>::spec_bits(v).take(8) == <u8 as Bittable>::spec_bits(
            (v.len() % 256) as u8,
        ),
        forall|i: int|
            0 <= i < v.len() ==> <Vec<T> as Bittable>::spec_bits(v).subrange(
                8 + len_sum(item_lens::<T>(v).take(i)),
                8 + len_sum(item_lens::<T>(v).take(i)) + item_lens::<T>(v)[i],
            ) == T::spec_bits(#[trigger] v[i]),
{
    let b = <Vec<T> as Bittable>::spec_bits(v);
    let all = items_bits::<T>(v);
    lemma_items_bits_len_sum::<T>(v, v.len() as int);
    assert(v.take(v.len() as int) =~= v);
    assert(item_lens::<T>(v).take(v.len() as int) =~= item_lens::<T>(v));
    assert(b.take(8) =~= <u8 as Bittable>::spec_bits((v.len() % 256) as u8));
    assert forall|i: int| 0 <= i < v.len() implies b.subrange(
        8 + len_sum(item_lens::<T>(v).take(i)),
        8 + len_sum(item_lens::<T>(v).take(i)) + item_lens::<T>(v)[i],
    ) == T::spec_bits(#[trigger] v[i]) by {
        lemma_items_bits_len_sum::<T>(v, i);
        lemma_items_bits_take::<T>(v, i);
        lemma_items_bits_prefix::<T>(v, i + 1);
        let before = items_bits::<T>(v.take(i));
        let item = T::spec_bits(v[i]);
        let start: int = 8 + before.len() as int;
        assert(b.subrange(start, start + item.len()) =~= item) by {
            assert forall|j: int| 0 <= j < item.len() implies b.subrange(
                start,
                start + item.len(),
            )[j] == item[j] by {
                assert(b[8 + before.len() + j] == all[before.len() + j]);
                assert(all.take((before + item).len() as int)[before.len() + j] == (before
                    + item)[before.len() + j]);
            }
        }
    }
}

/// Reading items one after another that succeeds: item `i` is read where
/// the bits taken by items `0 .. i` end.
proof fn lemma_read_items_lens<T: Bittable>(bits: Seq<bool>, pos: int, k: nat) -> (ls: Seq<int>)
    requires
        read_items::<T>(bits, pos, k) matches Some(Ok(_)),
    ensures
        ls.len() == k,
        read_items::<T>(bits, pos, k) matches Some(Ok((n, vs))) && n == len_sum(ls) && vs.len()
            == k && forall|i: int|
            0 <= i < k ==> T::spec_read(bits, pos + len_sum(ls.take(i))) == Some(
                Ok::<(int, T::V), CustomIdError>((ls[i], #[trigger] vs[i])),
            ),
    decreases k,
{
    if k == 0 {
        Seq::empty()
    } else {
        let prev = lemma_read_items_lens::<T>(bits, pos, (k - 1) as nat);
        let (n0, vs0) = read_items::<T>(bits, pos, (k - 1) as nat)->Some_0->Ok_0;
        let (m, x) = T::spec_read(bits, pos + n0)->Some_0->Ok_0;
        let ls = prev.push(m);
        assert(ls.drop_last() =~= prev);
        assert(ls.take(k - 1) =~= prev);
        let (n, vs) = read_items::<T>(bits, pos, k)->Some_0->Ok_0;
        assert forall|i: int| 0 <= i < k implies T::spec_read(bits, pos + len_sum(ls.take(i)))
            == Some(Ok::<(int, T::V), CustomIdError>((ls[i], #[trigger] vs[i]))) by {
            if i < k - 1 {
                assert(ls.take(i) =~= prev.take(i));
                assert(vs[i] == vs0[i]);
            }
        }
        ls
    }
}

/// Reading items in turn, each where the last one ended, gives them all.
proof fn lemma_read_items_from_lens<T: Bittable>(
    bits: Seq<bool>,
    pos: int,
    ls: Seq<int>,
    vs: Seq<T::V>,
    k: nat,
)
    requires
        k <= ls.len() == vs.len(),
        forall|i: int|
            0 <= i < k ==> T::spec_read(bits, pos + len_sum(ls.take(i))) == Some(
                Ok::<(int, T::V), CustomIdError>((ls[i], #[trigger] vs[i])),
            ),
    ensures
        read_items::<T>(bits, pos, k) == Some(
            Ok::<(int, Seq<T::V>), CustomIdError>((len_sum(ls.take(k as int)), vs.take(k as int))),
        ),
    decreases k,
{
    if k == 0 {
        assert(ls.take(0) =~= Seq::<int>::empty());
        assert(vs.take(0) =~= Seq::<T::V>::empty());
    } else {
        lemma_read_items_from_lens::<T>(bits, pos, ls, vs, (k - 1) as nat);
        assert(ls.take(k as int).drop_last() =~= ls.take(k - 1));
        assert(vs.take(k - 1).push(vs[k - 1]) =~= vs.take(k as int));
        assert(T::spec_read(bits, pos + len_sum(ls.take(k - 1))) == Some(
            Ok::<(int, T::V), CustomIdError>((ls[k - 1], vs[k - 1])),
        ));
    }
}

/// A vector read that succeeds took its count as a `u8`, and then item `i`
/// where items `0 .. i` ended, in index order.
pub proof fn lemma_vec_read_ok<T: Bittable>(bits: Seq<bool>, pos: int)
    ensures
        <Vec<T> as Bittable>::spec_read(bits, pos) matches Some(Ok((n, vs))) ==> {
            &&& <u8 as Bittable>::spec_read(bits, pos) == Some(
                Ok::<(int, u8), CustomIdError>((8, vs.len() as u8)),
            )
            &&& exists|ls: Seq<int>|
                ls.len() == vs.len() && n == 8 + len_sum(ls) && forall|i: int|
                    0 <= i < vs.len() ==> T::spec_read(bits, pos + 8 + len_sum(ls.take(i)))
                        == Some(Ok::<(int, T::V), CustomIdError>((ls[i], #[trigger] vs[i])))
        },
{
    if let Some(Ok((n, vs))) = <Vec<T> as Bittable>::spec_read(bits, pos) {
        let (n8, count) = <u8 as Bittable>::spec_read(bits, pos)->Some_0->Ok_0;
        let ls = lemma_read_items_lens::<T>(bits, pos + n8, count as nat);
        assert(forall|i: int|
            0 <= i < vs.len() ==> T::spec_read(bits, pos + 8 + len_sum(ls.take(i))) == Some(
                Ok::<(int, T::V), CustomIdError>((ls[i], #[trigger] vs[i])),
            ));
    }
}

/// When the count reads as `vs.len()` and each item `i` reads, where items
/// `0 .. i` ended, as `vs[i]`, the vector reads as `vs`.
pub proof fn lemma_vec_read_items<T: Bittable>(bits: Seq<bool>, pos: int, ls: Seq<int>, vs: Seq<T::V>)
    requires
        vs.len() <= 255,
        ls.len() == vs.len(),
        <u8 as Bittable>::spec_read(bits, pos) == Some(
            Ok::<(int, u8), CustomIdError>((8, vs.len() as u8)),
        ),
        forall|i: int|
            0 <= i < vs.len() ==> T::spec_read(bits, pos + 8 + len_sum(ls.take(i))) == Some(
                Ok::<(int, T::V), CustomIdError>((ls[i], #[trigger] vs[i])),
            ),
    ensures
        <Vec<T> as Bittable>::spec_read(bits, pos) == Some(
            Ok::<(int, Seq<T::V>), CustomIdError>((8 + len_sum(ls), vs)),
        ),
{
    lemma_read_items_from_lens::<T>(bits, pos + 8, ls, vs, vs.len());
    assert(ls.take(ls.len() as int) =~= ls);
    assert(vs.take(vs.len() as int) =~= vs);
}

/// When the count reads as `c` and items `0 .. j` read in turn but item `j`
/// (with `j < c`) does not, the vector read ends as item `j`'s did.
pub proof fn lemma_vec_read_fails<T: Bittable>(
    bits: Seq<bool>,
    pos: int,
    c: u8,
    ls: Seq<int>,
    vs: Seq<T::V>,
    j: int,
)
    requires
        <u8 as Bittable>::spec_read(bits, pos) == Some(Ok::<(int, u8), CustomIdError>((8, c))),
        0 <= j < c,
        ls.len() == vs.len() == j,
        forall|i: int|
            0 <= i < j ==> T::spec_read(bits, pos + 8 + len_sum(ls.take(i))) == Some(
                Ok::<(int, T::V), CustomIdError>((ls[i], #[trigger] vs[i])),
            ),
        !(T::spec_read(bits, pos + 8 + len_sum(ls)) matches Some(Ok(_))),
    ensures
        T::spec_read(bits, pos + 8 + len_sum(ls)) matches Some(Err(e)) ==> <Vec<T> as Bittable>::spec_read(
            bits,
            pos,
        ) == Some(Err::<(int, Seq<T::V>), CustomIdError>(e)),
        T::spec_read(bits, pos + 8 + len_sum(ls)) is None ==> <Vec<T> as Bittable>::spec_read(
            bits,
            pos,
        ) is None,
{
    lemma_read_items_from_lens::<T>(bits, pos + 8, ls, vs, j as nat);
    assert(ls.take(j) =~= ls);
    lemma_read_items_stuck::<T>(bits, pos + 8, (j + 1) as nat, c as nat);
}

} // verus!
