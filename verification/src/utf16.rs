use vstd::prelude::*;

verus! {

/// A unit that opens a surrogate pair.
pub open spec fn is_high_surrogate(u: u16) -> bool {
    0xD800 <= u <= 0xDBFF
}

/// A unit that closes a surrogate pair.
pub open spec fn is_low_surrogate(u: u16) -> bool {
    0xDC00 <= u <= 0xDFFF
}

/// The UTF-16 code units of one char: itself below U+10000, otherwise a
/// surrogate pair.
pub open spec fn char_utf16(c: char) -> Seq<u16> {
    let v = c as u32;
    if v < 0x10000 {
        seq![v as u16]
    } else {
        seq![(0xD800 + (v - 0x10000) / 0x400) as u16, (0xDC00 + (v - 0x10000) % 0x400) as u16]
    }
}

/// The UTF-16 encoding of a text.
pub open spec fn utf16_encode(s: Seq<char>) -> Seq<u16>
    decreases s.len(),
{
    if s.len() == 0 {
        Seq::empty()
    } else {
        char_utf16(s[0]) + utf16_encode(s.drop_first())
    }
}

/// The char that the surrogate pair `(h, l)` stands for.
pub open spec fn pair_char(h: u16, l: u16) -> char {
    (0x10000 + (h - 0xD800) * 0x400 + (l - 0xDC00)) as char
}

/// Lossy UTF-16 decoding: a surrogate pair gives its char, a surrogate
/// without its partner gives U+FFFD, any other unit gives itself.
pub open spec fn utf16_lossy(u: Seq<u16>) -> Seq<char>
    decreases u.len(),
{
    if u.len() == 0 {
        Seq::empty()
    } else if u.len() >= 2 && is_high_surrogate(u[0]) && is_low_surrogate(u[1]) {
        seq![pair_char(u[0], u[1])] + utf16_lossy(u.skip(2))
    } else if is_high_surrogate(u[0]) || is_low_surrogate(u[0]) {
        seq!['\u{FFFD}'] + utf16_lossy(u.skip(1))
    } else {
        seq![(u[0] as u32) as char] + utf16_lossy(u.skip(1))
    }
}

/// Whether every surrogate in `u` is part of a pair.
pub open spec fn valid_utf16(u: Seq<u16>) -> bool
    decreases u.len(),
{
    if u.len() == 0 {
        true
    } else if u.len() >= 2 && is_high_surrogate(u[0]) && is_low_surrogate(u[1]) {
        valid_utf16(u.skip(2))
    } else if is_high_surrogate(u[0]) || is_low_surrogate(u[0]) {
        false
    } else {
        valid_utf16(u.skip(1))
    }
}

proof fn lemma_utf16_encode_cons(c: char, rest: Seq<char>)
    ensures
        utf16_encode(seq![c] + rest) == char_utf16(c) + utf16_encode(rest),
{
    assert((seq![c] + rest).drop_first() =~= rest);
}

proof fn lemma_pair_char(h: u16, l: u16)
    requires
        is_high_surrogate(h),
        is_low_surrogate(l),
    ensures
        char_utf16(pair_char(h, l)) == seq![h, l],
{
    let v: int = 0x10000 + (h - 0xD800) * 0x400 + (l - 0xDC00);
    assert(0x10000 <= v <= 0x10FFFF);
    assert((v - 0x10000) / 0x400 == h - 0xD800 && (v - 0x10000) % 0x400 == l - 0xDC00) by (nonlinear_arith)
        requires
            v == 0x10000 + (h - 0xD800) * 0x400 + (l - 0xDC00),
            0 <= h - 0xD800 < 0x400,
            0 <= l - 0xDC00 < 0x400,
    ;
    assert((pair_char(h, l) as u32) == v);
    assert(char_utf16(pair_char(h, l)) =~= seq![h, l]);
}

/// Lossy decoding keeps the number of code units: every unit either keeps
/// its place in a char or turns into U+FFFD, which is one unit.
pub proof fn lemma_utf16_lossy_len(u: Seq<u16>)
    ensures
        utf16_encode(utf16_lossy(u)).len() == u.len(),
    decreases u.len(),
{
    if u.len() > 0 {
        if u.len() >= 2 && is_high_surrogate(u[0]) && is_low_surrogate(u[1]) {
            lemma_utf16_lossy_len(u.skip(2));
            lemma_utf16_encode_cons(pair_char(u[0], u[1]), utf16_lossy(u.skip(2)));
            lemma_pair_char(u[0], u[1]);
        } else if is_high_surrogate(u[0]) || is_low_surrogate(u[0]) {
            lemma_utf16_lossy_len(u.skip(1));
            lemma_utf16_encode_cons('\u{FFFD}', utf16_lossy(u.skip(1)));
        } else {
            lemma_utf16_lossy_len(u.skip(1));
            lemma_utf16_encode_cons((u[0] as u32) as char, utf16_lossy(u.skip(1)));
            assert((((u[0] as u32) as char) as u32) == u[0] as u32);
        }
    }
}

/// Units whose surrogates are all paired come back unchanged from
/// decoding and encoding again.
pub proof fn lemma_utf16_lossy_encode(u: Seq<u16>)
    requires
        valid_utf16(u),
    ensures
        utf16_encode(utf16_lossy(u)) == u,
    decreases u.len(),
{
    if u.len() > 0 {
        if u.len() >= 2 && is_high_surrogate(u[0]) && is_low_surrogate(u[1]) {
            lemma_utf16_lossy_encode(u.skip(2));
            lemma_utf16_encode_cons(pair_char(u[0], u[1]), utf16_lossy(u.skip(2)));
            lemma_pair_char(u[0], u[1]);
            assert(seq![u[0], u[1]] + u.skip(2) =~= u);
        } else {
            lemma_utf16_lossy_encode(u.skip(1));
            lemma_utf16_encode_cons((u[0] as u32) as char, utf16_lossy(u.skip(1)));
            assert((((u[0] as u32) as char) as u32) == u[0] as u32);
            assert(seq![u[0]] + u.skip(1) =~= u);
        }
    }
}

/// A text of chars below U+10000 is encoded one unit per char, each unit
/// being the char's number.
pub proof fn lemma_utf16_encode_plain(s: Seq<char>)
    requires
        forall|i: int| 0 <= i < s.len() ==> (#[trigger] s[i] as u32) < 0x10000,
    ensures
        utf16_encode(s) == Seq::new(s.len(), |i: int| (s[i] as u32) as u16),
    decreases s.len(),
{
    if s.len() > 0 {
        let rest = s.drop_first();
        assert forall|i: int| 0 <= i < rest.len() implies (#[trigger] rest[i] as u32) < 0x10000 by {
            assert(rest[i] == s[i + 1]);
        }
        lemma_utf16_encode_plain(rest);
        assert(utf16_encode(s) =~= Seq::new(s.len(), |i: int| (s[i] as u32) as u16));
    }
}

/// A char at or above U+10000 is encoded as a high surrogate then a low
/// surrogate, from which its number is `0x10000 + (high - 0xD800) * 0x400 +
/// (low - 0xDC00)`.
pub proof fn lemma_utf16_encode_pair(c: char)
    requires
        (c as u32) >= 0x10000,
    ensures
        utf16_encode(seq![c]).len() == 2,
        is_high_surrogate(utf16_encode(seq![c])[0]),
        is_low_surrogate(utf16_encode(seq![c])[1]),
        c as u32 == 0x10000 + (utf16_encode(seq![c])[0] - 0xD800) * 0x400 + (utf16_encode(
            seq![c],
        )[1] - 0xDC00),
{
    let v = c as u32;
    assert(v <= 0x10FFFF);
    lemma_utf16_encode_cons(c, Seq::<char>::empty());
    assert(seq![c] + Seq::<char>::empty() =~= seq![c]);
    assert(utf16_encode(seq![c]) =~= char_utf16(c));
    let q = (v - 0x10000) / 0x400;
    let r = (v - 0x10000) % 0x400;
    assert(v - 0x10000 == q * 0x400 + r && 0 <= r < 0x400) by (nonlinear_arith)
        requires
            q == (v - 0x10000) / 0x400,
            r == (v - 0x10000) % 0x400,
            v >= 0x10000,
    ;
    assert(q < 0x400) by (nonlinear_arith)
        requires
            v - 0x10000 == q * 0x400 + r,
            0 <= r,
            v <= 0x10FFFF,
    ;
}

/// Encoding two texts one after the other gives their encodings one after
/// the other.
pub proof fn lemma_utf16_encode_append(a: Seq<char>, b: Seq<char>)
    ensures
        utf16_encode(a + b) == utf16_encode(a) + utf16_encode(b),
    decreases a.len(),
{
    if a.len() > 0 {
        lemma_utf16_encode_append(a.drop_first(), b);
        assert((a + b).drop_first() =~= a.drop_first() + b);
        assert(utf16_encode(a + b) =~= utf16_encode(a) + utf16_encode(b));
    } else {
        assert(a + b =~= b);
    }
}

/// Units that hold no surrogate decode one char per unit, each char having
/// the unit's number.
pub proof fn lemma_utf16_lossy_plain(u: Seq<u16>)
    requires
        forall|i: int| 0 <= i < u.len() ==> !is_high_surrogate(#[trigger] u[i]) && !is_low_surrogate(
            u[i],
        ),
    ensures
        utf16_lossy(u) == Seq::new(u.len(), |i: int| (u[i] as u32) as char),
    decreases u.len(),
{
    if u.len() > 0 {
        let rest = u.skip(1);
        assert forall|i: int| 0 <= i < rest.len() implies !is_high_surrogate(#[trigger] rest[i])
            && !is_low_surrogate(rest[i]) by {
            assert(rest[i] == u[i + 1]);
        }
        lemma_utf16_lossy_plain(rest);
        assert(utf16_lossy(u) =~= Seq::new(u.len(), |i: int| (u[i] as u32) as char));
    }
}

/// A surrogate without its partner decodes as U+FFFD, and the units after
/// it decode as they would alone.
pub proof fn lemma_utf16_lossy_unpaired(u: Seq<u16>)
    requires
        u.len() > 0,
        is_low_surrogate(u[0]) || (is_high_surrogate(u[0]) && !(u.len() >= 2 && is_low_surrogate(
            u[1],
        ))),
    ensures
        utf16_lossy(u) == seq!['\u{FFFD}'] + utf16_lossy(u.skip(1)),
{
}

/// `str::encode_utf16`, collected: the UTF-16 code units of `s`.
#[verifier::external_body]
pub(crate) fn encode_utf16(s: &String) -> (r: Vec<u16>)
    ensures
        r@ == utf16_encode(s@),
{
    s.encode_utf16().collect()
}

/// `String::from_utf16_lossy`: decodes UTF-16, putting U+FFFD in place of
/// each unpaired surrogate (`char::decode_utf16` with
/// `char::REPLACEMENT_CHARACTER`).
#[verifier::external_body]
pub(crate) fn string_from_utf16_lossy(units: &[u16]) -> (r: String)
    ensures
        r@ == utf16_lossy(units@),
{
    String::from_utf16_lossy(units)
}

} // verus!
