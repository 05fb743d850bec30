use vstd::prelude::*;

verus! {

/// Why the ids of an enum's variants could not be settled.
#[derive(Debug, Clone, Copy, PartialEq, Eq, Structural)]
pub enum VariantIdError {
    /// Some variant declares an id, but the variant at this index does not.
    MissingId(usize),
    /// The id declared for the variant at this index is not a `u16`.
    NotAnId(usize),
    /// The id declared for the variant at this index was declared before.
    DuplicateId(usize),
}

/// The decimal value of a run of digits.
pub open spec fn digits_value(s: Seq<char>) -> int
    decreases s.len(),
{
    if s.len() == 0 {
        0
    } else {
        digits_value(s.drop_last()) * 10 + (s.last() as int - '0' as int)
    }
}

/// Whether every char is an ASCII digit.
pub open spec fn all_digits(s: Seq<char>) -> bool {
    forall|i: int| 0 <= i < s.len() ==> '0' <= #[trigger] s[i] <= '9'
}

/// `u16::from_str`: an optional `+`, then one or more ASCII digits whose
/// value fits in a `u16`.
pub open spec fn parse_u16(s: Seq<char>) -> Option<u16> {
    let digits = if s.len() > 0 && s[0] == '+' {
        s.drop_first()
    } else {
        s
    };
    if digits.len() > 0 && all_digits(digits) && digits_value(digits) <= u16::MAX {
        Some(digits_value(digits) as u16)
    } else {
        None
    }
}

/// `str::parse::<u16>`, keeping whether it succeeded.
#[verifier::external_body]
fn parse_u16_text(s: &str) -> (r: Option<u16>)
    ensures
        r == parse_u16(s@),
{
    s.parse::<u16>().ok()
}

/// The ids of the first `k` variants, each declared one in turn: the
/// first variant without one, with one that is no `u16`, or with one
/// already taken, stops it.
pub open spec fn declared_ids(texts: Seq<Option<Seq<char>>>, k: nat) -> Result<Seq<u16>, VariantIdError>
    decreases k,
{
    if k == 0 {
        Ok(Seq::empty())
    } else {
        match declared_ids(texts, (k - 1) as nat) {
            Ok(ids) => match texts[k - 1] {
                None => Err(VariantIdError::MissingId((k - 1) as usize)),
                Some(t) => match parse_u16(t) {
                    None => Err(VariantIdError::NotAnId((k - 1) as usize)),
                    Some(id) => if ids.contains(id) {
                        Err(VariantIdError::DuplicateId((k - 1) as usize))
                    } else {
                        Ok(ids.push(id))
                    },
                },
            },
            Err(e) => Err(e),
        }
    }
}

/// The ids of an enum's variants, from the text each one declares in its
/// `#[bittable(id)]` attribute (`None` where it has none): when no variant
/// declares one, the variants are numbered from 0 (the count taken as a
/// `u16`); otherwise every variant must declare a distinct `u16`.
pub open spec fn spec_variant_ids(texts: Seq<Option<Seq<char>>>) -> Result<Seq<u16>, VariantIdError> {
    if exists|i: int| 0 <= i < texts.len() && (#[trigger] texts[i]) is Some {
        declared_ids(texts, texts.len())
    } else {
        Ok(Seq::new((texts.len() % 65536) as nat, |i: int| i as u16))
    }
}

proof fn lemma_declared_ids_stuck(texts: Seq<Option<Seq<char>>>, k: nat, k2: nat)
    requires
        k <= k2,
        declared_ids(texts, k) is Err,
    ensures
        declared_ids(texts, k2) == declared_ids(texts, k),
    decreases k2,
{
    if k2 > k {
        lemma_declared_ids_stuck(texts, k, (k2 - 1) as nat);
    }
}

proof fn lemma_declared_ids_distinct(texts: Seq<Option<Seq<char>>>, k: nat)
    requires
        k <= texts.len(),
    ensures
        declared_ids(texts, k) matches Ok(ids) ==> ids.len() == k && ids.no_duplicates(),
    decreases k,
{
    if k > 0 {
        lemma_declared_ids_distinct(texts, (k - 1) as nat);
        if let Ok(ids) = declared_ids(texts, (k - 1) as nat) {
            if let Some(t) = texts[k - 1] {
                if let Some(id) = parse_u16(t) {
                    if !ids.contains(id) {
                        assert forall|i: int, j: int|
                            0 <= i < ids.push(id).len() && 0 <= j < ids.push(id).len() && i != j
                            implies ids.push(id)[i] != ids.push(id)[j] by {
                            if i == ids.len() {
                                assert(ids[j] != id);
                            } else if j == ids.len() {
                                assert(ids[i] != id);
                            }
                        }
                    }
                }
            }
        }
    }
}

/// Every variant gets an id of its own: the ids are distinct, and there is
/// one per variant unless no variant declares one and there are more than
/// `u16::MAX` of them.
pub proof fn lemma_variant_ids_distinct(texts: Seq<Option<Seq<char>>>)
    ensures
        spec_variant_ids(texts) matches Ok(ids) ==> {
            &&& ids.no_duplicates()
            &&& (texts.len() <= u16::MAX || exists|i: int|
                0 <= i < texts.len() && (#[trigger] texts[i]) is Some) ==> ids.len() == texts.len()
        },
{
    lemma_declared_ids_distinct(texts, texts.len());
    if !exists|i: int| 0 <= i < texts.len() && (#[trigger] texts[i]) is Some {
        let ids = Seq::new((texts.len() % 65536) as nat, |i: int| i as u16);
        assert forall|i: int, j: int| 0 <= i < ids.len() && 0 <= j < ids.len() && i != j implies ids[i]
            != ids[j] by {
        }
    }
}

/// The id that variant `i` declares, when its text parses.
pub open spec fn declared_id(texts: Seq<Option<Seq<char>>>, i: int) -> u16 {
    parse_u16(texts[i]->Some_0)->Some_0
}

/// Whether variants `0 .. k` all declare texts that parse as `u16`s, and
/// no two of those ids are equal.
pub open spec fn declared_distinct(texts: Seq<Option<Seq<char>>>, k: int) -> bool {
    &&& forall|i: int| 0 <= i < k ==> (#[trigger] texts[i] matches Some(t) && parse_u16(t) is Some)
    &&& forall|i: int, j: int|
        0 <= i < j < k ==> #[trigger] declared_id(texts, i) != #[trigger] declared_id(texts, j)
}

proof fn lemma_declared_ids_prefix(texts: Seq<Option<Seq<char>>>, k: int)
    requires
        0 <= k <= texts.len(),
        declared_distinct(texts, k),
    ensures
        declared_ids(texts, k as nat) == Ok::<Seq<u16>, VariantIdError>(
            Seq::new(k as nat, |i: int| declared_id(texts, i)),
        ),
    decreases k,
{
    if k > 0 {
        lemma_declared_ids_prefix(texts, k - 1);
        let prev = Seq::new((k - 1) as nat, |i: int| declared_id(texts, i));
        let id = declared_id(texts, k - 1);
        assert(texts[k - 1] matches Some(t) && parse_u16(t) is Some);
        assert(!prev.contains(id)) by {
            if prev.contains(id) {
                let i = choose|i: int| 0 <= i < prev.len() && prev[i] == id;
                assert(declared_id(texts, i) != declared_id(texts, k - 1));
            }
        }
        assert(prev.push(id) =~= Seq::new(k as nat, |i: int| declared_id(texts, i)));
    } else {
        assert(Seq::new(0, |i: int| declared_id(texts, i)) =~= Seq::<u16>::empty());
    }
}

/// When no variant declares an id, variant `i` gets the id `i` (the
/// number of variants being taken as a `u16`).
pub proof fn lemma_variant_ids_default(texts: Seq<Option<Seq<char>>>)
    requires
        forall|i: int| 0 <= i < texts.len() ==> (#[trigger] texts[i]) is None,
    ensures
        spec_variant_ids(texts) matches Ok(ids) && ids.len() == texts.len() % 65536 && forall|i: int|
            0 <= i < ids.len() ==> #[trigger] ids[i] == i,
{
}

/// When every variant declares a text that parses as a `u16` and the ids
/// are pairwise distinct, the ids are exactly those, in variant order.
pub proof fn lemma_variant_ids_declared(texts: Seq<Option<Seq<char>>>)
    requires
        texts.len() > 0,
        declared_distinct(texts, texts.len() as int),
    ensures
        spec_variant_ids(texts) == Ok::<Seq<u16>, VariantIdError>(
            Seq::new(texts.len(), |i: int| declared_id(texts, i)),
        ),
{
    assert(texts[0] is Some);
    lemma_declared_ids_prefix(texts, texts.len() as int);
}

/// When some variant declares an id, variants `0 .. j` declare distinct
/// `u16`s and variant `j` does not add one, the ids fail at `j`: with
/// `MissingId` when it declares nothing, `NotAnId` when its text is no
/// `u16`, `DuplicateId` when its id was declared before.
pub proof fn lemma_variant_ids_first_failure(texts: Seq<Option<Seq<char>>>, j: int)
    requires
        0 <= j < texts.len(),
        exists|i: int| 0 <= i < texts.len() && (#[trigger] texts[i]) is Some,
        declared_distinct(texts, j),
        !declared_distinct(texts, j + 1),
    ensures
        texts[j] is None ==> spec_variant_ids(texts) == Err::<Seq<u16>, VariantIdError>(
            VariantIdError::MissingId(j as usize),
        ),
        texts[j] matches Some(t) && parse_u16(t) is None ==> spec_variant_ids(texts) == Err::<
            Seq<u16>,
            VariantIdError,
        >(VariantIdError::NotAnId(j as usize)),
        texts[j] matches Some(t) && parse_u16(t) is Some ==> spec_variant_ids(texts) == Err::<
            Seq<u16>,
            VariantIdError,
        >(VariantIdError::DuplicateId(j as usize)),
{
    lemma_declared_ids_prefix(texts, j);
    let prev = Seq::new(j as nat, |i: int| declared_id(texts, i));
    if let Some(t) = texts[j] {
        if let Some(id) = parse_u16(t) {
            assert(prev.contains(id)) by {
                if !prev.contains(id) {
                    assert forall|a: int, b: int| 0 <= a < b < j + 1 implies #[trigger] declared_id(
                        texts,
                        a,
                    ) != #[trigger] declared_id(texts, b) by {
                        if b == j {
                            assert(prev[a] == declared_id(texts, a));
                        }
                    }
                    assert forall|i: int| 0 <= i < j + 1 implies (#[trigger] texts[i] matches Some(
                        t,
                    ) && parse_u16(t) is Some) by {}
                }
            }
        }
    }
    lemma_declared_ids_stuck(texts, (j + 1) as nat, texts.len());
}

/// Whether `id` is among `ids` (`<[u16]>::contains`).
fn contains_id(ids: &Vec<u16>, id: u16) -> (r: bool)
    ensures
        r == ids@.contains(id),
{
    let mut i: usize = 0;
    while i < ids.len()
        invariant
            i <= ids.len(),
            forall|j: int| 0 <= j < i ==> ids@[j] != id,
        decreases ids.len() - i,
    {
        if ids[i] == id {
            return true;
        }
        i = i + 1;
    }
    false
}

/// The ids that the variants of a derived `Bittable` enum are written
/// with; see `spec_variant_ids`.
pub fn variant_ids(attrs: &Vec<Option<String>>) -> (r: Result<Vec<u16>, VariantIdError>)
    ensures
        match r {
            Ok(ids) => spec_variant_ids(attrs.deep_view()) == Ok::<Seq<u16>, VariantIdError>(ids@),
            Err(e) => spec_variant_ids(attrs.deep_view()) == Err::<Seq<u16>, VariantIdError>(e),
        },
{
    let ghost texts = attrs.deep_view();
    let mut attr_used = false;
    let mut i: usize = 0;
    while i < attrs.len()
        invariant
            texts == attrs.deep_view(),
            i <= attrs.len(),
            attr_used <==> exists|j: int| 0 <= j < i && (#[trigger] texts[j]) is Some,
        decreases attrs.len() - i,
    {
        proof {
            assert(texts[i as int] == attrs@[i as int].deep_view());
        }
        if attrs[i].is_some() {
            attr_used = true;
        }
        i = i + 1;
    }
    let mut ids: Vec<u16> = Vec::with_capacity(attrs.len());
    if attr_used {
        let mut k: usize = 0;
        while k < attrs.len()
            invariant
                texts == attrs.deep_view(),
                k <= attrs.len(),
                exists|j: int| 0 <= j < texts.len() && (#[trigger] texts[j]) is Some,
                declared_ids(texts, k as nat) == Ok::<Seq<u16>, VariantIdError>(ids@),
            decreases attrs.len() - k,
        {
            proof {
                assert(texts[k as int] == attrs@[k as int].deep_view());
            }
            let text = match &attrs[k] {
                Some(text) => text,
                None => {
                    proof {
                        lemma_declared_ids_stuck(texts, (k + 1) as nat, texts.len());
                    }
                    return Err(VariantIdError::MissingId(k));
                },
            };
            let id = match parse_u16_text(text.as_str()) {
                Some(id) => id,
                None => {
                    proof {
                        lemma_declared_ids_stuck(texts, (k + 1) as nat, texts.len());
                    }
                    return Err(VariantIdError::NotAnId(k));
                },
            };
            if contains_id(&ids, id) {
                proof {
                    lemma_declared_ids_stuck(texts, (k + 1) as nat, texts.len());
                }
                return Err(VariantIdError::DuplicateId(k));
            }
            ids.push(id);
            k = k + 1;
        }
    } else {
        let count = (attrs.len() % 65536) as u16;
        let mut id: u16 = 0;
        while id < count
            invariant
                count == texts.len() % 65536,
                !exists|j: int| 0 <= j < texts.len() && (#[trigger] texts[j]) is Some,
                id <= count,
                ids@ == Seq::new(id as nat, |j: int| j as u16),
            decreases count - id,
        {
            ids.push(id);
            proof {
                assert(ids@ =~= Seq::new((id + 1) as nat, |j: int| j as u16));
            }
            id = id + 1;
        }
    }
    Ok(ids)
}

} // verus!
