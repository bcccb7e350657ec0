//! The `LanguageIdentifier` value type: validated subtags, accessors and
//! mutators, wildcard-aware matching, canonical serialization.

use vstd::prelude::*;

use crate::errors::{LanguageIdentifierError, ParserError};
use crate::tinystr::{TinyStr4, TinyStr8};

verus! {

use crate::tinystr::{
    all_digits,
    ascii_chars,
    is_alpha_byte,
    is_digit_byte,
    is_alnum_byte,
    lex_lt,
    lower_seq,
    word_bytes,
};
use crate::subtags::{is_variant_raw, und_bytes};

/// The mathematical value of a `LanguageIdentifier`: each subtag as the
/// byte sequence of its canonical text, and the variants in their stored
/// order.
pub ghost struct LangIdView {
    pub language: Option<Seq<u8>>,
    pub script: Option<Seq<u8>>,
    pub region: Option<Seq<u8>>,
    pub variants: Seq<Seq<u8>>,
}

/// The byte is a lowercase ASCII letter.
pub open spec fn is_lower_alpha(b: u8) -> bool {
    0x61 <= b && b <= 0x7a
}

/// The byte is an uppercase ASCII letter.
pub open spec fn is_upper_alpha(b: u8) -> bool {
    0x41 <= b && b <= 0x5a
}

/// No byte of the sequence is an uppercase ASCII letter.
pub open spec fn no_upper(s: Seq<u8>) -> bool {
    forall|i: int| 0 <= i < s.len() ==> !is_upper_alpha(#[trigger] s[i])
}

/// A canonical stored language value: 2 to 8 lowercase letters, never
/// exactly 4, and never the reserved `und`.
pub open spec fn is_canon_language(s: Seq<u8>) -> bool {
    2 <= s.len() <= 8 && s.len() != 4 && (forall|i: int|
        0 <= i < s.len() ==> is_lower_alpha(#[trigger] s[i])) && s != und_bytes()
}

/// A canonical stored script value: 4 letters in title case.
pub open spec fn is_canon_script(s: Seq<u8>) -> bool {
    s.len() == 4 && is_upper_alpha(s[0]) && (forall|i: int|
        1 <= i < s.len() ==> is_lower_alpha(#[trigger] s[i]))
}

/// A canonical stored region value: 2 uppercase letters or 3 digits.
pub open spec fn is_canon_region(s: Seq<u8>) -> bool {
    (s.len() == 2 && (forall|i: int| 0 <= i < s.len() ==> is_upper_alpha(#[trigger] s[i]))) || (
    s.len() == 3 && all_digits(s))
}

/// A canonical stored variant value: a well-formed variant with no
/// uppercase byte left.
pub open spec fn is_canon_variant(s: Seq<u8>) -> bool {
    is_variant_raw(s) && no_upper(s)
}

/// The sequence of sequences is strictly increasing in byte-lexicographic
/// order; strictness also rules out duplicates.
pub open spec fn strictly_sorted(vs: Seq<Seq<u8>>) -> bool {
    forall|i: int, j: int| 0 <= i < j < vs.len() ==> lex_lt(#[trigger] vs[i], #[trigger] vs[j])
}

/// A view is well-formed: each present field canonical, the variants
/// canonical, sorted and free of duplicates.
pub open spec fn wf_view(v: LangIdView) -> bool {
    &&& (v.language matches Some(s) ==> is_canon_language(s))
    &&& (v.script matches Some(s) ==> is_canon_script(s))
    &&& (v.region matches Some(s) ==> is_canon_region(s))
    &&& (forall|i: int| 0 <= i < v.variants.len() ==> is_canon_variant(#[trigger] v.variants[i]))
    &&& strictly_sorted(v.variants)
}

/// The views of a vector of packed variants.
pub open spec fn variant_views(vs: Seq<TinyStr8>) -> Seq<Seq<u8>> {
    Seq::new(vs.len(), |i: int| vs[i]@)
}

/// A parsed Unicode language identifier: optional language, script and
/// region subtags and a sorted, deduplicated sequence of variant subtags,
/// each held in its compact validated form.
#[derive(Debug, Clone, Eq, Hash)]
pub struct LanguageIdentifier {
    pub language: Option<TinyStr8>,
    pub script: Option<TinyStr4>,
    pub region: Option<TinyStr4>,
    pub variants: Vec<TinyStr8>,
}

impl View for LanguageIdentifier {
    type V = LangIdView;

    open spec fn view(&self) -> LangIdView {
        LangIdView {
            language: match self.language {
                Some(t) => Some(t@),
                None => None,
            },
            script: match self.script {
                Some(t) => Some(t@),
                None => None,
            },
            region: match self.region {
                Some(t) => Some(t@),
                None => None,
            },
            variants: variant_views(self.variants@),
        }
    }
}

impl PartialEq for LanguageIdentifier {
    /// Structural equality: all four fields equal, the variants element by
    /// element.
    fn eq(&self, other: &Self) -> (r: bool) {
        let lang_eq = match (&self.language, &other.language) {
            (Some(a), Some(b)) => a.raw_word() == b.raw_word(),
            (None, None) => true,
            _ => false,
        };
        let script_eq = match (&self.script, &other.script) {
            (Some(a), Some(b)) => a.raw_word() == b.raw_word(),
            (None, None) => true,
            _ => false,
        };
        let region_eq = match (&self.region, &other.region) {
            (Some(a), Some(b)) => a.raw_word() == b.raw_word(),
            (None, None) => true,
            _ => false,
        };
        if !(lang_eq && script_eq && region_eq) {
            return false;
        }
        if self.variants.len() != other.variants.len() {
            return false;
        }
        let n = self.variants.len();
        let mut i: usize = 0;
        while i < n
            invariant
                n == self.variants@.len(),
                n == other.variants@.len(),
                i <= n,
                forall|j: int| 0 <= j < i ==> self.variants@[j] == other.variants@[j],
            decreases n - i,
        {
            if self.variants[i].raw_word() != other.variants[i].raw_word() {
                return false;
            }
            i += 1;
        }
        proof {
            assert(self.variants@ =~= other.variants@);
        }
        true
    }
}

impl vstd::std_specs::cmp::PartialEqSpecImpl for LanguageIdentifier {
    open spec fn obeys_eq_spec() -> bool {
        true
    }

    open spec fn eq_spec(&self, other: &Self) -> bool {
        self.language == other.language && self.script == other.script && self.region
            == other.region && self.variants@ == other.variants@
    }
}

impl LanguageIdentifier {
    /// The stored fields are well-formed packed words whose view is a
    /// well-formed identifier value.
    pub open spec fn wf(&self) -> bool {
        &&& (self.language matches Some(t) ==> t.wf())
        &&& (self.script matches Some(t) ==> t.wf())
        &&& (self.region matches Some(t) ==> t.wf())
        &&& (forall|i: int| 0 <= i < self.variants@.len() ==> (#[trigger] self.variants@[i]).wf())
        &&& wf_view(self@)
    }
}

} // verus!

verus! {

use crate::tinystr::{all_alnum, all_alpha, to_lower_byte, to_upper_byte, title_bytes, upper_seq};
use crate::subtags::{is_language_raw, is_region_raw, is_script_raw, region_canon};

/// Lowercasing a valid raw language yields a canonical language value,
/// unless it is the reserved `und`.
pub proof fn lemma_canon_language(s: Seq<u8>)
    requires
        is_language_raw(s),
        lower_seq(s) != und_bytes(),
    ensures
        is_canon_language(lower_seq(s)),
{
    assert forall|i: int| 0 <= i < lower_seq(s).len() implies is_lower_alpha(
        #[trigger] lower_seq(s)[i],
    ) by {
        assert(is_alpha_byte(s[i]));
    }
}

/// Title-casing a valid raw script yields a canonical script value.
pub proof fn lemma_canon_script(s: Seq<u8>)
    requires
        is_script_raw(s),
    ensures
        is_canon_script(title_bytes(s)),
{
    assert(title_bytes(s)[0] == to_upper_byte(s[0]));
    assert(is_alpha_byte(s[0]));
    assert forall|i: int| 1 <= i < title_bytes(s).len() implies is_lower_alpha(
        #[trigger] title_bytes(s)[i],
    ) by {
        assert(title_bytes(s)[i] == to_lower_byte(s[i]));
        assert(is_alpha_byte(s[i]));
    }
}

/// Normalizing a valid raw region yields a canonical region value.
pub proof fn lemma_canon_region(s: Seq<u8>)
    requires
        is_region_raw(s),
    ensures
        is_canon_region(region_canon(s)),
{
    if s.len() == 2 {
        assert forall|i: int| 0 <= i < upper_seq(s).len() implies is_upper_alpha(
            #[trigger] upper_seq(s)[i],
        ) by {
            assert(is_alpha_byte(s[i]));
        }
    }
}

/// Lowercasing a valid raw variant yields a canonical variant value.
pub proof fn lemma_canon_variant(s: Seq<u8>)
    requires
        is_variant_raw(s),
    ensures
        is_canon_variant(lower_seq(s)),
{
    let l = lower_seq(s);
    assert(l.len() == s.len());
    assert forall|i: int| 0 <= i < l.len() implies 0 < #[trigger] l[i] < 0x80 && !is_upper_alpha(
        l[i],
    ) by {
        assert(l[i] == to_lower_byte(s[i]));
        assert(0 < s[i] < 0x80);
    }
    if s.len() >= 5 {
        assert forall|i: int| 0 <= i < l.len() implies is_alnum_byte(#[trigger] l[i]) by {
            assert(l[i] == to_lower_byte(s[i]));
            assert(is_alnum_byte(s[i]));
        }
    }
    if s.len() == 4 {
        assert(l[0] == to_lower_byte(s[0]));
        if !is_digit_byte(s[0]) {
            assert forall|i: int| 0 <= i < l.skip(1).len() implies is_alnum_byte(
                #[trigger] l.skip(1)[i],
            ) by {
                assert(l.skip(1)[i] == l[i + 1]);
                assert(l[i + 1] == to_lower_byte(s[i + 1]));
                assert(s.skip(1)[i] == s[i + 1]);
                assert(is_alnum_byte(s.skip(1)[i]));
            }
        } else {
            assert(is_digit_byte(l[0]));
        }
    }
}

/// The view of an identifier assembled from optional packed subtags and a
/// packed variant vector.
pub open spec fn acc_view(
    l: Option<TinyStr8>,
    s: Option<TinyStr4>,
    r: Option<TinyStr4>,
    vs: Seq<TinyStr8>,
) -> LangIdView {
    LangIdView {
        language: match l {
            Some(t) => Some(t@),
            None => None,
        },
        script: match s {
            Some(t) => Some(t@),
            None => None,
        },
        region: match r {
            Some(t) => Some(t@),
            None => None,
        },
        variants: variant_views(vs),
    }
}

} // verus!

verus! {

use crate::parser::{
    insert_variant,
    parse_bytes,
    parse_token_slices,
    parse_language_identifier,
    parse_tokens,
    token_views,
};
use crate::subtags::{
    parse_language_subtag,
    parse_region_subtag,
    parse_script_subtag,
    parse_variant_subtag,
};
use crate::tinystr::{ascii_to_string, lemma_view_injective, lemma_wf_byte_at, mk8};
use vstd::string::StringSliceAdditionalSpecFns;
use vstd::utf8::encode_utf8;

/// One field of a wildcard-aware comparison: an absent value on a side
/// flagged as a range matches anything; otherwise the values must be equal.
pub open spec fn subtag_matches(
    a: Option<Seq<u8>>,
    b: Option<Seq<u8>>,
    a_range: bool,
    b_range: bool,
) -> bool {
    (a_range && a is None) || (b_range && b is None) || a == b
}

/// The variant-set side of a wildcard-aware comparison: an empty set on a
/// side flagged as a range matches anything; otherwise the sorted variant
/// sequences must be equal.
pub open spec fn subtags_match(
    a: Seq<Seq<u8>>,
    b: Seq<Seq<u8>>,
    a_range: bool,
    b_range: bool,
) -> bool {
    (a_range && a.len() == 0) || (b_range && b.len() == 0) || a == b
}

/// Wildcard-aware structural comparison of two identifier values: all four
/// fields must match independently.
pub open spec fn matches_spec(a: LangIdView, b: LangIdView, a_range: bool, b_range: bool) -> bool {
    subtag_matches(a.language, b.language, a_range, b_range) && subtag_matches(
        a.script,
        b.script,
        a_range,
        b_range,
    ) && subtag_matches(a.region, b.region, a_range, b_range) && subtags_match(
        a.variants,
        b.variants,
        a_range,
        b_range,
    )
}

/// The token sequence of the canonical serialization: the language (or
/// `und`), then script, region and each variant in stored order.
pub open spec fn view_tokens(v: LangIdView) -> Seq<Seq<u8>> {
    let t0 = seq![
        match v.language {
            Some(s) => s,
            None => und_bytes(),
        },
    ];
    let t1 = match v.script {
        Some(s) => t0.push(s),
        None => t0,
    };
    let t2 = match v.region {
        Some(s) => t1.push(s),
        None => t1,
    };
    t2 + v.variants
}

/// Joins tokens with the canonical `-` separator.
pub open spec fn join_tokens(toks: Seq<Seq<u8>>) -> Seq<u8>
    decreases toks.len(),
{
    if toks.len() == 0 {
        seq![]
    } else if toks.len() == 1 {
        toks[0]
    } else {
        toks[0] + seq![0x2du8] + join_tokens(toks.drop_first())
    }
}

/// The canonical serialization of an identifier value.
pub open spec fn serialize_view(v: LangIdView) -> Seq<u8> {
    join_tokens(view_tokens(v))
}

/// Appending a token extends the joined text by a separator and the token.
pub proof fn lemma_join_push(toks: Seq<Seq<u8>>, t: Seq<u8>)
    requires
        toks.len() >= 1,
    ensures
        join_tokens(toks.push(t)) == join_tokens(toks) + seq![0x2du8] + t,
    decreases toks.len(),
{
    if toks.len() == 1 {
        assert(toks.push(t)[0] == toks[0]);
        assert(toks.push(t).drop_first() =~= seq![t]);
        assert(join_tokens(seq![t]) == t);
        assert(join_tokens(toks.push(t)) == toks[0] + seq![0x2du8] + t);
    } else {
        assert(toks.push(t).drop_first() =~= toks.drop_first().push(t));
        lemma_join_push(toks.drop_first(), t);
        assert(join_tokens(toks.push(t)) == toks[0] + seq![0x2du8] + (join_tokens(
            toks.drop_first(),
        ) + seq![0x2du8] + t));
        assert(toks[0] + seq![0x2du8] + (join_tokens(toks.drop_first()) + seq![0x2du8] + t) =~= (
        toks[0] + seq![0x2du8] + join_tokens(toks.drop_first())) + seq![0x2du8] + t);
    }
}

impl LanguageIdentifier {
    /// Parses an identifier from text; see the parser grammar.
    pub fn from_text(source: &str) -> (r: Result<Self, LanguageIdentifierError>)
        ensures
            r is Ok <==> parse_bytes(source.spec_bytes()) is Ok,
            r matches Ok(li) ==> parse_bytes(source.spec_bytes()) matches Ok(v) && li@ == v
                && li.wf(),
            r matches Err(e) ==> parse_bytes(source.spec_bytes()) matches Err(e2) && e
                == LanguageIdentifierError::ParserError(e2),
    {
        match parse_language_identifier(source) {
            Ok(li) => Ok(li),
            Err(e) => Err(LanguageIdentifierError::ParserError(e)),
        }
    }

    /// Parses an identifier from a sequence of already-separated subtag
    /// strings. With `allow_extension` set, a one-character subtag stops
    /// parsing and the remaining subtags are left as an extension tail.
    pub fn try_from_iter(subtags: &Vec<String>, allow_extension: bool) -> (r: Result<
        Self,
        LanguageIdentifierError,
    >)
        ensures
            ({
                let toks = Seq::new(subtags@.len(), |i: int| encode_utf8(subtags@[i]@));
                &&& r is Ok <==> parse_tokens(toks, allow_extension) is Ok
                &&& (r matches Ok(li) ==> parse_tokens(toks, allow_extension) matches Ok(v)
                    && li@ == v && li.wf())
                &&& (r matches Err(e) ==> parse_tokens(toks, allow_extension) matches Err(e2)
                    && e == LanguageIdentifierError::ParserError(e2))
            }),
    {
        let n = subtags.len();
        let mut toks: Vec<Vec<u8>> = Vec::new();
        let mut i: usize = 0;
        while i < n
            invariant
                n == subtags@.len(),
                i <= n,
                toks@.len() == i,
                forall|j: int| 0 <= j < i ==> toks@[j]@ == #[trigger] encode_utf8(subtags@[j]@),
            decreases n - i,
        {
            let b = subtags[i].as_str().as_bytes_vec();
            toks.push(b);
            i += 1;
        }
        proof {
            assert(token_views(toks@) =~= Seq::new(
                subtags@.len(),
                |j: int| encode_utf8(subtags@[j]@),
            )) by {
                assert forall|j: int| 0 <= j < toks@.len() implies token_views(toks@)[j]
                    == encode_utf8(subtags@[j]@) by {
                    assert(token_views(toks@)[j] == toks@[j]@);
                }
            }
        }
        match parse_token_slices(&toks, allow_extension) {
            Ok(li) => Ok(li),
            Err(e) => Err(LanguageIdentifierError::ParserError(e)),
        }
    }
}

} // verus!

verus! {

/// The view of an optional 8-byte subtag.
pub open spec fn opt_view8(o: Option<TinyStr8>) -> Option<Seq<u8>> {
    match o {
        Some(t) => Some(t@),
        None => None,
    }
}

/// The view of an optional 4-byte subtag.
pub open spec fn opt_view4(o: Option<TinyStr4>) -> Option<Seq<u8>> {
    match o {
        Some(t) => Some(t@),
        None => None,
    }
}

/// One field of the wildcard-aware comparison, on packed 8-byte values.
fn subtag_matches8(a: &Option<TinyStr8>, b: &Option<TinyStr8>, ar: bool, br: bool) -> (r: bool)
    requires
        a matches Some(t) ==> t.wf(),
        b matches Some(t) ==> t.wf(),
    ensures
        r == subtag_matches(opt_view8(*a), opt_view8(*b), ar, br),
{
    match (a, b) {
        (Some(x), Some(y)) => {
            proof {
                if x@ == y@ {
                    lemma_view_injective(x.word, y.word);
                }
            }
            x.raw_word() == y.raw_word()
        },
        (None, None) => true,
        (None, Some(_)) => ar,
        (Some(_), None) => br,
    }
}

/// One field of the wildcard-aware comparison, on packed 4-byte values.
fn subtag_matches4(a: &Option<TinyStr4>, b: &Option<TinyStr4>, ar: bool, br: bool) -> (r: bool)
    requires
        a matches Some(t) ==> t.wf(),
        b matches Some(t) ==> t.wf(),
    ensures
        r == subtag_matches(opt_view4(*a), opt_view4(*b), ar, br),
{
    match (a, b) {
        (Some(x), Some(y)) => {
            proof {
                if x@ == y@ {
                    lemma_view_injective(x.word as u64, y.word as u64);
                }
            }
            x.raw_word() == y.raw_word()
        },
        (None, None) => true,
        (None, Some(_)) => ar,
        (Some(_), None) => br,
    }
}

/// Equality of two packed variant vectors, element by element.
fn variants_eq(a: &Vec<TinyStr8>, b: &Vec<TinyStr8>) -> (r: bool)
    requires
        forall|i: int| 0 <= i < a@.len() ==> (#[trigger] a@[i]).wf(),
        forall|i: int| 0 <= i < b@.len() ==> (#[trigger] b@[i]).wf(),
    ensures
        r == (variant_views(a@) == variant_views(b@)),
{
    if a.len() != b.len() {
        proof {
            assert(variant_views(a@).len() != variant_views(b@).len());
        }
        return false;
    }
    let n = a.len();
    let mut i: usize = 0;
    while i < n
        invariant
            n == a@.len(),
            n == b@.len(),
            i <= n,
            forall|j: int| 0 <= j < a@.len() ==> (#[trigger] a@[j]).wf(),
            forall|j: int| 0 <= j < b@.len() ==> (#[trigger] b@[j]).wf(),
            forall|j: int| 0 <= j < i ==> a@[j]@ == b@[j]@,
        decreases n - i,
    {
        if a[i].raw_word() != b[i].raw_word() {
            proof {
                if a@[i as int]@ == b@[i as int]@ {
                    lemma_view_injective(a@[i as int].word, b@[i as int].word);
                }
                assert(variant_views(a@)[i as int] == a@[i as int]@);
                assert(variant_views(b@)[i as int] == b@[i as int]@);
            }
            return false;
        }
        i += 1;
    }
    proof {
        assert(variant_views(a@) =~= variant_views(b@)) by {
            assert forall|j: int| 0 <= j < a@.len() implies variant_views(a@)[j] == variant_views(
                b@,
            )[j] by {
                assert(variant_views(a@)[j] == a@[j]@);
                assert(variant_views(b@)[j] == b@[j]@);
            }
        }
    }
    true
}

impl LanguageIdentifier {
    /// Compares two identifiers field by field, treating an absent field on
    /// a side flagged "as range" as a wildcard that matches anything.
    pub fn matches(&self, other: &Self, self_as_range: bool, other_as_range: bool) -> (r: bool)
        requires
            self.wf(),
            other.wf(),
        ensures
            r == matches_spec(self@, other@, self_as_range, other_as_range),
    {
        let lang = subtag_matches8(&self.language, &other.language, self_as_range, other_as_range);
        let script = subtag_matches4(&self.script, &other.script, self_as_range, other_as_range);
        let region = subtag_matches4(&self.region, &other.region, self_as_range, other_as_range);
        let vars = (self_as_range && self.variants.len() == 0) || (other_as_range
            && other.variants.len() == 0) || variants_eq(&self.variants, &other.variants);
        lang && script && region && vars
    }

    /// The language subtag text, with `und` standing for an absent
    /// language.
    pub fn get_language(&self) -> (r: String)
        requires
            self.wf(),
        ensures
            r@ == ascii_chars(
                match self@.language {
                    Some(s) => s,
                    None => und_bytes(),
                },
            ),
    {
        match &self.language {
            Some(t) => t.as_str(),
            None => {
                let und = mk8(0x75, 0x6e, 0x64, 0, 0, 0, 0, 0);
                proof {
                    assert(und@ =~= und_bytes());
                }
                und.as_str()
            },
        }
    }

    /// The script subtag text, if one is set.
    pub fn get_script(&self) -> (r: Option<String>)
        requires
            self.wf(),
        ensures
            r is Some <==> self@.script is Some,
            r matches Some(s) ==> self@.script matches Some(v) && s@ == ascii_chars(v),
    {
        match &self.script {
            Some(t) => Some(t.as_str()),
            None => None,
        }
    }

    /// The region subtag text, if one is set.
    pub fn get_region(&self) -> (r: Option<String>)
        requires
            self.wf(),
        ensures
            r is Some <==> self@.region is Some,
            r matches Some(s) ==> self@.region matches Some(v) && s@ == ascii_chars(v),
    {
        match &self.region {
            Some(t) => Some(t.as_str()),
            None => None,
        }
    }

    /// The variant subtag texts, in canonical sorted order.
    pub fn get_variants(&self) -> (r: Vec<String>)
        requires
            self.wf(),
        ensures
            r@.len() == self@.variants.len(),
            forall|i: int| 0 <= i < r@.len() ==> (#[trigger] r@[i])@ == ascii_chars(
                self@.variants[i],
            ),
    {
        let n = self.variants.len();
        let mut out: Vec<String> = Vec::new();
        let mut i: usize = 0;
        while i < n
            invariant
                self.wf(),
                n == self.variants@.len(),
                i <= n,
                out@.len() == i,
                forall|j: int| 0 <= j < i ==> (#[trigger] out@[j])@ == ascii_chars(
                    self@.variants[j],
                ),
            decreases n - i,
        {
            proof {
                assert(self@.variants[i as int] == self.variants@[i as int]@);
            }
            out.push(self.variants[i].as_str());
            i += 1;
        }
        out
    }
}

impl Default for LanguageIdentifier {
    /// The empty identifier: no language, script, region or variants;
    /// serialized as `und`.
    fn default() -> (r: Self)
        ensures
            r.wf(),
            r@.language is None,
            r@.script is None,
            r@.region is None,
            r@.variants.len() == 0,
    {
        let r = LanguageIdentifier {
            language: None,
            script: None,
            region: None,
            variants: Vec::new(),
        };
        proof {
            assert(variant_views(r.variants@) =~= Seq::<Seq<u8>>::empty());
        }
        r
    }
}

} // verus!

verus! {

/// Folds raw variant texts into a sorted, deduplicated canonical variant
/// sequence, starting from `acc` and taking the texts left to right.
pub open spec fn sorted_variants_from(acc: Seq<Seq<u8>>, raws: Seq<Seq<u8>>, k: int) -> Seq<
    Seq<u8>,
>
    decreases raws.len() - k,
{
    if k < 0 || k >= raws.len() {
        acc
    } else {
        sorted_variants_from(insert_variant(acc, lower_seq(raws[k])), raws, k + 1)
    }
}

/// The sorted, deduplicated canonical variant sequence of raw texts.
pub open spec fn sorted_variants(raws: Seq<Seq<u8>>) -> Seq<Seq<u8>> {
    sorted_variants_from(seq![], raws, 0)
}

/// Every raw text in the sequence is a valid variant subtag.
pub open spec fn all_variants_raw(raws: Seq<Seq<u8>>) -> bool {
    forall|i: int| 0 <= i < raws.len() ==> is_variant_raw(#[trigger] raws[i])
}

/// Validates raw variant texts and collects them sorted and deduplicated.
fn build_variants(variants: &[&str]) -> (r: Result<Vec<TinyStr8>, ParserError>)
    ensures
        ({
            let raws = Seq::new(variants@.len(), |i: int| encode_utf8(variants@[i]@));
            &&& r is Ok <==> all_variants_raw(raws)
            &&& (r matches Ok(vs) ==> variant_views(vs@) == sorted_variants(raws) && (forall|
                i: int,
            |
                0 <= i < vs@.len() ==> (#[trigger] vs@[i]).wf()) && (forall|i: int|
                0 <= i < variant_views(vs@).len() ==> is_canon_variant(
                    #[trigger] variant_views(vs@)[i],
                )) && strictly_sorted(variant_views(vs@)))
            &&& (r matches Err(e) ==> e == ParserError::InvalidSubtag)
        }),
{
    let ghost raws = Seq::new(variants@.len(), |i: int| encode_utf8(variants@[i]@));
    let n = variants.len();
    let mut out: Vec<TinyStr8> = Vec::new();
    let mut i: usize = 0;
    proof {
        assert(variant_views(out@) =~= Seq::<Seq<u8>>::empty());
        assert(Seq::<Seq<u8>>::empty() =~= seq![]);
    }
    while i < n
        invariant
            n == variants@.len(),
            raws == Seq::new(variants@.len(), |j: int| encode_utf8(variants@[j]@)),
            i <= n,
            forall|j: int| 0 <= j < i ==> is_variant_raw(#[trigger] raws[j]),
            forall|j: int| 0 <= j < out@.len() ==> (#[trigger] out@[j]).wf(),
            forall|j: int|
                0 <= j < variant_views(out@).len() ==> is_canon_variant(
                    #[trigger] variant_views(out@)[j],
                ),
            strictly_sorted(variant_views(out@)),
            sorted_variants(raws) == sorted_variants_from(variant_views(out@), raws, i as int),
        decreases n - i,
    {
        proof {
            assert(raws[i as int] == encode_utf8(variants@[i as int]@));
        }
        match parse_variant_subtag(variants[i]) {
            Ok(v) => {
                proof {
                    lemma_canon_variant(raws[i as int]);
                }
                let ghost vs0 = out@;
                crate::parser::insert_variant_vec(&mut out, v);
                proof {
                    canon_after_insert(vs0, v@, out@);
                }
            },
            Err(_) => {
                return Err(ParserError::InvalidSubtag);
            },
        }
        i += 1;
    }
    Ok(out)
}

/// After a sorted insert of a canonical variant, every stored variant is
/// still canonical and the order is still strict.
pub proof fn canon_after_insert(vs0: Seq<TinyStr8>, x: Seq<u8>, vs1: Seq<TinyStr8>)
    requires
        variant_views(vs1) == insert_variant(variant_views(vs0), x),
        is_canon_variant(x),
        forall|i: int| 0 <= i < variant_views(vs0).len() ==> is_canon_variant(
            #[trigger] variant_views(vs0)[i],
        ),
        strictly_sorted(variant_views(vs0)),
    ensures
        forall|i: int| 0 <= i < variant_views(vs1).len() ==> is_canon_variant(
            #[trigger] variant_views(vs1)[i],
        ),
        strictly_sorted(variant_views(vs1)),
{
    crate::parser::lemma_insert_sorted(variant_views(vs0), x);
    assert forall|i: int| 0 <= i < variant_views(vs1).len() implies is_canon_variant(
        #[trigger] variant_views(vs1)[i],
    ) by {
        let val = variant_views(vs1)[i];
        if val != x {
            assert(variant_views(vs0).contains(val));
            let m = choose|m: int|
                0 <= m < variant_views(vs0).len() && variant_views(vs0)[m] == val;
            assert(is_canon_variant(variant_views(vs0)[m]));
        }
    }
}

impl LanguageIdentifier {
    /// Builds an identifier from optional subtag texts, validating and
    /// normalizing each independently; the variants are sorted and
    /// deduplicated. The language text is rejected first, then script,
    /// region and variants.
    pub fn from_parts(
        language: Option<&str>,
        script: Option<&str>,
        region: Option<&str>,
        variants: &[&str],
    ) -> (r: Result<Self, LanguageIdentifierError>)
        ensures
            ({
                let raws = Seq::new(variants@.len(), |i: int| encode_utf8(variants@[i]@));
                let lang_ok = language matches Some(s) ==> is_language_raw(s.spec_bytes());
                let script_ok = script matches Some(s) ==> is_script_raw(s.spec_bytes());
                let region_ok = region matches Some(s) ==> is_region_raw(s.spec_bytes());
                &&& r is Ok <==> (lang_ok && script_ok && region_ok && all_variants_raw(raws))
                &&& (r matches Ok(li) ==> li.wf() && li@.language == (match language {
                    Some(s) => if lower_seq(s.spec_bytes()) == und_bytes() {
                        Option::<Seq<u8>>::None
                    } else {
                        Some(lower_seq(s.spec_bytes()))
                    },
                    None => None,
                }) && li@.script == (match script {
                    Some(s) => Some(title_bytes(s.spec_bytes())),
                    None => Option::<Seq<u8>>::None,
                }) && li@.region == (match region {
                    Some(s) => Some(crate::subtags::region_canon(s.spec_bytes())),
                    None => Option::<Seq<u8>>::None,
                }) && li@.variants == sorted_variants(raws))
                &&& (r matches Err(e) ==> e == (if !lang_ok {
                    LanguageIdentifierError::ParserError(ParserError::InvalidLanguage)
                } else {
                    LanguageIdentifierError::ParserError(ParserError::InvalidSubtag)
                }))
            }),
    {
        let lang_field = match language {
            Some(s) => {
                match parse_language_subtag(s) {
                    Ok(l) => l,
                    Err(e) => {
                        return Err(LanguageIdentifierError::ParserError(e));
                    },
                }
            },
            None => None,
        };
        let script_field = match script {
            Some(s) => {
                match parse_script_subtag(s) {
                    Ok(t) => Some(t),
                    Err(e) => {
                        return Err(LanguageIdentifierError::ParserError(e));
                    },
                }
            },
            None => None,
        };
        let region_field = match region {
            Some(s) => {
                match parse_region_subtag(s) {
                    Ok(t) => Some(t),
                    Err(e) => {
                        return Err(LanguageIdentifierError::ParserError(e));
                    },
                }
            },
            None => None,
        };
        let variants_field = match build_variants(variants) {
            Ok(vs) => vs,
            Err(e) => {
                return Err(LanguageIdentifierError::ParserError(e));
            },
        };
        proof {
            match language {
                Some(s) => {
                    if lang_field is Some {
                        lemma_canon_language(s.spec_bytes());
                    }
                },
                None => {},
            }
            match script {
                Some(s) => lemma_canon_script(s.spec_bytes()),
                None => {},
            }
            match region {
                Some(s) => lemma_canon_region(s.spec_bytes()),
                None => {},
            }
        }
        Ok(
            LanguageIdentifier {
                language: lang_field,
                script: script_field,
                region: region_field,
                variants: variants_field,
            },
        )
    }

    /// The raw packed words of all subtags, for compact storage; absent
    /// fields are `None`, and an empty variant set is `None`. The values
    /// are accepted back unchanged by `from_raw_parts_unchecked`.
    pub fn into_raw_parts(self) -> (r: (Option<u64>, Option<u32>, Option<u32>, Option<Vec<u64>>))
        requires
            self.wf(),
        ensures
            r.0 == (match self.language {
                Some(t) => Some(t.word),
                None => Option::<u64>::None,
            }),
            r.1 == (match self.script {
                Some(t) => Some(t.word),
                None => Option::<u32>::None,
            }),
            r.2 == (match self.region {
                Some(t) => Some(t.word),
                None => Option::<u32>::None,
            }),
            r.3 is Some <==> self.variants@.len() > 0,
            r.3 matches Some(v) ==> v@.len() == self.variants@.len() && (forall|i: int|
                0 <= i < v@.len() ==> v@[i] == (#[trigger] self.variants@[i]).word),
    {
        let lang = match &self.language {
            Some(t) => Some(t.raw_word()),
            None => None,
        };
        let script = match &self.script {
            Some(t) => Some(t.raw_word()),
            None => None,
        };
        let region = match &self.region {
            Some(t) => Some(t.raw_word()),
            None => None,
        };
        let n = self.variants.len();
        let vars = if n == 0 {
            None
        } else {
            let mut out: Vec<u64> = Vec::new();
            let mut i: usize = 0;
            while i < n
                invariant
                    n == self.variants@.len(),
                    i <= n,
                    out@.len() == i,
                    forall|j: int| 0 <= j < i ==> out@[j] == (#[trigger] self.variants@[j]).word,
                decreases n - i,
            {
                out.push(self.variants[i].raw_word());
                i += 1;
            }
            Some(out)
        };
        (lang, script, region, vars)
    }

    /// Trusted reconstruction from raw packed words, skipping validation.
    /// The caller must supply words previously produced by
    /// `into_raw_parts` on a valid identifier, or otherwise known to
    /// satisfy every stored invariant.
    pub fn from_raw_parts_unchecked(
        language: Option<u64>,
        script: Option<u32>,
        region: Option<u32>,
        variants: Option<Vec<u64>>,
    ) -> (r: Self)
        requires
            language matches Some(w) ==> crate::tinystr::wf_word(w) && is_canon_language(
                word_bytes(w),
            ),
            script matches Some(w) ==> crate::tinystr::wf_word(w as u64) && is_canon_script(
                word_bytes(w as u64),
            ),
            region matches Some(w) ==> crate::tinystr::wf_word(w as u64) && is_canon_region(
                word_bytes(w as u64),
            ),
            variants matches Some(v) ==> (forall|i: int|
                0 <= i < v@.len() ==> crate::tinystr::wf_word(#[trigger] v@[i])
                    && is_canon_variant(word_bytes(v@[i]))) && strictly_sorted(
                Seq::new(v@.len(), |i: int| word_bytes(v@[i])),
            ),
        ensures
            r.wf(),
            r@.language == (match language {
                Some(w) => Some(word_bytes(w)),
                None => Option::<Seq<u8>>::None,
            }),
            r@.script == (match script {
                Some(w) => Some(word_bytes(w as u64)),
                None => Option::<Seq<u8>>::None,
            }),
            r@.region == (match region {
                Some(w) => Some(word_bytes(w as u64)),
                None => Option::<Seq<u8>>::None,
            }),
            r@.variants == (match variants {
                Some(v) => Seq::new(v@.len(), |i: int| word_bytes(v@[i])),
                None => Seq::<Seq<u8>>::empty(),
            }),
    {
        let ghost gvars = variants;
        let lang_field = match language {
            Some(w) => Some(TinyStr8::new_unchecked(w)),
            None => None,
        };
        let script_field = match script {
            Some(w) => Some(TinyStr4::new_unchecked(w)),
            None => None,
        };
        let region_field = match region {
            Some(w) => Some(TinyStr4::new_unchecked(w)),
            None => None,
        };
        let vars_field = match variants {
            Some(v) => {
                let n = v.len();
                let mut out: Vec<TinyStr8> = Vec::new();
                let mut i: usize = 0;
                while i < n
                    invariant
                        n == v@.len(),
                        i <= n,
                        out@.len() == i,
                        forall|j: int|
                            0 <= j < v@.len() ==> crate::tinystr::wf_word(#[trigger] v@[j]),
                        forall|j: int| 0 <= j < i ==> (#[trigger] out@[j]).word == v@[j],
                        forall|j: int| 0 <= j < i ==> (#[trigger] out@[j]).wf(),
                    decreases n - i,
                {
                    out.push(TinyStr8::new_unchecked(v[i]));
                    i += 1;
                }
                out
            },
            None => Vec::new(),
        };
        let r = LanguageIdentifier {
            language: lang_field,
            script: script_field,
            region: region_field,
            variants: vars_field,
        };
        proof {
            match gvars {
                Some(v) => {
                    assert(variant_views(r.variants@) =~= Seq::new(
                        v@.len(),
                        |i: int| word_bytes(v@[i]),
                    )) by {
                        assert forall|j: int|
                            0 <= j < r.variants@.len() implies variant_views(r.variants@)[j]
                            == word_bytes(v@[j]) by {
                            assert(variant_views(r.variants@)[j] == r.variants@[j]@);
                        }
                    }
                },
                None => {
                    assert(variant_views(r.variants@) =~= Seq::<Seq<u8>>::empty());
                },
            }
        }
        r
    }
}

} // verus!

verus! {

impl LanguageIdentifier {
    /// Replaces the language subtag after validation; on failure the
    /// identifier is left unchanged. `None` (like the text `und`) clears
    /// the field.
    pub fn set_language(&mut self, language: Option<&str>) -> (r: Result<
        (),
        LanguageIdentifierError,
    >)
        requires
            old(self).wf(),
        ensures
            final(self).wf(),
            r is Ok <==> (language matches Some(s) ==> is_language_raw(s.spec_bytes())),
            r is Ok ==> final(self)@.language == (match language {
                Some(s) => if lower_seq(s.spec_bytes()) == und_bytes() {
                    Option::<Seq<u8>>::None
                } else {
                    Some(lower_seq(s.spec_bytes()))
                },
                None => Option::<Seq<u8>>::None,
            }),
            r is Err ==> *final(self) == *old(self) && r == Err::<(), _>(
                LanguageIdentifierError::ParserError(ParserError::InvalidLanguage),
            ),
            final(self)@.script == old(self)@.script,
            final(self)@.region == old(self)@.region,
            final(self)@.variants == old(self)@.variants,
    {
        match language {
            Some(s) => {
                match parse_language_subtag(s) {
                    Ok(l) => {
                        proof {
                            if l is Some {
                                lemma_canon_language(s.spec_bytes());
                            }
                        }
                        self.language = l;
                        Ok(())
                    },
                    Err(e) => Err(LanguageIdentifierError::ParserError(e)),
                }
            },
            None => {
                self.language = None;
                Ok(())
            },
        }
    }

    /// Replaces the script subtag after validation; on failure the
    /// identifier is left unchanged. `None` clears the field.
    pub fn set_script(&mut self, script: Option<&str>) -> (r: Result<(), LanguageIdentifierError>)
        requires
            old(self).wf(),
        ensures
            final(self).wf(),
            r is Ok <==> (script matches Some(s) ==> crate::subtags::is_script_raw(
                s.spec_bytes(),
            )),
            r is Ok ==> final(self)@.script == (match script {
                Some(s) => Some(title_bytes(s.spec_bytes())),
                None => Option::<Seq<u8>>::None,
            }),
            r is Err ==> *final(self) == *old(self) && r == Err::<(), _>(
                LanguageIdentifierError::ParserError(ParserError::InvalidSubtag),
            ),
            final(self)@.language == old(self)@.language,
            final(self)@.region == old(self)@.region,
            final(self)@.variants == old(self)@.variants,
    {
        match script {
            Some(s) => {
                match parse_script_subtag(s) {
                    Ok(t) => {
                        proof {
                            lemma_canon_script(s.spec_bytes());
                        }
                        self.script = Some(t);
                        Ok(())
                    },
                    Err(e) => Err(LanguageIdentifierError::ParserError(e)),
                }
            },
            None => {
                self.script = None;
                Ok(())
            },
        }
    }

    /// Replaces the region subtag after validation; on failure the
    /// identifier is left unchanged. `None` clears the field.
    pub fn set_region(&mut self, region: Option<&str>) -> (r: Result<(), LanguageIdentifierError>)
        requires
            old(self).wf(),
        ensures
            final(self).wf(),
            r is Ok <==> (region matches Some(s) ==> crate::subtags::is_region_raw(
                s.spec_bytes(),
            )),
            r is Ok ==> final(self)@.region == (match region {
                Some(s) => Some(crate::subtags::region_canon(s.spec_bytes())),
                None => Option::<Seq<u8>>::None,
            }),
            r is Err ==> *final(self) == *old(self) && r == Err::<(), _>(
                LanguageIdentifierError::ParserError(ParserError::InvalidSubtag),
            ),
            final(self)@.language == old(self)@.language,
            final(self)@.script == old(self)@.script,
            final(self)@.variants == old(self)@.variants,
    {
        match region {
            Some(s) => {
                match parse_region_subtag(s) {
                    Ok(t) => {
                        proof {
                            lemma_canon_region(s.spec_bytes());
                        }
                        self.region = Some(t);
                        Ok(())
                    },
                    Err(e) => Err(LanguageIdentifierError::ParserError(e)),
                }
            },
            None => {
                self.region = None;
                Ok(())
            },
        }
    }

    /// Replaces the variant subtags after validating each; the stored set
    /// is sorted and deduplicated. On failure the identifier is left
    /// unchanged.
    pub fn set_variants(&mut self, variants: &[&str]) -> (r: Result<(), LanguageIdentifierError>)
        requires
            old(self).wf(),
        ensures
            final(self).wf(),
            ({
                let raws = Seq::new(variants@.len(), |i: int| encode_utf8(variants@[i]@));
                &&& (r is Ok <==> all_variants_raw(raws))
                &&& (r is Ok ==> final(self)@.variants == sorted_variants(raws))
                &&& (r is Err ==> *final(self) == *old(self) && r == Err::<(), _>(
                    LanguageIdentifierError::ParserError(ParserError::InvalidSubtag),
                ))
            }),
            final(self)@.language == old(self)@.language,
            final(self)@.script == old(self)@.script,
            final(self)@.region == old(self)@.region,
    {
        match build_variants(variants) {
            Ok(vs) => {
                self.variants = vs;
                Ok(())
            },
            Err(e) => Err(LanguageIdentifierError::ParserError(e)),
        }
    }

    /// The canonical text of the identifier: the language (or `und`), then
    /// script, region and each variant in sorted order, joined with `-`.
    /// Every validated field combination has exactly one such text.
    pub fn to_text(&self) -> (r: String)
        requires
            self.wf(),
        ensures
            r@ == ascii_chars(serialize_view(self@)),
    {
        let mut out: Vec<u8>;
        let ghost mut toks: Seq<Seq<u8>>;
        match &self.language {
            Some(t) => {
                out = t.to_bytes();
                proof {
                    toks = seq![t@];
                }
            },
            None => {
                let und = mk8(0x75, 0x6e, 0x64, 0, 0, 0, 0, 0);
                proof {
                    assert(und@ =~= und_bytes());
                }
                out = und.to_bytes();
                proof {
                    toks = seq![und_bytes()];
                }
            },
        }
        proof {
            assert(join_tokens(toks) == out@);
        }
        match &self.script {
            Some(t) => {
                proof {
                    lemma_join_push(toks, t@);
                }
                out.push(0x2d);
                let b = t.to_bytes();
                out.extend_from_slice(b.as_slice());
                proof {
                    let toks2 = toks.push(t@);
                    assert(out@ =~= join_tokens(toks) + seq![0x2du8] + t@);
                    toks = toks2;
                }
            },
            None => {},
        }
        match &self.region {
            Some(t) => {
                proof {
                    lemma_join_push(toks, t@);
                }
                out.push(0x2d);
                let b = t.to_bytes();
                out.extend_from_slice(b.as_slice());
                proof {
                    let toks2 = toks.push(t@);
                    assert(out@ =~= join_tokens(toks) + seq![0x2du8] + t@);
                    toks = toks2;
                }
            },
            None => {},
        }
        let n = self.variants.len();
        let mut i: usize = 0;
        proof {
            assert(toks + variant_views(self.variants@).take(0) =~= toks);
        }
        while i < n
            invariant
                self.wf(),
                n == self.variants@.len(),
                i <= n,
                toks.len() >= 1,
                out@ == join_tokens(toks + variant_views(self.variants@).take(i as int)),
                view_tokens(self@) == toks + variant_views(self.variants@),
            decreases n - i,
        {
            let ghost cur = toks + variant_views(self.variants@).take(i as int);
            let t = self.variants[i];
            proof {
                assert(variant_views(self.variants@)[i as int] == self.variants@[i as int]@);
                lemma_join_push(cur, t@);
            }
            out.push(0x2d);
            let b = t.to_bytes();
            out.extend_from_slice(b.as_slice());
            proof {
                assert(out@ =~= join_tokens(cur) + seq![0x2du8] + t@);
                assert(cur.push(t@) =~= toks + variant_views(self.variants@).take(i + 1));
            }
            i += 1;
        }
        proof {
            assert(toks + variant_views(self.variants@).take(n as int) =~= view_tokens(self@));
            lemma_serialize_ascii(self@);
        }
        ascii_to_string(out)
    }
}

/// Every byte of the canonical serialization of a well-formed value is
/// 7-bit ASCII.
pub proof fn lemma_serialize_ascii(v: LangIdView)
    requires
        wf_view(v),
    ensures
        crate::tinystr::all_ascii(serialize_view(v)),
{
    let toks = view_tokens(v);
    assert forall|i: int| 0 <= i < toks.len() implies crate::tinystr::all_ascii(
        #[trigger] toks[i],
    ) by {
        lemma_view_tokens_ascii(v, i);
    }
    lemma_join_ascii(toks);
}

/// Each token of the canonical serialization of a well-formed value holds
/// only 7-bit ASCII bytes.
proof fn lemma_view_tokens_ascii(v: LangIdView, i: int)
    requires
        wf_view(v),
        0 <= i < view_tokens(v).len(),
    ensures
        crate::tinystr::all_ascii(view_tokens(v)[i]),
{
    let s = view_tokens(v)[i];
    let lang_tok = match v.language {
        Some(t) => t,
        None => und_bytes(),
    };
    assert(crate::tinystr::all_ascii(lang_tok)) by {
        match v.language {
            Some(t) => {
                assert forall|j: int| 0 <= j < t.len() implies t[j] < 0x80 by {
                    assert(is_lower_alpha(t[j]));
                }
            },
            None => {
                assert forall|j: int| 0 <= j < und_bytes().len() implies und_bytes()[j]
                    < 0x80 by {
                    if j == 0 {
                        assert(und_bytes()[0] == 0x75u8);
                    } else if j == 1 {
                        assert(und_bytes()[1] == 0x6eu8);
                    } else {
                        assert(und_bytes()[2] == 0x64u8);
                    }
                }
            },
        }
    }
    match v.script {
        Some(t) => {
            assert(crate::tinystr::all_ascii(t)) by {
                assert forall|j: int| 0 <= j < t.len() implies t[j] < 0x80 by {
                    if j == 0 {
                        assert(is_upper_alpha(t[0]));
                    } else {
                        assert(is_lower_alpha(t[j]));
                    }
                }
            }
        },
        None => {},
    }
    match v.region {
        Some(t) => {
            assert(crate::tinystr::all_ascii(t)) by {
                assert forall|j: int| 0 <= j < t.len() implies t[j] < 0x80 by {
                    if t.len() == 2 {
                        assert(is_upper_alpha(t[j]));
                    } else {
                        assert(is_digit_byte(t[j]));
                    }
                }
            }
        },
        None => {},
    }
    let t0 = seq![lang_tok];
    let t1 = match v.script {
        Some(sc) => t0.push(sc),
        None => t0,
    };
    let t2 = match v.region {
        Some(rg) => t1.push(rg),
        None => t1,
    };
    assert(view_tokens(v) == t2 + v.variants);
    if i < t2.len() {
        assert(s == t2[i]);
    } else {
        assert(s == v.variants[i - t2.len()]);
        assert(is_canon_variant(s));
    }
}

/// Joining ASCII tokens yields ASCII bytes.
pub proof fn lemma_join_ascii(toks: Seq<Seq<u8>>)
    requires
        forall|i: int| 0 <= i < toks.len() ==> crate::tinystr::all_ascii(#[trigger] toks[i]),
    ensures
        crate::tinystr::all_ascii(join_tokens(toks)),
    decreases toks.len(),
{
    if toks.len() > 1 {
        lemma_join_ascii(toks.drop_first());
    }
}

/// Parses, then serializes: the canonical text of a well-formed input,
/// with casing and separators normalized.
pub fn canonicalize(input: &str) -> (r: Result<String, LanguageIdentifierError>)
    ensures
        r is Ok <==> parse_bytes(input.spec_bytes()) is Ok,
        r matches Ok(s) ==> parse_bytes(input.spec_bytes()) matches Ok(v) && s@ == ascii_chars(
            serialize_view(v),
        ),
        r matches Err(e) ==> parse_bytes(input.spec_bytes()) matches Err(e2) && e
            == LanguageIdentifierError::ParserError(e2),
{
    match LanguageIdentifier::from_text(input) {
        Ok(li) => Ok(li.to_text()),
        Err(e) => Err(e),
    }
}

} // verus!

verus! {

use crate::likelysubtags::{add_likely_spec, maximize_spec, remove_likely_spec};
use crate::layout::is_rtl_lang;

/// Character direction of a script: the order glyphs are laid out.
#[derive(Debug, Clone, Copy, PartialEq, Eq, Structural)]
pub enum CharacterDirection {
    /// Right to left, as in Arabic or Hebrew.
    RTL,
    /// Left to right, as in English or Spanish.
    LTR,
}

impl LanguageIdentifier {
    /// Extends the identifier with the most likely script and region (and
    /// language) from the likely-subtags table; returns whether anything
    /// could be resolved. A fully specified identifier is left unchanged.
    pub fn add_likely_subtags(&mut self) -> (r: bool)
        requires
            old(self).wf(),
        ensures
            final(self).wf(),
            r == (add_likely_spec(
                old(self)@.language,
                old(self)@.script,
                old(self)@.region,
            ) is Some),
            r ==> (add_likely_spec(old(self)@.language, old(self)@.script, old(self)@.region)
                matches Some(m) && final(self)@.language == m.0 && final(self)@.script == m.1
                && final(self)@.region == m.2),
            !r ==> *final(self) == *old(self),
            final(self)@.variants == old(self)@.variants,
    {
        match crate::likelysubtags::add_likely_subtags(self.language, self.script, self.region) {
            Some((l, s, rg)) => {
                self.language = l;
                self.script = s;
                self.region = rg;
                true
            },
            None => false,
        }
    }

    /// Reduces the identifier to the most compact form that the
    /// likely-subtags table expands back to the same maximal form; returns
    /// whether a reduction was found. What the result expands to is
    /// exactly what the original expanded to.
    pub fn remove_likely_subtags(&mut self) -> (r: bool)
        requires
            old(self).wf(),
        ensures
            final(self).wf(),
            r == (remove_likely_spec(
                old(self)@.language,
                old(self)@.script,
                old(self)@.region,
            ) is Some),
            r ==> (remove_likely_spec(old(self)@.language, old(self)@.script, old(self)@.region)
                matches Some(m) && final(self)@.language == m.0 && final(self)@.script == m.1
                && final(self)@.region == m.2),
            r ==> maximize_spec(final(self)@.language, final(self)@.script, final(self)@.region)
                == maximize_spec(old(self)@.language, old(self)@.script, old(self)@.region),
            !r ==> *final(self) == *old(self),
            final(self)@.variants == old(self)@.variants,
    {
        proof {
            crate::likelysubtags::lemma_remove_preserves_maximal(
                self@.language,
                self@.script,
                self@.region,
            );
        }
        match crate::likelysubtags::remove_likely_subtags(self.language, self.script, self.region) {
            Some((l, s, rg)) => {
                self.language = l;
                self.script = s;
                self.region = rg;
                true
            },
            None => false,
        }
    }

    /// The character direction of the identifier's language: right to left
    /// for the languages in the direction table, left to right otherwise.
    pub fn get_character_direction(&self) -> (r: CharacterDirection)
        requires
            self.wf(),
        ensures
            r == (if (self@.language matches Some(s) && is_rtl_lang(s)) {
                CharacterDirection::RTL
            } else {
                CharacterDirection::LTR
            }),
    {
        match &self.language {
            Some(l) => {
                if crate::layout::rtl_lookup(l) {
                    CharacterDirection::RTL
                } else {
                    CharacterDirection::LTR
                }
            },
            None => CharacterDirection::LTR,
        }
    }
}

} // verus!

verus! {

use crate::tinystr::wf_word;

/// The raw integer encoding is a stable contract: the words produced by
/// `into_raw_parts` on a well-formed identifier satisfy every demand of
/// `from_raw_parts_unchecked`, which therefore accepts them unchanged and
/// rebuilds an identifier with the same value.
pub proof fn lemma_raw_parts_accepted(
    li: LanguageIdentifier,
    lang: Option<u64>,
    script: Option<u32>,
    region: Option<u32>,
    variants: Option<Vec<u64>>,
)
    requires
        li.wf(),
        lang == (match li.language {
            Some(t) => Some(t.word),
            None => Option::<u64>::None,
        }),
        script == (match li.script {
            Some(t) => Some(t.word),
            None => Option::<u32>::None,
        }),
        region == (match li.region {
            Some(t) => Some(t.word),
            None => Option::<u32>::None,
        }),
        variants is Some <==> li.variants@.len() > 0,
        variants matches Some(v) ==> v@.len() == li.variants@.len() && (forall|i: int|
            0 <= i < v@.len() ==> v@[i] == (#[trigger] li.variants@[i]).word),
    ensures
        lang matches Some(w) ==> wf_word(w) && is_canon_language(word_bytes(w)),
        script matches Some(w) ==> wf_word(w as u64) && is_canon_script(word_bytes(w as u64)),
        region matches Some(w) ==> wf_word(w as u64) && is_canon_region(word_bytes(w as u64)),
        variants matches Some(v) ==> (forall|i: int|
            0 <= i < v@.len() ==> wf_word(#[trigger] v@[i]) && is_canon_variant(
                word_bytes(v@[i]),
            )) && strictly_sorted(Seq::new(v@.len(), |i: int| word_bytes(v@[i]))),
        ({
            let rebuilt = LangIdView {
                language: match lang {
                    Some(w) => Some(word_bytes(w)),
                    None => None,
                },
                script: match script {
                    Some(w) => Some(word_bytes(w as u64)),
                    None => None,
                },
                region: match region {
                    Some(w) => Some(word_bytes(w as u64)),
                    None => None,
                },
                variants: match variants {
                    Some(v) => Seq::new(v@.len(), |i: int| word_bytes(v@[i])),
                    None => Seq::<Seq<u8>>::empty(),
                },
            };
            rebuilt == li@
        }),
{
    match variants {
        Some(v) => {
            assert forall|i: int| 0 <= i < v@.len() implies wf_word(#[trigger] v@[i])
                && is_canon_variant(word_bytes(v@[i])) by {
                assert(li.variants@[i].wf());
                assert(is_canon_variant(variant_views(li.variants@)[i]));
                assert(variant_views(li.variants@)[i] == li.variants@[i]@);
            }
            assert(Seq::new(v@.len(), |i: int| word_bytes(v@[i])) =~= variant_views(
                li.variants@,
            )) by {
                assert forall|i: int| 0 <= i < v@.len() implies Seq::new(
                    v@.len(),
                    |i: int| word_bytes(v@[i]),
                )[i] == variant_views(li.variants@)[i] by {
                    assert(variant_views(li.variants@)[i] == li.variants@[i]@);
                }
            }
        },
        None => {
            assert(variant_views(li.variants@) =~= Seq::<Seq<u8>>::empty());
        },
    }
}

} // verus!
