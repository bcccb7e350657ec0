//! The identifier parser: tokenizes input on `-` or `_`, drives the subtag
//! validators over each token by grammar position, and assembles the model
//! value. The grammar is `language ('-' script)? ('-' region)? ('-' variant)*`,
//! with shape-based left-to-right slot assignment.

use vstd::prelude::*;

use crate::errors::ParserError;
use crate::langid::LangIdView;
use crate::tinystr::TinyStr8;

verus! {

use crate::tinystr::{lex_lt, lower_seq, title_bytes, lemma_lex_trans, lemma_lex_asym,
    lemma_lex_connex, lemma_view_injective};
use crate::subtags::{
    is_language_raw,
    is_region_raw,
    is_script_raw,
    is_variant_raw,
    region_canon,
    und_bytes,
};
use crate::langid::{strictly_sorted, variant_views};

/// The byte separates subtags: `-` or `_`.
pub open spec fn is_sep(b: u8) -> bool {
    b == 0x2d || b == 0x5f
}

/// The index of the first separator byte, or the length when there is none.
pub open spec fn first_sep(s: Seq<u8>) -> int
    decreases s.len(),
{
    if s.len() == 0 {
        0
    } else if is_sep(s[0]) {
        0
    } else {
        1 + first_sep(s.drop_first())
    }
}

/// Bounds and meaning of `first_sep`: everything before it is ordinary,
/// and it points at a separator unless it is the length.
pub proof fn lemma_first_sep(s: Seq<u8>)
    ensures
        0 <= first_sep(s) <= s.len(),
        forall|j: int| 0 <= j < first_sep(s) ==> !is_sep(#[trigger] s[j]),
        first_sep(s) < s.len() ==> is_sep(s[first_sep(s)]),
    decreases s.len(),
{
    if s.len() != 0 && !is_sep(s[0]) {
        lemma_first_sep(s.drop_first());
        assert forall|j: int| 0 <= j < first_sep(s) implies !is_sep(#[trigger] s[j]) by {
            if j > 0 {
                assert(s.drop_first()[j - 1] == s[j]);
            }
        }
        if first_sep(s) < s.len() {
            assert(s.drop_first()[first_sep(s.drop_first())] == s[first_sep(s)]);
        }
    }
}

/// The token sequence of a byte string: the maximal separator-free runs,
/// with empty runs kept.
pub open spec fn split_bytes(s: Seq<u8>) -> Seq<Seq<u8>>
    decreases s.len(),
{
    let i = first_sep(s);
    if i < 0 || i >= s.len() {
        seq![s]
    } else {
        seq![s.take(i)] + split_bytes(s.skip(i + 1))
    }
}

/// Inserts a variant value into a sorted, deduplicated variant sequence,
/// keeping it sorted and dropping the value when it is already present.
pub open spec fn insert_variant(vs: Seq<Seq<u8>>, x: Seq<u8>) -> Seq<Seq<u8>>
    decreases vs.len(),
{
    if vs.len() == 0 {
        seq![x]
    } else if lex_lt(x, vs[0]) {
        seq![x] + vs
    } else if x == vs[0] {
        vs
    } else {
        seq![vs[0]] + insert_variant(vs.drop_first(), x)
    }
}

/// Consumes the tokens after the language position. `p` is the grammar
/// slot still open: 0 admits script, region or variant; 1 admits region or
/// variant; 2 admits variants only. With `ext` set, a one-byte token stops
/// consumption (the extension introducer); otherwise it fails.
pub open spec fn parse_rest(
    tokens: Seq<Seq<u8>>,
    k: int,
    p: int,
    acc: LangIdView,
    ext: bool,
) -> Result<LangIdView, ParserError>
    decreases tokens.len() - k,
{
    if k < 0 || k >= tokens.len() {
        Ok(acc)
    } else {
        let tok = tokens[k];
        if ext && tok.len() == 1 {
            Ok(acc)
        } else if p <= 0 && is_script_raw(tok) {
            parse_rest(
                tokens,
                k + 1,
                1,
                LangIdView { script: Some(title_bytes(tok)), ..acc },
                ext,
            )
        } else if p <= 1 && is_region_raw(tok) {
            parse_rest(
                tokens,
                k + 1,
                2,
                LangIdView { region: Some(region_canon(tok)), ..acc },
                ext,
            )
        } else if is_variant_raw(tok) {
            parse_rest(
                tokens,
                k + 1,
                2,
                LangIdView { variants: insert_variant(acc.variants, lower_seq(tok)), ..acc },
                ext,
            )
        } else {
            Err(ParserError::InvalidSubtag)
        }
    }
}

/// Parses a whole token sequence: a mandatory language-shaped first token,
/// then the remaining grammar slots.
pub open spec fn parse_tokens(tokens: Seq<Seq<u8>>, ext: bool) -> Result<LangIdView, ParserError> {
    if tokens.len() == 0 || !is_language_raw(tokens[0]) {
        Err(ParserError::InvalidLanguage)
    } else {
        let lang = if lower_seq(tokens[0]) == und_bytes() {
            Option::<Seq<u8>>::None
        } else {
            Some(lower_seq(tokens[0]))
        };
        parse_rest(
            tokens,
            1,
            0,
            LangIdView { language: lang, script: None, region: None, variants: seq![] },
            ext,
        )
    }
}

/// Parses a whole byte string: tokenize, then match the grammar with no
/// extension tail allowed.
pub open spec fn parse_bytes(s: Seq<u8>) -> Result<LangIdView, ParserError> {
    parse_tokens(split_bytes(s), false)
}

/// The order never relates a value to itself.
pub proof fn lemma_lex_irrefl(a: Seq<u8>)
    ensures
        !lex_lt(a, a),
    decreases a.len(),
{
    if a.len() != 0 {
        lemma_lex_irrefl(a.drop_first());
    }
}

/// Where the insertion point lands once the strictly smaller prefix is
/// passed: either the value is already there, or it goes exactly there.
pub proof fn lemma_insert_at(vs: Seq<Seq<u8>>, x: Seq<u8>, i: int)
    requires
        0 <= i <= vs.len(),
        forall|j: int| 0 <= j < i ==> lex_lt(#[trigger] vs[j], x),
        i < vs.len() ==> !lex_lt(vs[i], x),
    ensures
        insert_variant(vs, x) == (if i < vs.len() && vs[i] == x {
            vs
        } else {
            vs.take(i).push(x) + vs.skip(i)
        }),
    decreases vs.len(),
{
    lemma_lex_irrefl(x);
    if vs.len() == 0 {
        assert(vs.take(0).push(x) + vs.skip(0) =~= seq![x]);
    } else if i == 0 {
        if !lex_lt(x, vs[0]) && x != vs[0] {
            lemma_lex_connex(x, vs[0]);
            assert(false);
        }
        if lex_lt(x, vs[0]) {
            assert(vs[0] != x);
            assert(vs.take(0).push(x) + vs.skip(0) =~= seq![x] + vs);
        }
    } else {
        assert(lex_lt(vs[0], x));
        lemma_lex_asym(vs[0], x);
        assert(x != vs[0]);
        let rest = vs.drop_first();
        assert forall|j: int| 0 <= j < i - 1 implies lex_lt(#[trigger] rest[j], x) by {
            assert(rest[j] == vs[j + 1]);
        }
        assert(i - 1 < rest.len() ==> !lex_lt(rest[i - 1], x)) by {
            if i - 1 < rest.len() {
                assert(rest[i - 1] == vs[i]);
            }
        }
        lemma_insert_at(rest, x, i - 1);
        if i < vs.len() && vs[i] == x {
            assert(rest[i - 1] == vs[i]);
            assert(seq![vs[0]] + rest =~= vs);
        } else {
            assert(seq![vs[0]] + (rest.take(i - 1).push(x) + rest.skip(i - 1)) =~= vs.take(
                i,
            ).push(x) + vs.skip(i));
        }
    }
}

/// Inserting into a sorted, duplicate-free sequence keeps it sorted and
/// duplicate-free; every element of the result is the inserted value or an
/// original element, and the inserted value is present.
pub proof fn lemma_insert_sorted(vs: Seq<Seq<u8>>, x: Seq<u8>)
    requires
        strictly_sorted(vs),
    ensures
        strictly_sorted(insert_variant(vs, x)),
        forall|k: int|
            0 <= k < insert_variant(vs, x).len() ==> (#[trigger] insert_variant(vs, x)[k] == x
                || vs.contains(insert_variant(vs, x)[k])),
        insert_variant(vs, x).contains(x),
        vs.len() <= insert_variant(vs, x).len() <= vs.len() + 1,
    decreases vs.len(),
{
    let r = insert_variant(vs, x);
    if vs.len() == 0 {
        assert(r[0] == x);
    } else if lex_lt(x, vs[0]) {
        assert forall|i: int, j: int| 0 <= i < j < r.len() implies lex_lt(
            #[trigger] r[i],
            #[trigger] r[j],
        ) by {
            if i == 0 {
                if j > 1 {
                    lemma_lex_trans(x, vs[0], vs[j - 1]);
                } else {
                }
            } else {
                assert(r[i] == vs[i - 1] && r[j] == vs[j - 1]);
            }
        }
        assert(r[0] == x);
        assert forall|k: int| 0 <= k < r.len() implies (#[trigger] r[k] == x || vs.contains(
            r[k],
        )) by {
            if k > 0 {
                assert(r[k] == vs[k - 1]);
            }
        }
    } else if x == vs[0] {
        assert(r.contains(x)) by {
            assert(r[0] == x);
        }
        assert forall|k: int| 0 <= k < r.len() implies (#[trigger] r[k] == x || vs.contains(
            r[k],
        )) by {
            assert(vs.contains(vs[k]));
        }
    } else {
        if !lex_lt(vs[0], x) {
            lemma_lex_connex(x, vs[0]);
            assert(false);
        }
        let rest = vs.drop_first();
        assert forall|i: int, j: int| 0 <= i < j < rest.len() implies lex_lt(
            #[trigger] rest[i],
            #[trigger] rest[j],
        ) by {
            assert(rest[i] == vs[i + 1] && rest[j] == vs[j + 1]);
        }
        lemma_insert_sorted(rest, x);
        let ri = insert_variant(rest, x);
        assert(r =~= seq![vs[0]] + ri);
        assert forall|k: int| 0 <= k < r.len() implies (#[trigger] r[k] == x || vs.contains(
            r[k],
        )) by {
            if k == 0 {
                assert(vs.contains(vs[0]));
            } else {
                assert(r[k] == ri[k - 1]);
                if ri[k - 1] != x {
                    assert(rest.contains(ri[k - 1]));
                    let m = choose|m: int| 0 <= m < rest.len() && rest[m] == ri[k - 1];
                    assert(vs[m + 1] == rest[m]);
                    assert(vs.contains(vs[m + 1]));
                }
            }
        }
        assert forall|i: int, j: int| 0 <= i < j < r.len() implies lex_lt(
            #[trigger] r[i],
            #[trigger] r[j],
        ) by {
            if i == 0 {
                assert(r[j] == ri[j - 1]);
                if ri[j - 1] == x {
                } else {
                    assert(rest.contains(ri[j - 1]));
                    let m = choose|m: int| 0 <= m < rest.len() && rest[m] == ri[j - 1];
                    assert(rest[m] == vs[m + 1]);
                    assert(lex_lt(vs[0], vs[m + 1]));
                }
            } else {
                assert(r[i] == ri[i - 1] && r[j] == ri[j - 1]);
            }
        }
        assert(r.contains(x)) by {
            let m = choose|m: int| 0 <= m < ri.len() && ri[m] == x;
            assert(r[m + 1] == ri[m]);
        }
    }
}

} // verus!

verus! {

use vstd::string::StringSliceAdditionalSpecFns;
use crate::langid::{
    acc_view,
    is_canon_variant,
    lemma_canon_language,
    lemma_canon_region,
    lemma_canon_script,
    lemma_canon_variant,
    wf_view,
    LanguageIdentifier,
};

use crate::subtags::{
    parse_language_bytes,
    parse_region_bytes,
    parse_script_bytes,
    parse_variant_bytes,
};

/// The views of a vector of byte-vector tokens.
pub open spec fn token_views(ts: Seq<Vec<u8>>) -> Seq<Seq<u8>> {
    Seq::new(ts.len(), |i: int| ts[i]@)
}

/// Inserts a packed variant into a packed variant vector at its sorted
/// position, dropping it when an equal value is already stored.
pub(crate) fn insert_variant_vec(vs: &mut Vec<TinyStr8>, x: TinyStr8)
    requires
        x.wf(),
        forall|i: int| 0 <= i < old(vs)@.len() ==> (#[trigger] old(vs)@[i]).wf(),
    ensures
        variant_views(final(vs)@) == insert_variant(variant_views(old(vs)@), x@),
        forall|i: int| 0 <= i < final(vs)@.len() ==> (#[trigger] final(vs)@[i]).wf(),
{
    let ghost vs0 = vs@;
    let n = vs.len();
    let mut i: usize = 0;
    while i < n && vs[i].lt(&x)
        invariant
            vs@ == vs0,
            n == vs@.len(),
            x.wf(),
            forall|j: int| 0 <= j < vs@.len() ==> (#[trigger] vs@[j]).wf(),
            i <= n,
            forall|j: int| 0 <= j < i ==> lex_lt(variant_views(vs@)[j], x@),
        decreases n - i,
    {
        proof {
            assert(variant_views(vs@)[i as int] == vs@[i as int]@);
        }
        i += 1;
    }
    proof {
        assert(i < n ==> !lex_lt(variant_views(vs@)[i as int], x@)) by {
            if i < n {
                assert(variant_views(vs@)[i as int] == vs@[i as int]@);
            }
        }
        lemma_insert_at(variant_views(vs0), x@, i as int);
    }
    if i < n && vs[i].raw_word() == x.raw_word() {
        proof {
            assert(variant_views(vs0)[i as int] == vs0[i as int]@);
            assert(vs0[i as int]@ == x@);
        }
    } else {
        proof {
            if i < n && vs0[i as int]@ == x@ {
                lemma_view_injective(vs0[i as int].word, x.word);
            }
        }
        vs.insert(i, x);
        proof {
            assert(variant_views(vs@) =~= variant_views(vs0).take(i as int).push(x@)
                + variant_views(vs0).skip(i as int)) by {
                assert forall|j: int| 0 <= j < vs@.len() implies variant_views(vs@)[j] == (
                variant_views(vs0).take(i as int).push(x@) + variant_views(vs0).skip(i as int))[j]
                    by {
                    assert(variant_views(vs@)[j] == vs@[j]@);
                    assert(vs@ == vs0.insert(i as int, x));
                    if j < i {
                        assert(vs@[j] == vs0[j]);
                        assert(variant_views(vs0)[j] == vs0[j]@);
                    } else if j == i {
                        assert(vs@[j] == x);
                    } else {
                        assert(vs@[j] == vs0[j - 1]);
                        assert(variant_views(vs0)[j - 1] == vs0[j - 1]@);
                    }
                }
            }
        }
    }
}

/// Splits a byte string into its subtag tokens at `-` or `_` separators.
fn tokenize(b: &[u8]) -> (r: Vec<Vec<u8>>)
    ensures
        token_views(r@) == split_bytes(b@),
{
    let n = b.len();
    let mut done: Vec<Vec<u8>> = Vec::new();
    let mut cur: Vec<u8> = Vec::new();
    let mut start: usize = 0;
    let mut pos: usize = 0;
    proof {
        assert(b@.skip(0) =~= b@);
        assert(token_views(done@) =~= Seq::<Seq<u8>>::empty());
        assert(Seq::<Seq<u8>>::empty() + split_bytes(b@) =~= split_bytes(b@));
        assert(cur@ =~= b@.subrange(0, 0));
    }
    while pos < n
        invariant
            n == b@.len(),
            start <= pos <= n,
            cur@ == b@.subrange(start as int, pos as int),
            forall|j: int| start <= j < pos ==> !is_sep(#[trigger] b@[j]),
            split_bytes(b@) == token_views(done@) + split_bytes(b@.skip(start as int)),
        decreases n - pos,
    {
        let ghost done0 = done@;
        let ghost old_start = start as int;
        let ghost old_cur = cur@;
        let x = b[pos];
        if x == 0x2d || x == 0x5f {
            proof {
                let suf = b@.skip(old_start);
                assert forall|j: int| 0 <= j < pos - old_start implies !is_sep(
                    #[trigger] suf[j],
                ) by {
                    assert(suf[j] == b@[old_start + j]);
                }
                assert(suf[pos - old_start] == b@[pos as int]);
                lemma_first_sep_is(suf, pos - old_start);
                assert(suf.take(pos - old_start) =~= cur@);
                assert(suf.skip(pos - old_start + 1) =~= b@.skip(pos + 1));
                assert(split_bytes(suf) == seq![cur@] + split_bytes(b@.skip(pos + 1)));
            }
            done.push(cur);
            cur = Vec::new();
            start = pos + 1;
            proof {
                assert(token_views(done@) =~= token_views(done0).push(old_cur)) by {
                    assert forall|j: int| 0 <= j < done@.len() implies token_views(done@)[j]
                        == token_views(done0).push(old_cur)[j] by {
                        assert(token_views(done@)[j] == done@[j]@);
                        if j < done0.len() {
                            assert(done@[j] == done0[j]);
                            assert(token_views(done0)[j] == done0[j]@);
                        }
                    }
                }
                assert(token_views(done0).push(old_cur) + split_bytes(b@.skip(pos + 1))
                    =~= token_views(done0) + (seq![old_cur] + split_bytes(b@.skip(pos + 1))));
                assert(cur@ =~= b@.subrange(pos + 1, pos + 1));
            }
        } else {
            cur.push(x);
            proof {
                assert(cur@ =~= b@.subrange(start as int, pos + 1));
            }
        }
        pos += 1;
    }
    proof {
        let suf = b@.skip(start as int);
        assert forall|j: int| 0 <= j < suf.len() implies !is_sep(#[trigger] suf[j]) by {
            assert(suf[j] == b@[start + j]);
        }
        lemma_first_sep_is(suf, suf.len() as int);
        assert(split_bytes(suf) == seq![suf]);
        assert(suf =~= cur@);
    }
    let ghost done1 = done@;
    done.push(cur);
    proof {
        assert(token_views(done@) =~= split_bytes(b@)) by {
            assert forall|j: int| 0 <= j < done@.len() implies token_views(done@)[j] == (
            token_views(done1) + split_bytes(b@.skip(start as int)))[j] by {
                assert(token_views(done@)[j] == done@[j]@);
                if j < done1.len() {
                    assert(done@[j] == done1[j]);
                    assert(token_views(done1)[j] == done1[j]@);
                } else {
                    assert(done@[j] == cur);
                }
            }
        }
    }
    done
}

/// Exact index form of `first_sep`: a separator at `i` behind a
/// separator-free prefix pins the value.
proof fn lemma_first_sep_is(s: Seq<u8>, i: int)
    requires
        0 <= i <= s.len(),
        forall|j: int| 0 <= j < i ==> !is_sep(#[trigger] s[j]),
        i < s.len() ==> is_sep(s[i]),
    ensures
        first_sep(s) == i,
    decreases i,
{
    if i == 0 {
    } else {
        assert(!is_sep(s[0]));
        let rest = s.drop_first();
        assert forall|j: int| 0 <= j < i - 1 implies !is_sep(#[trigger] rest[j]) by {
            assert(rest[j] == s[j + 1]);
        }
        assert(i - 1 < rest.len() ==> is_sep(rest[i - 1])) by {
            if i - 1 < rest.len() {
                assert(rest[i - 1] == s[i]);
            }
        }
        lemma_first_sep_is(rest, i - 1);
    }
}

} // verus!

verus! {

/// Parses an already-tokenized identifier: a mandatory language token,
/// then script, region and variant slots assigned by shape, left to right.
/// With `allow_extension` set, a one-byte token stops parsing and the
/// remaining tokens are left to the caller as an extension tail.
pub fn parse_token_slices(tokens: &Vec<Vec<u8>>, allow_extension: bool) -> (r: Result<
    LanguageIdentifier,
    ParserError,
>)
    ensures
        r is Ok <==> parse_tokens(token_views(tokens@), allow_extension) is Ok,
        r matches Ok(li) ==> parse_tokens(token_views(tokens@), allow_extension) matches Ok(v)
            && li@ == v && li.wf(),
        r matches Err(e) ==> parse_tokens(token_views(tokens@), allow_extension) matches Err(e2)
            && e == e2,
{
    let ghost t = token_views(tokens@);
    let n = tokens.len();
    if n == 0 {
        return Err(ParserError::InvalidLanguage);
    }
    proof {
        assert(t[0] == tokens@[0]@);
    }
    let language = match crate::subtags::parse_language_bytes(tokens[0].as_slice()) {
        Ok(l) => l,
        Err(e) => {
            return Err(e);
        },
    };
    proof {
        if language is Some {
            lemma_canon_language(tokens@[0]@);
        }
    }
    let mut script: Option<crate::tinystr::TinyStr4> = None;
    let mut region: Option<crate::tinystr::TinyStr4> = None;
    let mut variants: Vec<TinyStr8> = Vec::new();
    let mut p: u8 = 0;
    let mut k: usize = 1;
    proof {
        assert(variant_views(variants@) =~= Seq::<Seq<u8>>::empty());
        assert(Seq::<Seq<u8>>::empty() =~= seq![]);
    }
    while k < n
        invariant
            t == token_views(tokens@),
            n == tokens@.len(),
            1 <= k <= n,
            p <= 2,
            language matches Some(l) ==> l.wf(),
            script matches Some(s) ==> s.wf(),
            region matches Some(g) ==> g.wf(),
            forall|i: int| 0 <= i < variants@.len() ==> (#[trigger] variants@[i]).wf(),
            wf_view(acc_view(language, script, region, variants@)),
            parse_tokens(t, allow_extension) == parse_rest(
                t,
                k as int,
                p as int,
                acc_view(language, script, region, variants@),
                allow_extension,
            ),
        decreases n - k,
    {
        let tok: &Vec<u8> = &tokens[k];
        proof {
            assert(t[k as int] == tokens@[k as int]@);
        }
        if allow_extension && tok.len() == 1 {
            let li = LanguageIdentifier { language, script, region, variants };
            return Ok(li);
        }
        if p == 0 {
            match crate::subtags::parse_script_bytes(tok.as_slice()) {
                Ok(s) => {
                    proof {
                        lemma_canon_script(tokens@[k as int]@);
                    }
                    script = Some(s);
                    p = 1;
                },
                Err(_) => {
                    match crate::subtags::parse_region_bytes(tok.as_slice()) {
                        Ok(g) => {
                            proof {
                                lemma_canon_region(tokens@[k as int]@);
                            }
                            region = Some(g);
                            p = 2;
                        },
                        Err(_) => {
                            match crate::subtags::parse_variant_bytes(tok.as_slice()) {
                                Ok(v) => {
                                    proof {
                                        lemma_canon_variant(tokens@[k as int]@);
                                        lemma_insert_sorted(variant_views(variants@), v@);
                                    }
                                    let ghost vs0 = variants@;
                                    insert_variant_vec(&mut variants, v);
                                    proof {
                                        crate::langid::canon_after_insert(vs0, v@, variants@);
                                    }
                                    p = 2;
                                },
                                Err(_) => {
                                    return Err(ParserError::InvalidSubtag);
                                },
                            }
                        },
                    }
                },
            }
        } else if p == 1 {
            match crate::subtags::parse_region_bytes(tok.as_slice()) {
                Ok(g) => {
                    proof {
                        lemma_canon_region(tokens@[k as int]@);
                    }
                    region = Some(g);
                    p = 2;
                },
                Err(_) => {
                    match crate::subtags::parse_variant_bytes(tok.as_slice()) {
                        Ok(v) => {
                            proof {
                                lemma_canon_variant(tokens@[k as int]@);
                                lemma_insert_sorted(variant_views(variants@), v@);
                            }
                            let ghost vs0 = variants@;
                            insert_variant_vec(&mut variants, v);
                            proof {
                                crate::langid::canon_after_insert(vs0, v@, variants@);
                            }
                            p = 2;
                        },
                        Err(_) => {
                            return Err(ParserError::InvalidSubtag);
                        },
                    }
                },
            }
        } else {
            match crate::subtags::parse_variant_bytes(tok.as_slice()) {
                Ok(v) => {
                    proof {
                        lemma_canon_variant(tokens@[k as int]@);
                        lemma_insert_sorted(variant_views(variants@), v@);
                    }
                    let ghost vs0 = variants@;
                    insert_variant_vec(&mut variants, v);
                    proof {
                        crate::langid::canon_after_insert(vs0, v@, variants@);
                    }
                },
                Err(_) => {
                    return Err(ParserError::InvalidSubtag);
                },
            }
        }
        k += 1;
    }
    let li = LanguageIdentifier { language, script, region, variants };
    Ok(li)
}

/// Parses an identifier from text: tokenize on `-` or `_`, then match the
/// grammar; any trailing input that fits no slot is an error.
pub fn parse_language_identifier(source: &str) -> (r: Result<LanguageIdentifier, ParserError>)
    ensures
        r is Ok <==> parse_bytes(source.spec_bytes()) is Ok,
        r matches Ok(li) ==> parse_bytes(source.spec_bytes()) matches Ok(v) && li@ == v
            && li.wf(),
        r matches Err(e) ==> parse_bytes(source.spec_bytes()) matches Err(e2) && e == e2,
{
    let toks = tokenize(source.as_bytes());
    parse_token_slices(&toks, false)
}

} // verus!

verus! {

use crate::langid::{
    is_canon_region,
    is_canon_script,
    is_lower_alpha,
    is_upper_alpha,
    join_tokens,
    no_upper,
    serialize_view,
    view_tokens,
};
use crate::tinystr::{is_alpha_byte, is_digit_byte, upper_seq};

/// The byte sequence holds no subtag separator.
pub open spec fn sep_free(s: Seq<u8>) -> bool {
    forall|i: int| 0 <= i < s.len() ==> !is_sep(#[trigger] s[i])
}

/// Splitting undoes joining: tokenizing the canonical text of nonempty,
/// separator-free tokens returns exactly those tokens.
pub proof fn lemma_split_join(toks: Seq<Seq<u8>>)
    requires
        toks.len() >= 1,
        forall|i: int| 0 <= i < toks.len() ==> (#[trigger] toks[i]).len() >= 1,
        forall|i: int| 0 <= i < toks.len() ==> sep_free(#[trigger] toks[i]),
    ensures
        split_bytes(join_tokens(toks)) == toks,
    decreases toks.len(),
{
    let j = join_tokens(toks);
    if toks.len() == 1 {
        assert(j == toks[0]);
        assert forall|m: int| 0 <= m < j.len() implies !is_sep(#[trigger] j[m]) by {
            assert(!is_sep(toks[0][m]));
        }
        lemma_first_sep_is(j, j.len() as int);
        assert(split_bytes(j) == seq![j]);
        assert(seq![j] =~= toks);
    } else {
        let rest = toks.drop_first();
        let h = toks[0];
        let jr = join_tokens(rest);
        assert(j == h + seq![0x2du8] + jr);
        assert forall|m: int| 0 <= m < h.len() implies !is_sep(#[trigger] j[m]) by {
            assert(j[m] == h[m]);
            assert(!is_sep(toks[0][m]));
        }
        assert(j[h.len() as int] == 0x2du8);
        lemma_first_sep_is(j, h.len() as int);
        assert(j.take(h.len() as int) =~= h);
        assert(j.skip(h.len() as int + 1) =~= jr);
        assert forall|i: int| 0 <= i < rest.len() implies (#[trigger] rest[i]).len() >= 1
            && sep_free(rest[i]) by {
            assert(rest[i] == toks[i + 1]);
        }
        lemma_split_join(rest);
        assert(split_bytes(j) == seq![h] + split_bytes(jr));
        assert(seq![h] + rest =~= toks);
    }
}

/// Lowercasing text with no uppercase byte changes nothing.
pub proof fn lemma_lower_id(s: Seq<u8>)
    requires
        no_upper(s),
    ensures
        lower_seq(s) == s,
{
    assert(lower_seq(s) =~= s) by {
        assert forall|i: int| 0 <= i < s.len() implies lower_seq(s)[i] == s[i] by {
            assert(!is_upper_alpha(s[i]));
        }
    }
}

/// Title-casing an already title-cased script changes nothing.
pub proof fn lemma_title_id(s: Seq<u8>)
    requires
        is_canon_script(s),
    ensures
        title_bytes(s) == s,
{
    assert(title_bytes(s) =~= s) by {
        assert forall|i: int| 0 <= i < s.len() implies title_bytes(s)[i] == s[i] by {
            if i == 0 {
                assert(is_upper_alpha(s[0]));
            } else {
                assert(is_lower_alpha(s[i]));
            }
        }
    }
}

/// Normalizing an already canonical region changes nothing.
pub proof fn lemma_region_id(s: Seq<u8>)
    requires
        is_canon_region(s),
    ensures
        region_canon(s) == s,
{
    if s.len() == 2 {
        assert(upper_seq(s) =~= s) by {
            assert forall|i: int| 0 <= i < s.len() implies upper_seq(s)[i] == s[i] by {
                assert(is_upper_alpha(s[i]));
            }
        }
    }
}

/// Every token of the canonical serialization of a well-formed value is
/// nonempty and free of separators (given separator-free variants).
proof fn lemma_token_shape(v: LangIdView, i: int)
    requires
        crate::langid::wf_view(v),
        forall|j: int| 0 <= j < v.variants.len() ==> sep_free(#[trigger] v.variants[j]),
        0 <= i < view_tokens(v).len(),
    ensures
        view_tokens(v)[i].len() >= 1,
        sep_free(view_tokens(v)[i]),
{
    let s = view_tokens(v)[i];
    let lang_tok = match v.language {
        Some(t) => t,
        None => und_bytes(),
    };
    assert(lang_tok.len() >= 1 && sep_free(lang_tok)) by {
        match v.language {
            Some(t) => {
                assert forall|j: int| 0 <= j < t.len() implies !is_sep(#[trigger] t[j]) by {
                    assert(is_lower_alpha(t[j]));
                }
            },
            None => {
                assert forall|j: int| 0 <= j < und_bytes().len() implies !is_sep(
                    #[trigger] und_bytes()[j],
                ) by {
                    if j == 0 {
                        assert(und_bytes()[0] == 0x75u8);
                    } else if j == 1 {
                        assert(und_bytes()[1] == 0x6eu8);
                    } else {
                        assert(und_bytes()[2] == 0x64u8);
                    }
                }
            },
        }
    }
    match v.script {
        Some(t) => {
            assert(t.len() >= 1 && sep_free(t)) by {
                assert forall|j: int| 0 <= j < t.len() implies !is_sep(#[trigger] t[j]) by {
                    if j == 0 {
                        assert(is_upper_alpha(t[0]));
                    } else {
                        assert(is_lower_alpha(t[j]));
                    }
                }
            }
        },
        None => {},
    }
    match v.region {
        Some(t) => {
            assert(t.len() >= 1 && sep_free(t)) by {
                assert forall|j: int| 0 <= j < t.len() implies !is_sep(#[trigger] t[j]) by {
                    if t.len() == 2 {
                        assert(is_upper_alpha(t[j]));
                    } else {
                        assert(is_digit_byte(t[j]));
                    }
                }
            }
        },
        None => {},
    }
    let t0 = seq![lang_tok];
    let t1 = match v.script {
        Some(sc) => t0.push(sc),
        None => t0,
    };
    let t2 = match v.region {
        Some(rg) => t1.push(rg),
        None => t1,
    };
    assert(view_tokens(v) == t2 + v.variants);
    if i < t2.len() {
        assert(s == t2[i]);
    } else {
        assert(s == v.variants[i - t2.len()]);
        assert(is_canon_variant(s));
    }
}

/// The variant tail of the canonical token sequence parses back to the
/// stored variants: inserting them in their already-sorted order rebuilds
/// the same sequence.
proof fn lemma_parse_variants(v: LangIdView, k: int, p: int)
    requires
        crate::langid::wf_view(v),
        0 <= k <= v.variants.len(),
        0 <= p <= 2,
        k < v.variants.len() && p == 0 ==> !is_script_raw(v.variants[k]),
    ensures
        parse_rest(
            view_tokens(v),
            view_tokens(v).len() - v.variants.len() + k,
            p,
            LangIdView {
                language: v.language,
                script: v.script,
                region: v.region,
                variants: v.variants.take(k),
            },
            false,
        ) == Ok::<LangIdView, ParserError>(v),
    decreases v.variants.len() - k,
{
    let toks = view_tokens(v);
    let nh = toks.len() - v.variants.len();
    let acc = LangIdView {
        language: v.language,
        script: v.script,
        region: v.region,
        variants: v.variants.take(k),
    };
    if k == v.variants.len() {
        assert(v.variants.take(k) =~= v.variants);
        assert(acc == v);
    } else {
        let tok = toks[nh + k];
        assert(tok == v.variants[k]);
        assert(is_canon_variant(tok));
        assert(!is_region_raw(tok));
        assert(!(p <= 0 && is_script_raw(tok)));
        lemma_lower_id(tok);
        assert(v.variants.take(k).take(k) =~= v.variants.take(k));
        lemma_insert_at(v.variants.take(k), tok, k);
        assert(insert_variant(v.variants.take(k), tok) =~= v.variants.take(k + 1)) by {
            assert(v.variants.take(k).push(tok) + v.variants.take(k).skip(k) =~= v.variants.take(
                k + 1,
            ));
        }
        lemma_parse_variants(v, k + 1, 2);
    }
}

/// Round trip of the canonical form: parsing the canonical serialization
/// of a well-formed identifier value yields that value back, provided its
/// variants hold no separator byte, and provided the value is not one
/// whose first variant is script-shaped while both script and region are
/// absent (such a variant is re-read as a script, as the grammar assigns
/// slots by shape).
pub proof fn lemma_canonical_round_trip(v: LangIdView)
    requires
        crate::langid::wf_view(v),
        forall|j: int| 0 <= j < v.variants.len() ==> sep_free(#[trigger] v.variants[j]),
        !(v.script is None && v.region is None && v.variants.len() > 0 && is_script_raw(
            v.variants[0],
        )),
    ensures
        parse_bytes(serialize_view(v)) == Ok::<LangIdView, ParserError>(v),
{
    let toks = view_tokens(v);
    assert forall|i: int| 0 <= i < toks.len() implies (#[trigger] toks[i]).len() >= 1 && sep_free(
        toks[i],
    ) by {
        lemma_token_shape(v, i);
    }
    lemma_split_join(toks);
    let lang_tok = match v.language {
        Some(t) => t,
        None => und_bytes(),
    };
    let t0 = seq![lang_tok];
    let t1 = match v.script {
        Some(sc) => t0.push(sc),
        None => t0,
    };
    let t2 = match v.region {
        Some(rg) => t1.push(rg),
        None => t1,
    };
    assert(toks == t2 + v.variants);
    assert(toks[0] == lang_tok);
    // the language token is valid and already lowercase
    assert(is_language_raw(lang_tok) && no_upper(lang_tok)) by {
        match v.language {
            Some(t) => {
                assert forall|j: int| 0 <= j < t.len() implies is_alpha_byte(#[trigger] t[j])
                    && !is_upper_alpha(t[j]) by {
                    assert(is_lower_alpha(t[j]));
                }
            },
            None => {
                assert forall|j: int| 0 <= j < und_bytes().len() implies is_alpha_byte(
                    #[trigger] und_bytes()[j],
                ) && !is_upper_alpha(und_bytes()[j]) by {
                    if j == 0 {
                        assert(und_bytes()[0] == 0x75u8);
                    } else if j == 1 {
                        assert(und_bytes()[1] == 0x6eu8);
                    } else {
                        assert(und_bytes()[2] == 0x64u8);
                    }
                }
            },
        }
    }
    lemma_lower_id(lang_tok);
    // the language field comes back as stored
    assert((if lower_seq(toks[0]) == und_bytes() {
        Option::<Seq<u8>>::None
    } else {
        Some(lower_seq(toks[0]))
    }) == v.language) by {
        match v.language {
            Some(t) => {
                assert(t != und_bytes());
            },
            None => {},
        }
    }
    let acc0 = LangIdView { language: v.language, script: None, region: None, variants: seq![] };
    assert(parse_tokens(toks, false) == parse_rest(toks, 1, 0, acc0, false));
    let nh = t2.len() as int;
    assert(nh == toks.len() - v.variants.len());
    // walk the script and region tokens, if present
    let acc_h = LangIdView {
        language: v.language,
        script: v.script,
        region: v.region,
        variants: seq![],
    };
    match v.script {
        Some(sc) => {
            assert(toks[1] == sc);
            assert(is_script_raw(sc)) by {
                assert forall|j: int| 0 <= j < sc.len() implies is_alpha_byte(
                    #[trigger] sc[j],
                ) by {
                    if j == 0 {
                        assert(is_upper_alpha(sc[0]));
                    } else {
                        assert(is_lower_alpha(sc[j]));
                    }
                }
            }
            lemma_title_id(sc);
            let acc1 = LangIdView { script: Some(sc), ..acc0 };
            assert(parse_rest(toks, 1, 0, acc0, false) == parse_rest(toks, 2, 1, acc1, false));
            match v.region {
                Some(rg) => {
                    assert(toks[2] == rg);
                    assert(is_region_raw(rg)) by {
                        if rg.len() == 2 {
                            assert forall|j: int| 0 <= j < rg.len() implies is_alpha_byte(
                                #[trigger] rg[j],
                            ) by {
                                assert(is_upper_alpha(rg[j]));
                            }
                        }
                    }
                    assert(!is_script_raw(rg));
                    lemma_region_id(rg);
                    let acc2 = LangIdView { region: Some(rg), ..acc1 };
                    assert(parse_rest(toks, 2, 1, acc1, false) == parse_rest(
                        toks,
                        3,
                        2,
                        acc2,
                        false,
                    ));
                    assert(acc2 == acc_h);
                    assert(nh == 3);
                    lemma_parse_variants(v, 0, 2);
                    assert(v.variants.take(0) =~= Seq::<Seq<u8>>::empty());
                    assert(Seq::<Seq<u8>>::empty() =~= seq![]);
                },
                None => {
                    assert(acc1 == acc_h);
                    assert(nh == 2);
                    lemma_parse_variants(v, 0, 1);
                    assert(v.variants.take(0) =~= Seq::<Seq<u8>>::empty());
                    assert(Seq::<Seq<u8>>::empty() =~= seq![]);
                },
            }
        },
        None => {
            match v.region {
                Some(rg) => {
                    assert(toks[1] == rg);
                    assert(is_region_raw(rg)) by {
                        if rg.len() == 2 {
                            assert forall|j: int| 0 <= j < rg.len() implies is_alpha_byte(
                                #[trigger] rg[j],
                            ) by {
                                assert(is_upper_alpha(rg[j]));
                            }
                        }
                    }
                    assert(!is_script_raw(rg));
                    lemma_region_id(rg);
                    let acc2 = LangIdView { region: Some(rg), ..acc0 };
                    assert(parse_rest(toks, 1, 0, acc0, false) == parse_rest(
                        toks,
                        2,
                        2,
                        acc2,
                        false,
                    ));
                    assert(acc2 == acc_h);
                    assert(nh == 2);
                    lemma_parse_variants(v, 0, 2);
                    assert(v.variants.take(0) =~= Seq::<Seq<u8>>::empty());
                    assert(Seq::<Seq<u8>>::empty() =~= seq![]);
                },
                None => {
                    assert(acc0 == acc_h);
                    assert(nh == 1);
                    lemma_parse_variants(v, 0, 0);
                    assert(v.variants.take(0) =~= Seq::<Seq<u8>>::empty());
                    assert(Seq::<Seq<u8>>::empty() =~= seq![]);
                },
            }
        },
    }
}

} // verus!

verus! {

/// Every token produced by splitting is free of separators.
proof fn lemma_split_sep_free(s: Seq<u8>)
    ensures
        forall|i: int| 0 <= i < split_bytes(s).len() ==> sep_free(#[trigger] split_bytes(s)[i]),
    decreases s.len(),
{
    lemma_first_sep(s);
    let fs = first_sep(s);
    if fs >= s.len() {
        assert forall|j: int| 0 <= j < s.len() implies !is_sep(#[trigger] s[j]) by {}
        assert(split_bytes(s) == seq![s]);
    } else {
        let head = s.take(fs);
        assert(sep_free(head)) by {
            assert forall|j: int| 0 <= j < head.len() implies !is_sep(#[trigger] head[j]) by {
                assert(head[j] == s[j]);
            }
        }
        lemma_split_sep_free(s.skip(fs + 1));
        assert forall|i: int| 0 <= i < split_bytes(s).len() implies sep_free(
            #[trigger] split_bytes(s)[i],
        ) by {
            if i == 0 {
                assert(split_bytes(s)[0] == head);
            } else {
                assert(split_bytes(s)[i] == split_bytes(s.skip(fs + 1))[i - 1]);
            }
        }
    }
}

/// Lowercasing keeps a byte sequence free of separators.
proof fn lemma_lower_sep_free(s: Seq<u8>)
    requires
        sep_free(s),
    ensures
        sep_free(lower_seq(s)),
{
    assert forall|j: int| 0 <= j < lower_seq(s).len() implies !is_sep(
        #[trigger] lower_seq(s)[j],
    ) by {
        assert(!is_sep(s[j]));
    }
}

/// Consuming tokens preserves well-formedness of the accumulated value and
/// separator-freedom of its variants, whenever the tokens themselves are
/// separator-free.
proof fn lemma_parse_rest_wf(tokens: Seq<Seq<u8>>, k: int, p: int, acc: LangIdView, ext: bool)
    requires
        parse_rest(tokens, k, p, acc, ext) is Ok,
        wf_view(acc),
        forall|i: int| 0 <= i < tokens.len() ==> sep_free(#[trigger] tokens[i]),
        forall|i: int| 0 <= i < acc.variants.len() ==> sep_free(#[trigger] acc.variants[i]),
    ensures
        ({
            let v = parse_rest(tokens, k, p, acc, ext)->Ok_0;
            wf_view(v) && (forall|i: int| 0 <= i < v.variants.len() ==> sep_free(
                #[trigger] v.variants[i],
            ))
        }),
    decreases tokens.len() - k,
{
    if k < 0 || k >= tokens.len() {
    } else {
        let tok = tokens[k];
        if ext && tok.len() == 1 {
        } else if p <= 0 && is_script_raw(tok) {
            lemma_canon_script(tok);
            lemma_parse_rest_wf(
                tokens,
                k + 1,
                1,
                LangIdView { script: Some(title_bytes(tok)), ..acc },
                ext,
            );
        } else if p <= 1 && is_region_raw(tok) {
            lemma_canon_region(tok);
            lemma_parse_rest_wf(
                tokens,
                k + 1,
                2,
                LangIdView { region: Some(region_canon(tok)), ..acc },
                ext,
            );
        } else if is_variant_raw(tok) {
            lemma_canon_variant(tok);
            lemma_insert_sorted(acc.variants, lower_seq(tok));
            lemma_lower_sep_free(tok);
            let vs = insert_variant(acc.variants, lower_seq(tok));
            assert forall|i: int| 0 <= i < vs.len() implies crate::langid::is_canon_variant(
                #[trigger] vs[i],
            ) && sep_free(vs[i]) by {
                if vs[i] != lower_seq(tok) {
                    assert(acc.variants.contains(vs[i]));
                    let m = choose|m: int|
                        0 <= m < acc.variants.len() && acc.variants[m] == vs[i];
                    assert(crate::langid::is_canon_variant(acc.variants[m]));
                    assert(sep_free(acc.variants[m]));
                }
            }
            lemma_parse_rest_wf(tokens, k + 1, 2, LangIdView { variants: vs, ..acc }, ext);
        } else {
        }
    }
}

/// A successful parse yields a well-formed value whose variants are free
/// of separator bytes.
pub proof fn lemma_parse_wf(s: Seq<u8>)
    requires
        parse_bytes(s) is Ok,
    ensures
        ({
            let v = parse_bytes(s)->Ok_0;
            wf_view(v) && (forall|i: int| 0 <= i < v.variants.len() ==> sep_free(
                #[trigger] v.variants[i],
            ))
        }),
{
    let tokens = split_bytes(s);
    lemma_split_sep_free(s);
    let lang = if lower_seq(tokens[0]) == und_bytes() {
        Option::<Seq<u8>>::None
    } else {
        Some(lower_seq(tokens[0]))
    };
    let acc0 = LangIdView { language: lang, script: None, region: None, variants: seq![] };
    assert(wf_view(acc0)) by {
        if lang is Some {
            lemma_canon_language(tokens[0]);
        }
    }
    lemma_parse_rest_wf(tokens, 1, 0, acc0, false);
}

/// Parsing is stable under canonical serialization: re-parsing the
/// canonical text of a parsed identifier yields the same identifier,
/// provided the parsed value is not one whose first variant is
/// script-shaped while script and region are both absent.
pub proof fn lemma_round_trip_stable(s: Seq<u8>)
    requires
        parse_bytes(s) is Ok,
        !({
            let v = parse_bytes(s)->Ok_0;
            v.script is None && v.region is None && v.variants.len() > 0 && is_script_raw(
                v.variants[0],
            )
        }),
    ensures
        parse_bytes(serialize_view(parse_bytes(s)->Ok_0)) == parse_bytes(s),
{
    lemma_parse_wf(s);
    lemma_canonical_round_trip(parse_bytes(s)->Ok_0);
}

} // verus!

verus! {

/// Canonicalization is idempotent: the canonical text of a parsed
/// identifier parses again, and canonicalizing it reproduces it exactly
/// (under the same variant-shape proviso as the round trip).
pub proof fn lemma_canonicalize_idempotent(s: Seq<u8>)
    requires
        parse_bytes(s) is Ok,
        !({
            let v = parse_bytes(s)->Ok_0;
            v.script is None && v.region is None && v.variants.len() > 0 && is_script_raw(
                v.variants[0],
            )
        }),
    ensures
        ({
            let c = serialize_view(parse_bytes(s)->Ok_0);
            parse_bytes(c) is Ok && serialize_view(parse_bytes(c)->Ok_0) == c
        }),
{
    lemma_round_trip_stable(s);
}

} // verus!
