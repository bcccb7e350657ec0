//! Subtag validators: pure functions from raw text to a validated,
//! case-normalized compact string for each grammar position.

use vstd::prelude::*;

use crate::errors::ParserError;
use crate::tinystr::{TinyStr4, TinyStr8};

verus! {

use vstd::string::StringSliceAdditionalSpecFns;
use crate::tinystr::{
    all_alnum,
    all_alpha,
    all_digits,
    byte_at,
    fits,
    is_alnum_byte,
    is_digit_byte,
    lower_seq,
    mk8,
    lemma_view_injective,
    title_bytes,
    upper_seq,
    word_bytes,
};

/// The bytes of the reserved "unspecified language" code.
pub open spec fn und_bytes() -> Seq<u8> {
    seq![0x75u8, 0x6eu8, 0x64u8]
}

/// Raw text is acceptable in the language position: 2 to 8 ASCII letters,
/// never exactly 4 (that length is reserved for scripts).
pub open spec fn is_language_raw(s: Seq<u8>) -> bool {
    2 <= s.len() <= 8 && s.len() != 4 && all_alpha(s)
}

/// Raw text is acceptable in the script position: exactly 4 ASCII letters.
pub open spec fn is_script_raw(s: Seq<u8>) -> bool {
    s.len() == 4 && all_alpha(s)
}

/// Raw text is acceptable in the region position: exactly 2 ASCII letters
/// or exactly 3 ASCII digits.
pub open spec fn is_region_raw(s: Seq<u8>) -> bool {
    (s.len() == 2 && all_alpha(s)) || (s.len() == 3 && all_digits(s))
}

/// Raw text is acceptable in a variant position: 4 to 8 packable bytes;
/// with 5 or more, all must be alphanumeric; with exactly 4, the text is
/// rejected only when its first byte is not a digit and its tail holds a
/// non-alphanumeric byte.
pub open spec fn is_variant_raw(s: Seq<u8>) -> bool {
    fits(s, 8) && 4 <= s.len() && (s.len() >= 5 ==> all_alnum(s)) && (s.len() == 4 ==> (
    is_digit_byte(s[0]) || all_alnum(s.skip(1))))
}

/// The normalized region value: letters uppercased, digits kept as given.
pub open spec fn region_canon(s: Seq<u8>) -> Seq<u8> {
    if s.len() == 2 {
        upper_seq(s)
    } else {
        s
    }
}

/// Validates the language position. The reserved value `und` (in any case)
/// normalizes to `None`: "und" and "no language given" are one state.
pub fn parse_language_bytes(subtag: &[u8]) -> (r: Result<Option<TinyStr8>, ParserError>)
    ensures
        r is Ok <==> is_language_raw(subtag@),
        r matches Ok(l) ==> (l is None <==> lower_seq(subtag@) == und_bytes()),
        r matches Ok(l) ==> (l matches Some(t) ==> t.wf() && t@ == lower_seq(subtag@)),
        r matches Err(e) ==> e == ParserError::InvalidLanguage,
{
    let t = match TinyStr8::from_bytes(subtag) {
        Ok(t) => t,
        Err(_) => {
            return Err(ParserError::InvalidLanguage);
        },
    };
    let n = t.len();
    if n < 2 || n == 4 || !t.is_all_ascii_alphabetic() {
        return Err(ParserError::InvalidLanguage);
    }
    let low = t.to_ascii_lowercase();
    proof {
        assert(low@ =~= lower_seq(subtag@));
    }
    let und = mk8(0x75, 0x6e, 0x64, 0, 0, 0, 0, 0);
    proof {
        assert(und@ =~= und_bytes());
    }
    if low.raw_word() == und.raw_word() {
        Ok(None)
    } else {
        proof {
            if low@ == und_bytes() {
                lemma_view_injective(low.word, und.word);
            }
        }
        Ok(Some(low))
    }
}

/// Validates the script position and normalizes it to title case.
pub fn parse_script_bytes(subtag: &[u8]) -> (r: Result<TinyStr4, ParserError>)
    ensures
        r is Ok <==> is_script_raw(subtag@),
        r matches Ok(t) ==> t.wf() && t@ == title_bytes(subtag@),
        r matches Err(e) ==> e == ParserError::InvalidSubtag,
{
    let t = match TinyStr4::from_bytes(subtag) {
        Ok(t) => t,
        Err(_) => {
            return Err(ParserError::InvalidSubtag);
        },
    };
    if t.len() != 4 || !t.is_all_ascii_alphabetic() {
        return Err(ParserError::InvalidSubtag);
    }
    Ok(t.to_ascii_titlecase())
}

/// Validates the region position: 2 letters are normalized to uppercase,
/// 3 digits are kept as given.
pub fn parse_region_bytes(subtag: &[u8]) -> (r: Result<TinyStr4, ParserError>)
    ensures
        r is Ok <==> is_region_raw(subtag@),
        r matches Ok(t) ==> t.wf() && t@ == region_canon(subtag@),
        r matches Err(e) ==> e == ParserError::InvalidSubtag,
{
    let t = match TinyStr4::from_bytes(subtag) {
        Ok(t) => t,
        Err(_) => {
            return Err(ParserError::InvalidSubtag);
        },
    };
    let n = t.len();
    if n == 2 {
        if t.is_all_ascii_alphabetic() {
            let up = t.to_ascii_uppercase();
            proof {
                assert(up@ =~= upper_seq(subtag@));
            }
            Ok(up)
        } else {
            Err(ParserError::InvalidSubtag)
        }
    } else if n == 3 {
        let mut i: usize = 0;
        while i < 3
            invariant
                t.wf(),
                t@ == subtag@,
                t@.len() == 3,
                i <= 3,
                forall|j: int| 0 <= j < i ==> is_digit_byte(t@[j]),
            decreases 3 - i,
        {
            let b = t.byte(i);
            proof {
                assert(t@[i as int] == byte_at(t.word as u64, i as int));
            }
            if b < 0x30 || b > 0x39 {
                return Err(ParserError::InvalidSubtag);
            }
            i += 1;
        }
        Ok(t)
    } else {
        Err(ParserError::InvalidSubtag)
    }
}

/// Validates a variant position and normalizes it to lowercase.
pub fn parse_variant_bytes(subtag: &[u8]) -> (r: Result<TinyStr8, ParserError>)
    ensures
        r is Ok <==> is_variant_raw(subtag@),
        r matches Ok(t) ==> t.wf() && t@ == lower_seq(subtag@),
        r matches Err(e) ==> e == ParserError::InvalidSubtag,
{
    let t = match TinyStr8::from_bytes(subtag) {
        Ok(t) => t,
        Err(_) => {
            return Err(ParserError::InvalidSubtag);
        },
    };
    let n = t.len();
    if n < 4 {
        return Err(ParserError::InvalidSubtag);
    }
    if n >= 5 && !t.is_all_ascii_alphanumeric() {
        return Err(ParserError::InvalidSubtag);
    }
    if n == 4 {
        let b0 = t.byte(0);
        proof {
            assert(t@[0] == byte_at(t.word, 0));
        }
        if b0 < 0x30 || b0 > 0x39 {
            let mut i: usize = 1;
            while i < 4
                invariant
                    t.wf(),
                    t@ == subtag@,
                    t@.len() == 4,
                    1 <= i <= 4,
                    !is_digit_byte(t@[0]),
                    forall|j: int| 1 <= j < i ==> is_alnum_byte(t@[j]),
                decreases 4 - i,
            {
                let b = t.byte(i);
                proof {
                    assert(t@[i as int] == byte_at(t.word, i as int));
                }
                if !((b >= 0x30 && b <= 0x39) || (b >= 0x41 && b <= 0x5a) || (b >= 0x61 && b
                    <= 0x7a)) {
                    proof {
                        assert(t@.skip(1)[i as int - 1] == t@[i as int]);
                    }
                    return Err(ParserError::InvalidSubtag);
                }
                i += 1;
            }
            proof {
                assert forall|j: int| 0 <= j < t@.skip(1).len() implies is_alnum_byte(
                    #[trigger] t@.skip(1)[j],
                ) by {
                    assert(t@.skip(1)[j] == t@[j + 1]);
                }
            }
        }
    }
    let low = t.to_ascii_lowercase();
    proof {
        assert(low@ =~= lower_seq(subtag@));
    }
    Ok(low)
}

} // verus!

verus! {

/// Validates the language position of a text subtag; see
/// `parse_language_bytes`.
pub fn parse_language_subtag(subtag: &str) -> (r: Result<Option<TinyStr8>, ParserError>)
    ensures
        r is Ok <==> is_language_raw(subtag.spec_bytes()),
        r matches Ok(l) ==> (l is None <==> lower_seq(subtag.spec_bytes()) == und_bytes()),
        r matches Ok(l) ==> (l matches Some(t) ==> t.wf() && t@ == lower_seq(subtag.spec_bytes())),
        r matches Err(e) ==> e == ParserError::InvalidLanguage,
{
    parse_language_bytes(subtag.as_bytes())
}

/// Validates the script position of a text subtag; see `parse_script_bytes`.
pub fn parse_script_subtag(subtag: &str) -> (r: Result<TinyStr4, ParserError>)
    ensures
        r is Ok <==> is_script_raw(subtag.spec_bytes()),
        r matches Ok(t) ==> t.wf() && t@ == title_bytes(subtag.spec_bytes()),
        r matches Err(e) ==> e == ParserError::InvalidSubtag,
{
    parse_script_bytes(subtag.as_bytes())
}

/// Validates the region position of a text subtag; see `parse_region_bytes`.
pub fn parse_region_subtag(subtag: &str) -> (r: Result<TinyStr4, ParserError>)
    ensures
        r is Ok <==> is_region_raw(subtag.spec_bytes()),
        r matches Ok(t) ==> t.wf() && t@ == region_canon(subtag.spec_bytes()),
        r matches Err(e) ==> e == ParserError::InvalidSubtag,
{
    parse_region_bytes(subtag.as_bytes())
}

/// Validates a variant position of a text subtag; see `parse_variant_bytes`.
pub fn parse_variant_subtag(subtag: &str) -> (r: Result<TinyStr8, ParserError>)
    ensures
        r is Ok <==> is_variant_raw(subtag.spec_bytes()),
        r matches Ok(t) ==> t.wf() && t@ == lower_seq(subtag.spec_bytes()),
        r matches Err(e) ==> e == ParserError::InvalidSubtag,
{
    parse_variant_bytes(subtag.as_bytes())
}

} // verus!
