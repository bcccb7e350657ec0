//! Fixed-capacity compact ASCII strings.
//!
//! A `TinyStr8` stores 1..=8 non-NUL 7-bit ASCII bytes packed into a `u64`
//! (byte 0 of the text in the low-order byte); a `TinyStr4` stores 1..=4 such
//! bytes in a `u32`. Trailing unused bytes are zero, so the length is
//! recovered from the position of the first zero byte. Case conversion and
//! character classification operate on the whole packed word at once with
//! branchless bitwise operations.

use vstd::prelude::*;

verus! {

use vstd::string::StringSliceAdditionalSpecFns;

/// Error produced when raw text cannot be packed into a compact string.
#[derive(Debug, Clone, Copy, PartialEq, Eq, Structural)]
pub enum TinyStrError {
    /// The text length is outside the capacity range `1..=N`.
    InvalidSize,
    /// A byte with its high bit set was encountered.
    NonAscii,
    /// A NUL byte was encountered inside the used length.
    InvalidNull,
}

/// The byte stored at position `i` of a packed word (position 0 is the first
/// character of the text).
pub open spec fn byte_at(w: u64, i: int) -> u8 {
    ((w >> ((8 * i) as u64)) & 0xff) as u8
}

/// The number of used bytes of a packed word: the position of the first zero
/// byte, or 8 when no byte is zero.
pub open spec fn tiny_len(w: u64) -> int {
    if byte_at(w, 0) == 0 {
        0
    } else if byte_at(w, 1) == 0 {
        1
    } else if byte_at(w, 2) == 0 {
        2
    } else if byte_at(w, 3) == 0 {
        3
    } else if byte_at(w, 4) == 0 {
        4
    } else if byte_at(w, 5) == 0 {
        5
    } else if byte_at(w, 6) == 0 {
        6
    } else if byte_at(w, 7) == 0 {
        7
    } else {
        8
    }
}

/// Position `i` of word `w` satisfies the packing invariant: used bytes are
/// non-NUL 7-bit ASCII, trailing bytes are zero.
pub open spec fn wf_byte(w: u64, i: int) -> bool {
    if i < tiny_len(w) {
        0 < byte_at(w, i) && byte_at(w, i) < 0x80
    } else {
        byte_at(w, i) == 0
    }
}

/// The packing invariant of a whole word: at least one used byte, every used
/// byte a non-NUL 7-bit ASCII byte, every trailing byte zero.
pub open spec fn wf_word(w: u64) -> bool {
    1 <= tiny_len(w) && wf_byte(w, 0) && wf_byte(w, 1) && wf_byte(w, 2) && wf_byte(w, 3)
        && wf_byte(w, 4) && wf_byte(w, 5) && wf_byte(w, 6) && wf_byte(w, 7)
}

/// The byte sequence stored in a packed word.
pub open spec fn word_bytes(w: u64) -> Seq<u8> {
    Seq::new(tiny_len(w) as nat, |i: int| byte_at(w, i))
}

/// All bytes of the sequence are 7-bit ASCII.
pub open spec fn all_ascii(s: Seq<u8>) -> bool {
    forall|i: int| 0 <= i < s.len() ==> s[i] < 0x80
}

/// No byte of the sequence is NUL.
pub open spec fn no_nul(s: Seq<u8>) -> bool {
    forall|i: int| 0 <= i < s.len() ==> s[i] != 0
}

/// The sequence can be packed into a word of capacity `cap` bytes.
pub open spec fn fits(s: Seq<u8>, cap: int) -> bool {
    1 <= s.len() <= cap && all_ascii(s) && no_nul(s)
}

/// The error reported for a byte sequence that cannot be packed with
/// capacity `cap`: oversize first, then non-ASCII, then NUL.
pub open spec fn pack_error(s: Seq<u8>, cap: int) -> TinyStrError {
    if !(1 <= s.len() <= cap) {
        TinyStrError::InvalidSize
    } else if !all_ascii(s) {
        TinyStrError::NonAscii
    } else {
        TinyStrError::InvalidNull
    }
}

/// The uppercase form of an ASCII byte: `a-z` mapped to `A-Z`, all other
/// bytes unchanged.
pub open spec fn to_upper_byte(b: u8) -> u8 {
    if 0x61 <= b && b <= 0x7a {
        (b - 0x20) as u8
    } else {
        b
    }
}

/// The lowercase form of an ASCII byte: `A-Z` mapped to `a-z`, all other
/// bytes unchanged.
pub open spec fn to_lower_byte(b: u8) -> u8 {
    if 0x41 <= b && b <= 0x5a {
        (b + 0x20) as u8
    } else {
        b
    }
}

/// The byte is an ASCII letter.
pub open spec fn is_alpha_byte(b: u8) -> bool {
    (0x41 <= b && b <= 0x5a) || (0x61 <= b && b <= 0x7a)
}

/// The byte is an ASCII digit.
pub open spec fn is_digit_byte(b: u8) -> bool {
    0x30 <= b && b <= 0x39
}

/// The byte is an ASCII letter or digit.
pub open spec fn is_alnum_byte(b: u8) -> bool {
    is_alpha_byte(b) || is_digit_byte(b)
}

/// Packing a word from eight explicit bytes sets exactly those bytes.
proof fn lemma_pack_bytes(x0: u8, x1: u8, x2: u8, x3: u8, x4: u8, x5: u8, x6: u8, x7: u8, w: u64)
    by (bit_vector)
    requires
        w == (x0 as u64) | ((x1 as u64) << 8u64) | ((x2 as u64) << 16u64) | ((x3 as u64)
            << 24u64) | ((x4 as u64) << 32u64) | ((x5 as u64) << 40u64) | ((x6 as u64) << 48u64)
            | ((x7 as u64) << 56u64),
    ensures
        byte_at(w, 0) == x0,
        byte_at(w, 1) == x1,
        byte_at(w, 2) == x2,
        byte_at(w, 3) == x3,
        byte_at(w, 4) == x4,
        byte_at(w, 5) == x5,
        byte_at(w, 6) == x6,
        byte_at(w, 7) == x7,
{
}

/// Two words with the same byte at every position are equal.
proof fn lemma_bytes_inj(a: u64, b: u64)
    by (bit_vector)
    requires
        byte_at(a, 0) == byte_at(b, 0),
        byte_at(a, 1) == byte_at(b, 1),
        byte_at(a, 2) == byte_at(b, 2),
        byte_at(a, 3) == byte_at(b, 3),
        byte_at(a, 4) == byte_at(b, 4),
        byte_at(a, 5) == byte_at(b, 5),
        byte_at(a, 6) == byte_at(b, 6),
        byte_at(a, 7) == byte_at(b, 7),
    ensures
        a == b,
{
}

/// Equal views of well-formed words force equal words: the packed
/// representation of a byte sequence is unique.
pub proof fn lemma_view_injective(a: u64, b: u64)
    requires
        wf_word(a),
        wf_word(b),
        word_bytes(a) == word_bytes(b),
    ensures
        a == b,
{
    assert(0 <= tiny_len(a) <= 8);
    assert(0 <= tiny_len(b) <= 8);
    assert(word_bytes(a).len() == tiny_len(a) as nat);
    assert(word_bytes(b).len() == tiny_len(b) as nat);
    assert(tiny_len(a) == tiny_len(b));
    assert forall|j: int| 0 <= j < 8 implies byte_at(a, j) == byte_at(b, j) by {
        if j < tiny_len(a) {
            assert(word_bytes(a)[j] == word_bytes(b)[j]);
            assert(word_bytes(a)[j] == byte_at(a, j));
            assert(word_bytes(b)[j] == byte_at(b, j));
        } else {
            assert(wf_byte(a, j) && wf_byte(b, j)) by {
                if j == 0 {
                } else if j == 1 {
                } else if j == 2 {
                } else if j == 3 {
                } else if j == 4 {
                } else if j == 5 {
                } else if j == 6 {
                } else {
                }
            }
        }
    }
    lemma_bytes_inj(a, b);
}

/// Well-formedness holds position by position.
pub proof fn lemma_wf_byte_at(w: u64, j: int)
    requires
        wf_word(w),
        0 <= j < 8,
    ensures
        wf_byte(w, j),
{
    if j == 0 {
    } else if j == 1 {
    } else if j == 2 {
    } else if j == 3 {
    } else if j == 4 {
    } else if j == 5 {
    } else if j == 6 {
    } else {
    }
}

/// A byte at a symbolic position equals the matching concrete-position byte.
pub proof fn lemma_byte_cases(w: u64, j: int)
    requires
        0 <= j < 8,
    ensures
        byte_at(w, j) == (if j == 0 {
            byte_at(w, 0)
        } else if j == 1 {
            byte_at(w, 1)
        } else if j == 2 {
            byte_at(w, 2)
        } else if j == 3 {
            byte_at(w, 3)
        } else if j == 4 {
            byte_at(w, 4)
        } else if j == 5 {
            byte_at(w, 5)
        } else if j == 6 {
            byte_at(w, 6)
        } else {
            byte_at(w, 7)
        }),
{
}

/// Every byte of the word is 7-bit ASCII.
proof fn lemma_wf_ascii(w: u64)
    requires
        wf_word(w),
    ensures
        byte_at(w, 0) < 0x80,
        byte_at(w, 1) < 0x80,
        byte_at(w, 2) < 0x80,
        byte_at(w, 3) < 0x80,
        byte_at(w, 4) < 0x80,
        byte_at(w, 5) < 0x80,
        byte_at(w, 6) < 0x80,
        byte_at(w, 7) < 0x80,
{
}

/// A word whose bytes all lack the high bit is bounded, so the biased
/// whole-word additions of the case and classification tricks cannot
/// overflow.
proof fn lemma_ascii_bound(w: u64)
    by (bit_vector)
    requires
        byte_at(w, 0) < 0x80,
        byte_at(w, 1) < 0x80,
        byte_at(w, 2) < 0x80,
        byte_at(w, 3) < 0x80,
        byte_at(w, 4) < 0x80,
        byte_at(w, 5) < 0x80,
        byte_at(w, 6) < 0x80,
        byte_at(w, 7) < 0x80,
    ensures
        w <= 0x7f7f7f7f7f7f7f7f,
        (w | 0x2020202020202020) <= 0x7f7f7f7f7f7f7f7f,
{
}

/// The whole-word uppercase trick: adding a per-byte bias exposes, in each
/// byte's high bit, whether the byte lies in `a..=z`; that bit is shifted
/// onto the ASCII case bit and cleared from the word.
proof fn lemma_upper_swar(w: u64, r: u64)
    by (bit_vector)
    requires
        byte_at(w, 0) < 0x80,
        byte_at(w, 1) < 0x80,
        byte_at(w, 2) < 0x80,
        byte_at(w, 3) < 0x80,
        byte_at(w, 4) < 0x80,
        byte_at(w, 5) < 0x80,
        byte_at(w, 6) < 0x80,
        byte_at(w, 7) < 0x80,
        r == w & !(((((w + 0x1f1f1f1f1f1f1f1f) as u64) & !((w + 0x0505050505050505) as u64))
            & 0x8080808080808080) >> 2u64),
    ensures
        byte_at(r, 0) == to_upper_byte(byte_at(w, 0)),
        byte_at(r, 1) == to_upper_byte(byte_at(w, 1)),
        byte_at(r, 2) == to_upper_byte(byte_at(w, 2)),
        byte_at(r, 3) == to_upper_byte(byte_at(w, 3)),
        byte_at(r, 4) == to_upper_byte(byte_at(w, 4)),
        byte_at(r, 5) == to_upper_byte(byte_at(w, 5)),
        byte_at(r, 6) == to_upper_byte(byte_at(w, 6)),
        byte_at(r, 7) == to_upper_byte(byte_at(w, 7)),
{
}

/// The whole-word lowercase trick: the selected case bit is set instead of
/// cleared, for bytes in `A..=Z`.
proof fn lemma_lower_swar(w: u64, r: u64)
    by (bit_vector)
    requires
        byte_at(w, 0) < 0x80,
        byte_at(w, 1) < 0x80,
        byte_at(w, 2) < 0x80,
        byte_at(w, 3) < 0x80,
        byte_at(w, 4) < 0x80,
        byte_at(w, 5) < 0x80,
        byte_at(w, 6) < 0x80,
        byte_at(w, 7) < 0x80,
        r == w | (((((w + 0x3f3f3f3f3f3f3f3f) as u64) & !((w + 0x2525252525252525) as u64))
            & 0x8080808080808080) >> 2u64),
    ensures
        byte_at(r, 0) == to_lower_byte(byte_at(w, 0)),
        byte_at(r, 1) == to_lower_byte(byte_at(w, 1)),
        byte_at(r, 2) == to_lower_byte(byte_at(w, 2)),
        byte_at(r, 3) == to_lower_byte(byte_at(w, 3)),
        byte_at(r, 4) == to_lower_byte(byte_at(w, 4)),
        byte_at(r, 5) == to_lower_byte(byte_at(w, 5)),
        byte_at(r, 6) == to_lower_byte(byte_at(w, 6)),
        byte_at(r, 7) == to_lower_byte(byte_at(w, 7)),
{
}

/// The whole-word letter test: the mask selects the high bit of every
/// non-zero byte; after folding the case bit in, a byte fails exactly when
/// it lies outside `a..=z`.
proof fn lemma_alpha_swar(w: u64, z: u64)
    by (bit_vector)
    requires
        byte_at(w, 0) < 0x80,
        byte_at(w, 1) < 0x80,
        byte_at(w, 2) < 0x80,
        byte_at(w, 3) < 0x80,
        byte_at(w, 4) < 0x80,
        byte_at(w, 5) < 0x80,
        byte_at(w, 6) < 0x80,
        byte_at(w, 7) < 0x80,
        z == (!(((w | 0x2020202020202020) + 0x1f1f1f1f1f1f1f1f) as u64) | (((w | 0x2020202020202020) + 0x0505050505050505) as u64)) & (((w + 0x7f7f7f7f7f7f7f7f) as u64) & 0x8080808080808080),
    ensures
        z == 0 <==> ((byte_at(w, 0) == 0 || is_alpha_byte(byte_at(w, 0))) && (byte_at(w, 1) == 0
            || is_alpha_byte(byte_at(w, 1))) && (byte_at(w, 2) == 0 || is_alpha_byte(
            byte_at(w, 2),
        )) && (byte_at(w, 3) == 0 || is_alpha_byte(byte_at(w, 3))) && (byte_at(w, 4) == 0
            || is_alpha_byte(byte_at(w, 4))) && (byte_at(w, 5) == 0 || is_alpha_byte(
            byte_at(w, 5),
        )) && (byte_at(w, 6) == 0 || is_alpha_byte(byte_at(w, 6))) && (byte_at(w, 7) == 0
            || is_alpha_byte(byte_at(w, 7)))),
{
}

/// The whole-word letter-or-digit test: a byte passes when the letter test
/// or the digit test accepts it.
proof fn lemma_alnum_swar(w: u64, z: u64)
    by (bit_vector)
    requires
        byte_at(w, 0) < 0x80,
        byte_at(w, 1) < 0x80,
        byte_at(w, 2) < 0x80,
        byte_at(w, 3) < 0x80,
        byte_at(w, 4) < 0x80,
        byte_at(w, 5) < 0x80,
        byte_at(w, 6) < 0x80,
        byte_at(w, 7) < 0x80,
        z == ((!(((w | 0x2020202020202020) + 0x1f1f1f1f1f1f1f1f) as u64) | (((w | 0x2020202020202020) + 0x0505050505050505) as u64)) & (!((w + 0x5050505050505050) as u64) | ((w + 0x4646464646464646) as u64)) & (((w + 0x7f7f7f7f7f7f7f7f) as u64) & 0x8080808080808080)),
    ensures
        z == 0 <==> ((byte_at(w, 0) == 0 || is_alnum_byte(byte_at(w, 0))) && (byte_at(w, 1) == 0
            || is_alnum_byte(byte_at(w, 1))) && (byte_at(w, 2) == 0 || is_alnum_byte(
            byte_at(w, 2),
        )) && (byte_at(w, 3) == 0 || is_alnum_byte(byte_at(w, 3))) && (byte_at(w, 4) == 0
            || is_alnum_byte(byte_at(w, 4))) && (byte_at(w, 5) == 0 || is_alnum_byte(
            byte_at(w, 5),
        )) && (byte_at(w, 6) == 0 || is_alnum_byte(byte_at(w, 6))) && (byte_at(w, 7) == 0
            || is_alnum_byte(byte_at(w, 7)))),
{
}

/// A tiny string of 1 to 8 non-NUL ASCII characters packed into a `u64`.
#[derive(Debug, Clone, Copy, PartialEq, Eq, Hash, Structural)]
pub struct TinyStr8 {
    pub word: u64,
}

impl View for TinyStr8 {
    type V = Seq<u8>;

    open spec fn view(&self) -> Seq<u8> {
        word_bytes(self.word)
    }
}

impl TinyStr8 {
    /// The packing invariant, as a predicate on the stored word.
    pub open spec fn wf(&self) -> bool {
        wf_word(self.word)
    }

    /// Trusted reconstruction from a raw packed word. The caller must supply
    /// a word that already satisfies the packing invariant, such as one
    /// previously obtained from `raw_word` on a valid value.
    pub fn new_unchecked(word: u64) -> (r: Self)
        requires
            wf_word(word),
        ensures
            r.word == word,
            r.wf(),
    {
        TinyStr8 { word }
    }

    /// The raw packed word, for compact storage; `new_unchecked` accepts it
    /// back unchanged.
    pub fn raw_word(&self) -> (w: u64)
        ensures
            w == self.word,
    {
        self.word
    }

    /// The stored byte at position `i`.
    pub fn byte(&self, i: usize) -> (b: u8)
        requires
            i < 8,
        ensures
            b == byte_at(self.word, i as int),
    {
        ((self.word >> ((8 * i) as u64)) & 0xff) as u8
    }

    /// Packs 1 to 8 non-NUL ASCII bytes into a new tiny string. Rejects
    /// text of any other length, any byte with its high bit set, and any
    /// NUL byte, in that order of priority.
    pub fn from_bytes(b: &[u8]) -> (r: Result<Self, TinyStrError>)
        ensures
            r is Ok <==> fits(b@, 8),
            r matches Ok(t) ==> t.wf() && t@ == b@,
            r matches Err(e) ==> e == pack_error(b@, 8),
    {
        let n = b.len();
        if n < 1 || n > 8 {
            return Err(TinyStrError::InvalidSize);
        }
        let mut i: usize = 0;
        while i < n
            invariant
                n == b@.len(),
                i <= n <= 8,
                forall|j: int| 0 <= j < i ==> b@[j] < 0x80,
            decreases n - i,
        {
            if b[i] >= 0x80 {
                return Err(TinyStrError::NonAscii);
            }
            i += 1;
        }
        let mut i: usize = 0;
        while i < n
            invariant
                n == b@.len(),
                i <= n <= 8,
                all_ascii(b@),
                forall|j: int| 0 <= j < i ==> b@[j] != 0,
            decreases n - i,
        {
            if b[i] == 0 {
                return Err(TinyStrError::InvalidNull);
            }
            i += 1;
        }
        let x0 = if n > 0 { b[0] } else { 0 };
        let x1 = if n > 1 { b[1] } else { 0 };
        let x2 = if n > 2 { b[2] } else { 0 };
        let x3 = if n > 3 { b[3] } else { 0 };
        let x4 = if n > 4 { b[4] } else { 0 };
        let x5 = if n > 5 { b[5] } else { 0 };
        let x6 = if n > 6 { b[6] } else { 0 };
        let x7 = if n > 7 { b[7] } else { 0 };
        let word = (x0 as u64) | ((x1 as u64) << 8u64) | ((x2 as u64) << 16u64) | ((x3 as u64)
            << 24u64) | ((x4 as u64) << 32u64) | ((x5 as u64) << 40u64) | ((x6 as u64) << 48u64)
            | ((x7 as u64) << 56u64);
        proof {
            lemma_pack_bytes(x0, x1, x2, x3, x4, x5, x6, x7, word);
            assert forall|j: int| 0 <= j < 8 implies byte_at(word, j) == (if j < n {
                b@[j]
            } else {
                0
            }) by {
                if j == 0 {
                } else if j == 1 {
                } else if j == 2 {
                } else if j == 3 {
                } else if j == 4 {
                } else if j == 5 {
                } else if j == 6 {
                } else {
                }
            }
            assert(tiny_len(word) == n as int);
            assert(word_bytes(word) =~= b@);
        }
        Ok(TinyStr8 { word })
    }

    /// Packs the UTF-8 bytes of `s`; see `from_bytes`.
    pub fn from_text(s: &str) -> (r: Result<Self, TinyStrError>)
        ensures
            r is Ok <==> fits(s.spec_bytes(), 8),
            r matches Ok(t) ==> t.wf() && t@ == s.spec_bytes(),
            r matches Err(e) ==> e == pack_error(s.spec_bytes(), 8),
    {
        TinyStr8::from_bytes(s.as_bytes())
    }

    /// The number of stored bytes.
    pub fn len(&self) -> (l: usize)
        requires
            self.wf(),
        ensures
            l == self@.len(),
            1 <= l <= 8,
    {
        let mut i: usize = 0;
        while i < 8
            invariant
                self.wf(),
                i <= 8,
                forall|j: int| 0 <= j < i ==> byte_at(self.word, j) != 0,
            decreases 8 - i,
        {
            if self.byte(i) == 0 {
                return i;
            }
            i += 1;
        }
        8
    }

    /// The stored bytes, in text order.
    pub fn to_bytes(&self) -> (v: Vec<u8>)
        requires
            self.wf(),
        ensures
            v@ == self@,
    {
        let n = self.len();
        let mut v: Vec<u8> = Vec::new();
        let mut i: usize = 0;
        while i < n
            invariant
                self.wf(),
                n == self@.len(),
                i <= n,
                v@.len() == i,
                forall|j: int| 0 <= j < i ==> v@[j] == self@[j],
            decreases n - i,
        {
            v.push(self.byte(i));
            i += 1;
        }
        proof {
            assert(v@ =~= self@);
        }
        v
    }

    /// The stored text as an owned string.
    pub fn as_str(&self) -> (r: String)
        requires
            self.wf(),
        ensures
            r@ == ascii_chars(self@),
            r@.len() == self@.len(),
    {
        let v = self.to_bytes();
        proof {
            assert forall|j: int| 0 <= j < v@.len() implies v@[j] < 0x80 by {
                lemma_wf_byte_at(self.word, j);
            }
        }
        ascii_to_string(v)
    }

    /// A new value with every stored `a..=z` byte replaced by its uppercase
    /// form, computed branchlessly on the whole packed word.
    pub fn to_ascii_uppercase(self) -> (r: Self)
        requires
            self.wf(),
        ensures
            r.wf(),
            r@.len() == self@.len(),
            forall|i: int| 0 <= i < self@.len() ==> #[trigger] r@[i] == to_upper_byte(self@[i]),
    {
        let w = self.word;
        proof {
            lemma_wf_ascii(w);
            lemma_ascii_bound(w);
        }
        let t1 = w + 0x1f1f1f1f1f1f1f1f;
        let t2 = w + 0x0505050505050505;
        let r = w & !(((t1 & !t2) & 0x8080808080808080u64) >> 2u64);
        proof {
            assert(t1 == ((w + 0x1f1f1f1f1f1f1f1f) as u64));
            assert(t2 == ((w + 0x0505050505050505) as u64));
            lemma_upper_swar(w, r);
            assert(tiny_len(r) == tiny_len(w));
            assert(wf_word(r));
            assert forall|j: int| 0 <= j < tiny_len(w) implies #[trigger] word_bytes(r)[j]
                == to_upper_byte(word_bytes(w)[j]) by {
                lemma_byte_cases(r, j);
                lemma_byte_cases(w, j);
                assert(word_bytes(r)[j] == byte_at(r, j));
                assert(word_bytes(w)[j] == byte_at(w, j));
            }
        }
        TinyStr8 { word: r }
    }

    /// A new value with every stored `A..=Z` byte replaced by its lowercase
    /// form, computed branchlessly on the whole packed word.
    pub fn to_ascii_lowercase(self) -> (r: Self)
        requires
            self.wf(),
        ensures
            r.wf(),
            r@.len() == self@.len(),
            forall|i: int| 0 <= i < self@.len() ==> #[trigger] r@[i] == to_lower_byte(self@[i]),
    {
        let w = self.word;
        proof {
            lemma_wf_ascii(w);
            lemma_ascii_bound(w);
        }
        let t1 = w + 0x3f3f3f3f3f3f3f3f;
        let t2 = w + 0x2525252525252525;
        let r = w | (((t1 & !t2) & 0x8080808080808080u64) >> 2u64);
        proof {
            assert(t1 == ((w + 0x3f3f3f3f3f3f3f3f) as u64));
            assert(t2 == ((w + 0x2525252525252525) as u64));
            lemma_lower_swar(w, r);
            assert(tiny_len(r) == tiny_len(w));
            assert(wf_word(r));
            assert forall|j: int| 0 <= j < tiny_len(w) implies #[trigger] word_bytes(r)[j]
                == to_lower_byte(word_bytes(w)[j]) by {
                lemma_byte_cases(r, j);
                lemma_byte_cases(w, j);
                assert(word_bytes(r)[j] == byte_at(r, j));
                assert(word_bytes(w)[j] == byte_at(w, j));
            }
        }
        TinyStr8 { word: r }
    }

    /// Whether every stored byte is an ASCII letter, decided branchlessly on
    /// the whole packed word.
    pub fn is_all_ascii_alphabetic(&self) -> (r: bool)
        requires
            self.wf(),
        ensures
            r == all_alpha(self@),
    {
        let w = self.word;
        proof {
            lemma_wf_ascii(w);
            lemma_ascii_bound(w);
        }
        let l = w | 0x2020202020202020;
        let t1 = l + 0x1f1f1f1f1f1f1f1f;
        let t2 = l + 0x0505050505050505;
        let mask = (w + 0x7f7f7f7f7f7f7f7f) & 0x8080808080808080;
        let z = (!t1 | t2) & mask;
        proof {
            assert(t1 == (((w | 0x2020202020202020) + 0x1f1f1f1f1f1f1f1f) as u64));
            assert(t2 == (((w | 0x2020202020202020) + 0x0505050505050505) as u64));
            assert(mask == (((w + 0x7f7f7f7f7f7f7f7f) as u64) & 0x8080808080808080));
            lemma_alpha_swar(w, z);
            lemma_all_used_iff(w, |b: u8| is_alpha_byte(b));
        }
        z == 0
    }

    /// Whether every stored byte is an ASCII letter or digit, decided
    /// branchlessly on the whole packed word.
    pub fn is_all_ascii_alphanumeric(&self) -> (r: bool)
        requires
            self.wf(),
        ensures
            r == all_alnum(self@),
    {
        let w = self.word;
        proof {
            lemma_wf_ascii(w);
            lemma_ascii_bound(w);
        }
        let l = w | 0x2020202020202020;
        let t1 = l + 0x1f1f1f1f1f1f1f1f;
        let t2 = l + 0x0505050505050505;
        let d1 = w + 0x5050505050505050;
        let d2 = w + 0x4646464646464646;
        let mask = (w + 0x7f7f7f7f7f7f7f7f) & 0x8080808080808080;
        let z = (!t1 | t2) & (!d1 | d2) & mask;
        proof {
            assert(t1 == (((w | 0x2020202020202020) + 0x1f1f1f1f1f1f1f1f) as u64));
            assert(t2 == (((w | 0x2020202020202020) + 0x0505050505050505) as u64));
            assert(d1 == ((w + 0x5050505050505050) as u64));
            assert(d2 == ((w + 0x4646464646464646) as u64));
            assert(mask == (((w + 0x7f7f7f7f7f7f7f7f) as u64) & 0x8080808080808080));
            lemma_alnum_swar(w, z);
            lemma_all_used_iff(w, |b: u8| is_alnum_byte(b));
        }
        z == 0
    }
}

/// Every stored byte is an ASCII letter.
pub open spec fn all_alpha(s: Seq<u8>) -> bool {
    forall|i: int| 0 <= i < s.len() ==> is_alpha_byte(#[trigger] s[i])
}

/// Every stored byte is an ASCII letter or digit.
pub open spec fn all_alnum(s: Seq<u8>) -> bool {
    forall|i: int| 0 <= i < s.len() ==> is_alnum_byte(#[trigger] s[i])
}

/// Every stored byte is an ASCII digit.
pub open spec fn all_digits(s: Seq<u8>) -> bool {
    forall|i: int| 0 <= i < s.len() ==> is_digit_byte(#[trigger] s[i])
}

/// The characters of an ASCII byte sequence.
pub open spec fn ascii_chars(s: Seq<u8>) -> Seq<char> {
    s.map_values(|b: u8| b as char)
}

/// A predicate holds of every used byte of a well-formed word exactly when
/// it holds (or the byte is zero) at each of the eight positions.
proof fn lemma_all_used_iff(w: u64, p: spec_fn(u8) -> bool)
    requires
        wf_word(w),
    ensures
        (forall|j: int| 0 <= j < word_bytes(w).len() ==> p(#[trigger] word_bytes(w)[j])) <==> ((
        byte_at(w, 0) == 0 || p(byte_at(w, 0))) && (byte_at(w, 1) == 0 || p(byte_at(w, 1))) && (
        byte_at(w, 2) == 0 || p(byte_at(w, 2))) && (byte_at(w, 3) == 0 || p(byte_at(w, 3))) && (
        byte_at(w, 4) == 0 || p(byte_at(w, 4))) && (byte_at(w, 5) == 0 || p(byte_at(w, 5))) && (
        byte_at(w, 6) == 0 || p(byte_at(w, 6))) && (byte_at(w, 7) == 0 || p(byte_at(w, 7)))),
{
    let s = word_bytes(w);
    let n = tiny_len(w);
    if forall|j: int| 0 <= j < s.len() ==> p(#[trigger] s[j]) {
        assert forall|k: int| 0 <= k < 8 implies (byte_at(w, k) == 0 || p(byte_at(w, k))) by {
            lemma_wf_byte_at(w, k);
            if k < n {
                assert(s[k] == byte_at(w, k));
                assert(p(s[k]));
            }
        }
        assert(byte_at(w, 0) == 0 || p(byte_at(w, 0)));
        assert(byte_at(w, 1) == 0 || p(byte_at(w, 1)));
        assert(byte_at(w, 2) == 0 || p(byte_at(w, 2)));
        assert(byte_at(w, 3) == 0 || p(byte_at(w, 3)));
        assert(byte_at(w, 4) == 0 || p(byte_at(w, 4)));
        assert(byte_at(w, 5) == 0 || p(byte_at(w, 5)));
        assert(byte_at(w, 6) == 0 || p(byte_at(w, 6)));
        assert(byte_at(w, 7) == 0 || p(byte_at(w, 7)));
    } else {
        let j = choose|j: int| 0 <= j < s.len() && !p(#[trigger] s[j]);
        lemma_byte_cases(w, j);
        lemma_wf_byte_at(w, j);
        assert(s[j] == byte_at(w, j));
        assert(byte_at(w, j) != 0 && !p(byte_at(w, j)));
    }
}

/// Relies on `String::from_utf8`: a sequence of 7-bit ASCII bytes is valid
/// UTF-8 and decodes to exactly those characters, one per byte.
#[verifier::external_body]
pub fn ascii_to_string(v: Vec<u8>) -> (r: String)
    requires
        all_ascii(v@),
    ensures
        r@ == ascii_chars(v@),
{
    match String::from_utf8(v) {
        Ok(s) => s,
        Err(_) => String::new(),
    }
}

} // verus!

verus! {

/// Byte-wise lexicographic order on byte sequences: a proper prefix sorts
/// before its extensions, otherwise the first differing byte decides.
pub open spec fn lex_lt(a: Seq<u8>, b: Seq<u8>) -> bool
    decreases a.len(),
{
    if b.len() == 0 {
        false
    } else if a.len() == 0 {
        true
    } else if a[0] != b[0] {
        a[0] < b[0]
    } else {
        lex_lt(a.drop_first(), b.drop_first())
    }
}

/// Sequences that agree on a prefix compare the same way as their suffixes.
pub proof fn lemma_lex_skip(a: Seq<u8>, b: Seq<u8>, i: int)
    requires
        0 <= i <= a.len(),
        i <= b.len(),
        forall|j: int| 0 <= j < i ==> a[j] == b[j],
    ensures
        lex_lt(a, b) == lex_lt(a.skip(i), b.skip(i)),
    decreases i,
{
    if i == 0 {
        assert(a.skip(0) =~= a);
        assert(b.skip(0) =~= b);
    } else {
        assert(a[0] == b[0]);
        assert(a.drop_first() =~= a.skip(1));
        assert(b.drop_first() =~= b.skip(1));
        assert forall|j: int| 0 <= j < i - 1 implies a.skip(1)[j] == b.skip(1)[j] by {
            assert(a[j + 1] == b[j + 1]);
        }
        lemma_lex_skip(a.skip(1), b.skip(1), i - 1);
        assert(a.skip(1).skip(i - 1) =~= a.skip(i));
        assert(b.skip(1).skip(i - 1) =~= b.skip(i));
    }
}

/// The order is transitive.
pub proof fn lemma_lex_trans(a: Seq<u8>, b: Seq<u8>, c: Seq<u8>)
    requires
        lex_lt(a, b),
        lex_lt(b, c),
    ensures
        lex_lt(a, c),
    decreases a.len() + b.len() + c.len(),
{
    if a.len() == 0 {
    } else if b.len() == 0 {
    } else if c.len() == 0 {
    } else {
        if a[0] == b[0] && b[0] == c[0] {
            lemma_lex_trans(a.drop_first(), b.drop_first(), c.drop_first());
        }
    }
}

/// The order is asymmetric: two sequences never sort below each other.
pub proof fn lemma_lex_asym(a: Seq<u8>, b: Seq<u8>)
    requires
        lex_lt(a, b),
    ensures
        !lex_lt(b, a),
    decreases a.len(),
{
    if a.len() != 0 && b.len() != 0 && a[0] == b[0] {
        lemma_lex_asym(a.drop_first(), b.drop_first());
    }
}

/// The order is total: incomparable sequences are equal.
pub proof fn lemma_lex_connex(a: Seq<u8>, b: Seq<u8>)
    requires
        !lex_lt(a, b),
        !lex_lt(b, a),
    ensures
        a =~= b,
    decreases a.len(),
{
    if a.len() != 0 && b.len() != 0 && a[0] == b[0] {
        lemma_lex_connex(a.drop_first(), b.drop_first());
        assert(a.drop_first() =~= b.drop_first());
        assert forall|j: int| 0 <= j < a.len() implies a[j] == b[j] by {
            if j > 0 {
                assert(a.drop_first()[j - 1] == b.drop_first()[j - 1]);
            }
        }
    }
}

} // verus!

verus! {

impl TinyStr8 {
    /// Byte-lexicographic strict order, decided on the packed bytes.
    pub fn lt(&self, other: &Self) -> (r: bool)
        requires
            self.wf(),
            other.wf(),
        ensures
            r == lex_lt(self@, other@),
    {
        let la = self.len();
        let lb = other.len();
        let mut i: usize = 0;
        while i < la && i < lb
            invariant
                self.wf(),
                other.wf(),
                la == self@.len(),
                lb == other@.len(),
                i <= la,
                i <= lb,
                forall|j: int| 0 <= j < i ==> self@[j] == other@[j],
            decreases la - i,
        {
            let x = self.byte(i);
            let y = other.byte(i);
            proof {
                assert(self@[i as int] == byte_at(self.word, i as int));
                assert(other@[i as int] == byte_at(other.word, i as int));
            }
            if x != y {
                proof {
                    lemma_lex_skip(self@, other@, i as int);
                    assert(self@.skip(i as int)[0] == self@[i as int]);
                    assert(other@.skip(i as int)[0] == other@[i as int]);
                }
                return x < y;
            }
            i += 1;
        }
        proof {
            lemma_lex_skip(self@, other@, i as int);
            if i < lb {
                assert(other@.skip(i as int).len() > 0);
            }
        }
        la < lb
    }
}

/// The upper four byte positions of a widened 32-bit word are zero.
proof fn lemma_u32_bytes(w: u32)
    by (bit_vector)
    ensures
        byte_at(w as u64, 4) == 0,
        byte_at(w as u64, 5) == 0,
        byte_at(w as u64, 6) == 0,
        byte_at(w as u64, 7) == 0,
{
}

/// A word with zero upper bytes narrows to 32 bits and back without loss.
proof fn lemma_low_word(w: u64)
    by (bit_vector)
    requires
        byte_at(w, 4) == 0,
        byte_at(w, 5) == 0,
        byte_at(w, 6) == 0,
        byte_at(w, 7) == 0,
    ensures
        w <= 0xffffffff,
        ((w as u32) as u64) == w,
{
}

/// Clearing the ASCII case bit of the first byte leaves the others alone.
proof fn lemma_title_fix(l: u32, r: u32)
    by (bit_vector)
    requires
        r == l & 0xffffffdf,
        0x61 <= byte_at(l as u64, 0) <= 0x7a,
    ensures
        byte_at(r as u64, 0) == (byte_at(l as u64, 0) - 0x20) as u8,
        byte_at(r as u64, 1) == byte_at(l as u64, 1),
        byte_at(r as u64, 2) == byte_at(l as u64, 2),
        byte_at(r as u64, 3) == byte_at(l as u64, 3),
{
}

/// The title-case form of a byte sequence: first byte uppercase, the rest
/// lowercase.
pub open spec fn title_bytes(s: Seq<u8>) -> Seq<u8> {
    Seq::new(
        s.len(),
        |i: int|
            if i == 0 {
                to_upper_byte(s[i])
            } else {
                to_lower_byte(s[i])
            },
    )
}

/// A tiny string of 1 to 4 non-NUL ASCII characters packed into a `u32`.
#[derive(Debug, Clone, Copy, PartialEq, Eq, Hash, Structural)]
pub struct TinyStr4 {
    pub word: u32,
}

impl View for TinyStr4 {
    type V = Seq<u8>;

    open spec fn view(&self) -> Seq<u8> {
        word_bytes(self.word as u64)
    }
}

impl TinyStr4 {
    /// The packing invariant, as a predicate on the stored word.
    pub open spec fn wf(&self) -> bool {
        wf_word(self.word as u64)
    }

    /// Trusted reconstruction from a raw packed word; the caller must supply
    /// a word that already satisfies the packing invariant.
    pub fn new_unchecked(word: u32) -> (r: Self)
        requires
            wf_word(word as u64),
        ensures
            r.word == word,
            r.wf(),
    {
        TinyStr4 { word }
    }

    /// The raw packed word, for compact storage.
    pub fn raw_word(&self) -> (w: u32)
        ensures
            w == self.word,
    {
        self.word
    }

    /// The same bytes viewed through the 8-byte type; the upper positions
    /// are zero.
    fn widen(&self) -> (r: TinyStr8)
        ensures
            r.word == self.word as u64,
            r@ == self@,
            self.wf() ==> r.wf(),
    {
        TinyStr8 { word: self.word as u64 }
    }

    /// Packs a well-formed 8-byte value of length at most 4 back into the
    /// 4-byte type.
    fn narrow(t: TinyStr8) -> (r: Self)
        requires
            t.wf(),
            t@.len() <= 4,
        ensures
            r.word as u64 == t.word,
            r@ == t@,
            r.wf(),
    {
        proof {
            lemma_wf_byte_at(t.word, 4);
            lemma_wf_byte_at(t.word, 5);
            lemma_wf_byte_at(t.word, 6);
            lemma_wf_byte_at(t.word, 7);
            lemma_low_word(t.word);
        }
        TinyStr4 { word: t.word as u32 }
    }

    /// The stored byte at position `i`.
    pub fn byte(&self, i: usize) -> (b: u8)
        requires
            i < 8,
        ensures
            b == byte_at(self.word as u64, i as int),
    {
        (((self.word as u64) >> ((8 * i) as u64)) & 0xff) as u8
    }

    /// The number of stored bytes.
    pub fn len(&self) -> (l: usize)
        requires
            self.wf(),
        ensures
            l == self@.len(),
            1 <= l <= 4,
    {
        proof {
            lemma_u32_bytes(self.word);
            lemma_wf_byte_at(self.word as u64, 4);
        }
        self.widen().len()
    }

    /// Packs 1 to 4 non-NUL ASCII bytes into a new tiny string; see
    /// `TinyStr8::from_bytes` for the error order.
    pub fn from_bytes(b: &[u8]) -> (r: Result<Self, TinyStrError>)
        ensures
            r is Ok <==> fits(b@, 4),
            r matches Ok(t) ==> t.wf() && t@ == b@,
            r matches Err(e) ==> e == pack_error(b@, 4),
    {
        let n = b.len();
        if n < 1 || n > 4 {
            return Err(TinyStrError::InvalidSize);
        }
        match TinyStr8::from_bytes(b) {
            Ok(t) => Ok(Self::narrow(t)),
            Err(e) => Err(e),
        }
    }

    /// Packs the UTF-8 bytes of `s`; see `from_bytes`.
    pub fn from_text(s: &str) -> (r: Result<Self, TinyStrError>)
        ensures
            r is Ok <==> fits(s.spec_bytes(), 4),
            r matches Ok(t) ==> t.wf() && t@ == s.spec_bytes(),
            r matches Err(e) ==> e == pack_error(s.spec_bytes(), 4),
    {
        TinyStr4::from_bytes(s.as_bytes())
    }

    /// The stored bytes, in text order.
    pub fn to_bytes(&self) -> (v: Vec<u8>)
        requires
            self.wf(),
        ensures
            v@ == self@,
    {
        self.widen().to_bytes()
    }

    /// The stored text as an owned string.
    pub fn as_str(&self) -> (r: String)
        requires
            self.wf(),
        ensures
            r@ == ascii_chars(self@),
            r@.len() == self@.len(),
    {
        self.widen().as_str()
    }

    /// A new value with every stored `a..=z` byte replaced by its uppercase
    /// form; see `TinyStr8::to_ascii_uppercase`.
    pub fn to_ascii_uppercase(self) -> (r: Self)
        requires
            self.wf(),
        ensures
            r.wf(),
            r@.len() == self@.len(),
            forall|i: int| 0 <= i < self@.len() ==> #[trigger] r@[i] == to_upper_byte(self@[i]),
    {
        proof {
            lemma_u32_bytes(self.word);
        }
        Self::narrow(self.widen().to_ascii_uppercase())
    }

    /// A new value with every stored `A..=Z` byte replaced by its lowercase
    /// form; see `TinyStr8::to_ascii_lowercase`.
    pub fn to_ascii_lowercase(self) -> (r: Self)
        requires
            self.wf(),
        ensures
            r.wf(),
            r@.len() == self@.len(),
            forall|i: int| 0 <= i < self@.len() ==> #[trigger] r@[i] == to_lower_byte(self@[i]),
    {
        proof {
            lemma_u32_bytes(self.word);
        }
        Self::narrow(self.widen().to_ascii_lowercase())
    }

    /// A new value with the first byte in uppercase and the rest in
    /// lowercase form.
    pub fn to_ascii_titlecase(self) -> (r: Self)
        requires
            self.wf(),
        ensures
            r.wf(),
            r@ == title_bytes(self@),
    {
        let low = self.to_ascii_lowercase();
        let b0 = low.byte(0);
        proof {
            assert(low@[0] == byte_at(low.word as u64, 0));
            assert(low@[0] == to_lower_byte(self@[0]));
        }
        if 0x61 <= b0 && b0 <= 0x7a {
            let w2 = low.word & 0xffffffdf;
            proof {
                lemma_title_fix(low.word, w2);
                lemma_u32_bytes(low.word);
                lemma_u32_bytes(w2);
                assert(tiny_len(w2 as u64) == tiny_len(low.word as u64));
                assert(wf_word(w2 as u64));
                assert forall|j: int| 0 <= j < tiny_len(low.word as u64) implies byte_at(
                    w2 as u64,
                    j,
                ) == title_bytes(self@)[j] by {
                    assert(low@[j] == byte_at(low.word as u64, j));
                    assert(low@[j] == to_lower_byte(self@[j]));
                    if j == 0 {
                    } else if j == 1 {
                    } else if j == 2 {
                    } else if j == 3 {
                    } else {
                    }
                }
                assert(word_bytes(w2 as u64) =~= title_bytes(self@)) by {
                    assert forall|j: int| 0 <= j < tiny_len(w2 as u64) implies word_bytes(
                        (w2 as u64),
                    )[j] == title_bytes(self@)[j] by {
                        assert(word_bytes(w2 as u64)[j] == byte_at(w2 as u64, j));
                    }
                }
            }
            TinyStr4 { word: w2 }
        } else {
            proof {
                assert(low@ =~= title_bytes(self@)) by {
                    assert(!is_alpha_byte(self@[0]));
                }
            }
            low
        }
    }

    /// Whether every stored byte is an ASCII letter.
    pub fn is_all_ascii_alphabetic(&self) -> (r: bool)
        requires
            self.wf(),
        ensures
            r == all_alpha(self@),
    {
        self.widen().is_all_ascii_alphabetic()
    }

    /// Whether every stored byte is an ASCII letter or digit.
    pub fn is_all_ascii_alphanumeric(&self) -> (r: bool)
        requires
            self.wf(),
        ensures
            r == all_alnum(self@),
    {
        self.widen().is_all_ascii_alphanumeric()
    }
}

} // verus!

verus! {

/// The sequence with every byte in lowercase form.
pub open spec fn lower_seq(s: Seq<u8>) -> Seq<u8> {
    Seq::new(s.len(), |i: int| to_lower_byte(s[i]))
}

/// The sequence with every byte in uppercase form.
pub open spec fn upper_seq(s: Seq<u8>) -> Seq<u8> {
    Seq::new(s.len(), |i: int| to_upper_byte(s[i]))
}

/// Builds an 8-byte tiny string from explicit byte values; unused trailing
/// positions are passed as zero. Packing and well-formedness are proved, so
/// constant values can be built from plain byte literals.
pub fn mk8(b0: u8, b1: u8, b2: u8, b3: u8, b4: u8, b5: u8, b6: u8, b7: u8) -> (r: TinyStr8)
    requires
        0 < b0 < 0x80,
        b1 < 0x80,
        b2 < 0x80,
        b3 < 0x80,
        b4 < 0x80,
        b5 < 0x80,
        b6 < 0x80,
        b7 < 0x80,
        b1 == 0 ==> b2 == 0,
        b2 == 0 ==> b3 == 0,
        b3 == 0 ==> b4 == 0,
        b4 == 0 ==> b5 == 0,
        b5 == 0 ==> b6 == 0,
        b6 == 0 ==> b7 == 0,
    ensures
        r.wf(),
        byte_at(r.word, 0) == b0,
        byte_at(r.word, 1) == b1,
        byte_at(r.word, 2) == b2,
        byte_at(r.word, 3) == b3,
        byte_at(r.word, 4) == b4,
        byte_at(r.word, 5) == b5,
        byte_at(r.word, 6) == b6,
        byte_at(r.word, 7) == b7,
{
    let w = (b0 as u64) | ((b1 as u64) << 8u64) | ((b2 as u64) << 16u64) | ((b3 as u64) << 24u64)
        | ((b4 as u64) << 32u64) | ((b5 as u64) << 40u64) | ((b6 as u64) << 48u64) | ((b7 as u64)
        << 56u64);
    proof {
        lemma_pack_bytes(b0, b1, b2, b3, b4, b5, b6, b7, w);
    }
    TinyStr8 { word: w }
}

/// Builds a 4-byte tiny string from explicit byte values; see `mk8`.
pub fn mk4(b0: u8, b1: u8, b2: u8, b3: u8) -> (r: TinyStr4)
    requires
        0 < b0 < 0x80,
        b1 < 0x80,
        b2 < 0x80,
        b3 < 0x80,
        b1 == 0 ==> b2 == 0,
        b2 == 0 ==> b3 == 0,
    ensures
        r.wf(),
        byte_at(r.word as u64, 0) == b0,
        byte_at(r.word as u64, 1) == b1,
        byte_at(r.word as u64, 2) == b2,
        byte_at(r.word as u64, 3) == b3,
        byte_at(r.word as u64, 4) == 0,
        byte_at(r.word as u64, 5) == 0,
        byte_at(r.word as u64, 6) == 0,
        byte_at(r.word as u64, 7) == 0,
{
    let t = mk8(b0, b1, b2, b3, 0, 0, 0, 0);
    TinyStr4::narrow(t)
}

} // verus!
