//! The character-direction table: languages whose script runs right to
//! left, drawn from the CLDR layout data. A static read-only resource;
//! the lookup logic does not depend on which entries it carries.

use vstd::prelude::*;

use crate::tinystr::TinyStr8;

verus! {

use crate::tinystr::{lemma_view_injective, mk8};


/// The language writes right to left.
pub open spec fn is_rtl_lang(l: Seq<u8>) -> bool {
    l == seq![0x61u8, 0x65u8] || l == seq![0x61u8, 0x72u8] || l == seq![0x61u8, 0x72u8, 0x63u8] || l == seq![0x62u8, 0x63u8, 0x63u8] || l == seq![0x62u8, 0x71u8, 0x69u8] || l == seq![0x63u8, 0x6bu8, 0x62u8] || l == seq![0x64u8, 0x76u8] || l == seq![0x66u8, 0x61u8] || l == seq![0x67u8, 0x6cu8, 0x6bu8] || l == seq![0x68u8, 0x65u8] || l == seq![0x6bu8, 0x73u8] || l == seq![0x6du8, 0x7au8, 0x6eu8] || l == seq![0x6eu8, 0x71u8, 0x6fu8] || l == seq![0x70u8, 0x6eu8, 0x62u8] || l == seq![0x70u8, 0x73u8] || l == seq![0x73u8, 0x64u8] || l == seq![0x75u8, 0x67u8] || l == seq![0x75u8, 0x72u8] || l == seq![0x79u8, 0x69u8]
}

/// Whether the language is in the right-to-left table.
pub fn rtl_lookup(l: &TinyStr8) -> (r: bool)
    requires
        l.wf(),
    ensures
        r == is_rtl_lang(l@),
{
    let c0 = mk8(0x61, 0x65, 0x00, 0x00, 0x00, 0x00, 0x00, 0x00);
    proof {
        assert(c0@ =~= seq![0x61u8, 0x65u8]);
    }
    if l.raw_word() == c0.raw_word() {
        return true;
    }
    proof {
        if l@ == c0@ {
            lemma_view_injective(l.word, c0.word);
        }
    }
    let c1 = mk8(0x61, 0x72, 0x00, 0x00, 0x00, 0x00, 0x00, 0x00);
    proof {
        assert(c1@ =~= seq![0x61u8, 0x72u8]);
    }
    if l.raw_word() == c1.raw_word() {
        return true;
    }
    proof {
        if l@ == c1@ {
            lemma_view_injective(l.word, c1.word);
        }
    }
    let c2 = mk8(0x61, 0x72, 0x63, 0x00, 0x00, 0x00, 0x00, 0x00);
    proof {
        assert(c2@ =~= seq![0x61u8, 0x72u8, 0x63u8]);
    }
    if l.raw_word() == c2.raw_word() {
        return true;
    }
    proof {
        if l@ == c2@ {
            lemma_view_injective(l.word, c2.word);
        }
    }
    let c3 = mk8(0x62, 0x63, 0x63, 0x00, 0x00, 0x00, 0x00, 0x00);
    proof {
        assert(c3@ =~= seq![0x62u8, 0x63u8, 0x63u8]);
    }
    if l.raw_word() == c3.raw_word() {
        return true;
    }
    proof {
        if l@ == c3@ {
            lemma_view_injective(l.word, c3.word);
        }
    }
    let c4 = mk8(0x62, 0x71, 0x69, 0x00, 0x00, 0x00, 0x00, 0x00);
    proof {
        assert(c4@ =~= seq![0x62u8, 0x71u8, 0x69u8]);
    }
    if l.raw_word() == c4.raw_word() {
        return true;
    }
    proof {
        if l@ == c4@ {
            lemma_view_injective(l.word, c4.word);
        }
    }
    let c5 = mk8(0x63, 0x6b, 0x62, 0x00, 0x00, 0x00, 0x00, 0x00);
    proof {
        assert(c5@ =~= seq![0x63u8, 0x6bu8, 0x62u8]);
    }
    if l.raw_word() == c5.raw_word() {
        return true;
    }
    proof {
        if l@ == c5@ {
            lemma_view_injective(l.word, c5.word);
        }
    }
    let c6 = mk8(0x64, 0x76, 0x00, 0x00, 0x00, 0x00, 0x00, 0x00);
    proof {
        assert(c6@ =~= seq![0x64u8, 0x76u8]);
    }
    if l.raw_word() == c6.raw_word() {
        return true;
    }
    proof {
        if l@ == c6@ {
            lemma_view_injective(l.word, c6.word);
        }
    }
    let c7 = mk8(0x66, 0x61, 0x00, 0x00, 0x00, 0x00, 0x00, 0x00);
    proof {
        assert(c7@ =~= seq![0x66u8, 0x61u8]);
    }
    if l.raw_word() == c7.raw_word() {
        return true;
    }
    proof {
        if l@ == c7@ {
            lemma_view_injective(l.word, c7.word);
        }
    }
    let c8 = mk8(0x67, 0x6c, 0x6b, 0x00, 0x00, 0x00, 0x00, 0x00);
    proof {
        assert(c8@ =~= seq![0x67u8, 0x6cu8, 0x6bu8]);
    }
    if l.raw_word() == c8.raw_word() {
        return true;
    }
    proof {
        if l@ == c8@ {
            lemma_view_injective(l.word, c8.word);
        }
    }
    let c9 = mk8(0x68, 0x65, 0x00, 0x00, 0x00, 0x00, 0x00, 0x00);
    proof {
        assert(c9@ =~= seq![0x68u8, 0x65u8]);
    }
    if l.raw_word() == c9.raw_word() {
        return true;
    }
    proof {
        if l@ == c9@ {
            lemma_view_injective(l.word, c9.word);
        }
    }
    let c10 = mk8(0x6b, 0x73, 0x00, 0x00, 0x00, 0x00, 0x00, 0x00);
    proof {
        assert(c10@ =~= seq![0x6bu8, 0x73u8]);
    }
    if l.raw_word() == c10.raw_word() {
        return true;
    }
    proof {
        if l@ == c10@ {
            lemma_view_injective(l.word, c10.word);
        }
    }
    let c11 = mk8(0x6d, 0x7a, 0x6e, 0x00, 0x00, 0x00, 0x00, 0x00);
    proof {
        assert(c11@ =~= seq![0x6du8, 0x7au8, 0x6eu8]);
    }
    if l.raw_word() == c11.raw_word() {
        return true;
    }
    proof {
        if l@ == c11@ {
            lemma_view_injective(l.word, c11.word);
        }
    }
    let c12 = mk8(0x6e, 0x71, 0x6f, 0x00, 0x00, 0x00, 0x00, 0x00);
    proof {
        assert(c12@ =~= seq![0x6eu8, 0x71u8, 0x6fu8]);
    }
    if l.raw_word() == c12.raw_word() {
        return true;
    }
    proof {
        if l@ == c12@ {
            lemma_view_injective(l.word, c12.word);
        }
    }
    let c13 = mk8(0x70, 0x6e, 0x62, 0x00, 0x00, 0x00, 0x00, 0x00);
    proof {
        assert(c13@ =~= seq![0x70u8, 0x6eu8, 0x62u8]);
    }
    if l.raw_word() == c13.raw_word() {
        return true;
    }
    proof {
        if l@ == c13@ {
            lemma_view_injective(l.word, c13.word);
        }
    }
    let c14 = mk8(0x70, 0x73, 0x00, 0x00, 0x00, 0x00, 0x00, 0x00);
    proof {
        assert(c14@ =~= seq![0x70u8, 0x73u8]);
    }
    if l.raw_word() == c14.raw_word() {
        return true;
    }
    proof {
        if l@ == c14@ {
            lemma_view_injective(l.word, c14.word);
        }
    }
    let c15 = mk8(0x73, 0x64, 0x00, 0x00, 0x00, 0x00, 0x00, 0x00);
    proof {
        assert(c15@ =~= seq![0x73u8, 0x64u8]);
    }
    if l.raw_word() == c15.raw_word() {
        return true;
    }
    proof {
        if l@ == c15@ {
            lemma_view_injective(l.word, c15.word);
        }
    }
    let c16 = mk8(0x75, 0x67, 0x00, 0x00, 0x00, 0x00, 0x00, 0x00);
    proof {
        assert(c16@ =~= seq![0x75u8, 0x67u8]);
    }
    if l.raw_word() == c16.raw_word() {
        return true;
    }
    proof {
        if l@ == c16@ {
            lemma_view_injective(l.word, c16.word);
        }
    }
    let c17 = mk8(0x75, 0x72, 0x00, 0x00, 0x00, 0x00, 0x00, 0x00);
    proof {
        assert(c17@ =~= seq![0x75u8, 0x72u8]);
    }
    if l.raw_word() == c17.raw_word() {
        return true;
    }
    proof {
        if l@ == c17@ {
            lemma_view_injective(l.word, c17.word);
        }
    }
    let c18 = mk8(0x79, 0x69, 0x00, 0x00, 0x00, 0x00, 0x00, 0x00);
    proof {
        assert(c18@ =~= seq![0x79u8, 0x69u8]);
    }
    if l.raw_word() == c18.raw_word() {
        return true;
    }
    proof {
        if l@ == c18@ {
            lemma_view_injective(l.word, c18.word);
        }
    }
    false
}

} // verus!
