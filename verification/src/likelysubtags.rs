//! Likely-subtags resolution: table-driven expansion of under-specified
//! identifiers to their most likely fully-specified form, and the inverse
//! contraction, following the prioritized key shapes of the CLDR
//! likely-subtags data. The table below is a static excerpt of that data,
//! a read-only resource consumed by the resolver; the resolver logic does
//! not depend on which entries it carries.

use vstd::prelude::*;

use crate::tinystr::{TinyStr4, TinyStr8};

verus! {

use crate::tinystr::{lemma_view_injective, mk4, mk8};
use crate::langid::{is_canon_language, is_canon_region, is_canon_script, is_lower_alpha,
    is_upper_alpha};
use crate::subtags::und_bytes;


/// The language-only likely-subtags entries: language to (script, optional region).
pub open spec fn lang_only_spec(l: Seq<u8>) -> Option<(Seq<u8>, Option<Seq<u8>>)> {
    if l == seq![0x65u8, 0x6eu8] {
        Some((seq![0x4cu8, 0x61u8, 0x74u8, 0x6eu8], Some(seq![0x55u8, 0x53u8])))
    } else if l == seq![0x65u8, 0x73u8] {
        Some((seq![0x4cu8, 0x61u8, 0x74u8, 0x6eu8], Some(seq![0x45u8, 0x53u8])))
    } else if l == seq![0x69u8, 0x74u8] {
        Some((seq![0x4cu8, 0x61u8, 0x74u8, 0x6eu8], Some(seq![0x49u8, 0x54u8])))
    } else if l == seq![0x64u8, 0x65u8] {
        Some((seq![0x4cu8, 0x61u8, 0x74u8, 0x6eu8], Some(seq![0x44u8, 0x45u8])))
    } else if l == seq![0x70u8, 0x6cu8] {
        Some((seq![0x4cu8, 0x61u8, 0x74u8, 0x6eu8], Some(seq![0x50u8, 0x4cu8])))
    } else if l == seq![0x66u8, 0x72u8] {
        Some((seq![0x4cu8, 0x61u8, 0x74u8, 0x6eu8], Some(seq![0x46u8, 0x52u8])))
    } else if l == seq![0x6eu8, 0x62u8] {
        Some((seq![0x4cu8, 0x61u8, 0x74u8, 0x6eu8], Some(seq![0x4eu8, 0x4fu8])))
    } else if l == seq![0x6du8, 0x6bu8] {
        Some((seq![0x43u8, 0x79u8, 0x72u8, 0x6cu8], Some(seq![0x4du8, 0x4bu8])))
    } else if l == seq![0x75u8, 0x6bu8] {
        Some((seq![0x43u8, 0x79u8, 0x72u8, 0x6cu8], Some(seq![0x55u8, 0x41u8])))
    } else if l == seq![0x67u8, 0x61u8, 0x6eu8] {
        Some((seq![0x48u8, 0x61u8, 0x6eu8, 0x73u8], Some(seq![0x43u8, 0x4eu8])))
    } else if l == seq![0x75u8, 0x6eu8, 0x72u8] {
        Some((seq![0x42u8, 0x65u8, 0x6eu8, 0x67u8], Some(seq![0x49u8, 0x4eu8])))
    } else if l == seq![0x74u8, 0x75u8, 0x71u8] {
        Some((seq![0x4cu8, 0x61u8, 0x74u8, 0x6eu8], None))
    } else if l == seq![0x6bu8, 0x6cu8, 0x78u8] {
        Some((seq![0x4cu8, 0x61u8, 0x74u8, 0x6eu8], None))
    } else if l == seq![0x6eu8, 0x67u8] {
        Some((seq![0x4cu8, 0x61u8, 0x74u8, 0x6eu8], Some(seq![0x4eu8, 0x41u8])))
    } else if l == seq![0x7au8, 0x68u8] {
        Some((seq![0x48u8, 0x61u8, 0x6eu8, 0x73u8], Some(seq![0x43u8, 0x4eu8])))
    } else if l == seq![0x73u8, 0x72u8] {
        Some((seq![0x43u8, 0x79u8, 0x72u8, 0x6cu8], Some(seq![0x52u8, 0x53u8])))
    } else if l == seq![0x6bu8, 0x6bu8] {
        Some((seq![0x43u8, 0x79u8, 0x72u8, 0x6cu8], Some(seq![0x4bu8, 0x5au8])))
    } else if l == seq![0x6du8, 0x6eu8] {
        Some((seq![0x43u8, 0x79u8, 0x72u8, 0x6cu8], Some(seq![0x4du8, 0x4eu8])))
    } else if l == seq![0x6cu8, 0x69u8, 0x66u8] {
        Some((seq![0x44u8, 0x65u8, 0x76u8, 0x61u8], Some(seq![0x4eu8, 0x50u8])))
    } else if l == seq![0x79u8, 0x75u8, 0x65u8] {
        Some((seq![0x48u8, 0x61u8, 0x6eu8, 0x74u8], Some(seq![0x48u8, 0x4bu8])))
    } else if l == seq![0x75u8, 0x67u8] {
        Some((seq![0x41u8, 0x72u8, 0x61u8, 0x62u8], Some(seq![0x43u8, 0x4eu8])))
    } else if l == seq![0x72u8, 0x75u8] {
        Some((seq![0x43u8, 0x79u8, 0x72u8, 0x6cu8], Some(seq![0x52u8, 0x55u8])))
    } else if l == seq![0x61u8, 0x72u8] {
        Some((seq![0x41u8, 0x72u8, 0x61u8, 0x62u8], Some(seq![0x45u8, 0x47u8])))
    } else if l == seq![0x74u8, 0x68u8] {
        Some((seq![0x54u8, 0x68u8, 0x61u8, 0x69u8], Some(seq![0x54u8, 0x48u8])))
    } else if l == seq![0x6bu8, 0x75u8] {
        Some((seq![0x4cu8, 0x61u8, 0x74u8, 0x6eu8], Some(seq![0x54u8, 0x52u8])))
    } else if l == seq![0x6cu8, 0x63u8, 0x70u8] {
        Some((seq![0x54u8, 0x68u8, 0x61u8, 0x69u8], Some(seq![0x43u8, 0x4eu8])))
    } else if l == seq![0x66u8, 0x61u8] {
        Some((seq![0x41u8, 0x72u8, 0x61u8, 0x62u8], Some(seq![0x49u8, 0x52u8])))
    } else {
        None
    }
}

/// The language-and-region entries: pair to script.
pub open spec fn lang_region_spec(l: Seq<u8>, r: Seq<u8>) -> Option<Seq<u8>> {
    if l == seq![0x73u8, 0x72u8] && r == seq![0x4du8, 0x45u8] {
        Some(seq![0x4cu8, 0x61u8, 0x74u8, 0x6eu8])
    } else if l == seq![0x7au8, 0x68u8] && r == seq![0x54u8, 0x57u8] {
        Some(seq![0x48u8, 0x61u8, 0x6eu8, 0x74u8])
    } else if l == seq![0x7au8, 0x68u8] && r == seq![0x48u8, 0x4bu8] {
        Some(seq![0x48u8, 0x61u8, 0x6eu8, 0x74u8])
    } else if l == seq![0x7au8, 0x68u8] && r == seq![0x4du8, 0x4fu8] {
        Some(seq![0x48u8, 0x61u8, 0x6eu8, 0x74u8])
    } else {
        None
    }
}

/// The language-and-script entries: pair to region.
pub open spec fn lang_script_spec(l: Seq<u8>, s: Seq<u8>) -> Option<Seq<u8>> {
    if l == seq![0x75u8, 0x67u8] && s == seq![0x43u8, 0x79u8, 0x72u8, 0x6cu8] {
        Some(seq![0x4bu8, 0x5au8])
    } else if l == seq![0x6du8, 0x6eu8] && s == seq![0x4du8, 0x6fu8, 0x6eu8, 0x67u8] {
        Some(seq![0x43u8, 0x4eu8])
    } else if l == seq![0x6cu8, 0x69u8, 0x66u8] && s == seq![0x4cu8, 0x69u8, 0x6du8, 0x62u8] {
        Some(seq![0x49u8, 0x4eu8])
    } else if l == seq![0x79u8, 0x75u8, 0x65u8] && s == seq![0x48u8, 0x61u8, 0x6eu8, 0x73u8] {
        Some(seq![0x43u8, 0x4eu8])
    } else if l == seq![0x75u8, 0x6eu8, 0x72u8] && s == seq![0x44u8, 0x65u8, 0x76u8, 0x61u8] {
        Some(seq![0x4eu8, 0x50u8])
    } else if l == seq![0x6bu8, 0x6bu8] && s == seq![0x41u8, 0x72u8, 0x61u8, 0x62u8] {
        Some(seq![0x43u8, 0x4eu8])
    } else if l == seq![0x7au8, 0x68u8] && s == seq![0x48u8, 0x61u8, 0x6eu8, 0x74u8] {
        Some(seq![0x54u8, 0x57u8])
    } else {
        None
    }
}

/// The script-and-region entries: pair to language.
pub open spec fn script_region_spec(s: Seq<u8>, r: Seq<u8>) -> Option<Seq<u8>> {
    if s == seq![0x4cu8, 0x61u8, 0x74u8, 0x6eu8] && r == seq![0x41u8, 0x4du8] {
        Some(seq![0x6bu8, 0x75u8])
    } else if s == seq![0x54u8, 0x68u8, 0x61u8, 0x69u8] && r == seq![0x43u8, 0x4eu8] {
        Some(seq![0x6cu8, 0x63u8, 0x70u8])
    } else {
        None
    }
}

/// The script-only entries: script to (language, region).
pub open spec fn script_only_spec(s: Seq<u8>) -> Option<(Seq<u8>, Seq<u8>)> {
    if s == seq![0x41u8, 0x72u8, 0x61u8, 0x62u8] {
        Some((seq![0x61u8, 0x72u8], seq![0x45u8, 0x47u8]))
    } else if s == seq![0x43u8, 0x79u8, 0x72u8, 0x6cu8] {
        Some((seq![0x72u8, 0x75u8], seq![0x52u8, 0x55u8]))
    } else if s == seq![0x4cu8, 0x61u8, 0x74u8, 0x6eu8] {
        Some((seq![0x65u8, 0x6eu8], seq![0x55u8, 0x53u8]))
    } else if s == seq![0x54u8, 0x68u8, 0x61u8, 0x69u8] {
        Some((seq![0x74u8, 0x68u8], seq![0x54u8, 0x48u8]))
    } else if s == seq![0x48u8, 0x61u8, 0x6eu8, 0x73u8] {
        Some((seq![0x7au8, 0x68u8], seq![0x43u8, 0x4eu8]))
    } else if s == seq![0x48u8, 0x61u8, 0x6eu8, 0x74u8] {
        Some((seq![0x7au8, 0x68u8], seq![0x54u8, 0x57u8]))
    } else if s == seq![0x42u8, 0x65u8, 0x6eu8, 0x67u8] {
        Some((seq![0x62u8, 0x6eu8], seq![0x42u8, 0x44u8]))
    } else if s == seq![0x44u8, 0x65u8, 0x76u8, 0x61u8] {
        Some((seq![0x68u8, 0x69u8], seq![0x49u8, 0x4eu8]))
    } else if s == seq![0x4du8, 0x6fu8, 0x6eu8, 0x67u8] {
        Some((seq![0x6du8, 0x6eu8], seq![0x43u8, 0x4eu8]))
    } else if s == seq![0x4cu8, 0x69u8, 0x6du8, 0x62u8] {
        Some((seq![0x6cu8, 0x69u8, 0x66u8], seq![0x49u8, 0x4eu8]))
    } else {
        None
    }
}

/// The region-only entries: region to (language, script).
pub open spec fn region_only_spec(r: Seq<u8>) -> Option<(Seq<u8>, Seq<u8>)> {
    if r == seq![0x50u8, 0x4cu8] {
        Some((seq![0x70u8, 0x6cu8], seq![0x4cu8, 0x61u8, 0x74u8, 0x6eu8]))
    } else if r == seq![0x55u8, 0x53u8] {
        Some((seq![0x65u8, 0x6eu8], seq![0x4cu8, 0x61u8, 0x74u8, 0x6eu8]))
    } else if r == seq![0x43u8, 0x4eu8] {
        Some((seq![0x7au8, 0x68u8], seq![0x48u8, 0x61u8, 0x6eu8, 0x73u8]))
    } else if r == seq![0x47u8, 0x42u8] {
        Some((seq![0x65u8, 0x6eu8], seq![0x4cu8, 0x61u8, 0x74u8, 0x6eu8]))
    } else if r == seq![0x44u8, 0x45u8] {
        Some((seq![0x64u8, 0x65u8], seq![0x4cu8, 0x61u8, 0x74u8, 0x6eu8]))
    } else if r == seq![0x46u8, 0x52u8] {
        Some((seq![0x66u8, 0x72u8], seq![0x4cu8, 0x61u8, 0x74u8, 0x6eu8]))
    } else if r == seq![0x49u8, 0x54u8] {
        Some((seq![0x69u8, 0x74u8], seq![0x4cu8, 0x61u8, 0x74u8, 0x6eu8]))
    } else if r == seq![0x45u8, 0x53u8] {
        Some((seq![0x65u8, 0x73u8], seq![0x4cu8, 0x61u8, 0x74u8, 0x6eu8]))
    } else if r == seq![0x52u8, 0x55u8] {
        Some((seq![0x72u8, 0x75u8], seq![0x43u8, 0x79u8, 0x72u8, 0x6cu8]))
    } else if r == seq![0x54u8, 0x57u8] {
        Some((seq![0x7au8, 0x68u8], seq![0x48u8, 0x61u8, 0x6eu8, 0x74u8]))
    } else if r == seq![0x49u8, 0x4eu8] {
        Some((seq![0x68u8, 0x69u8], seq![0x44u8, 0x65u8, 0x76u8, 0x61u8]))
    } else if r == seq![0x55u8, 0x41u8] {
        Some((seq![0x75u8, 0x6bu8], seq![0x43u8, 0x79u8, 0x72u8, 0x6cu8]))
    } else {
        None
    }
}

/// Looks up the language-only table. Table values are canonical
/// subtags, so the results carry their well-formedness.
fn lang_only_lookup(l: &TinyStr8) -> (r: Option<(TinyStr4, Option<TinyStr4>)>)
    requires
        l.wf(),
    ensures
        r is Some <==> lang_only_spec(l@) is Some,
        r matches Some(p) ==> lang_only_spec(l@) matches Some(q) && p.0.wf() && p.0@ == q.0
            && is_canon_script(p.0@) && (match (p.1, q.1) {
            (Some(x), Some(y)) => x.wf() && x@ == y && is_canon_region(x@),
            (None, None) => true,
            _ => false,
        }),
{
    let c0 = mk8(0x65, 0x6e, 0x00, 0x00, 0x00, 0x00, 0x00, 0x00);
    proof {
        assert(c0@ =~= seq![0x65u8, 0x6eu8]);
    }
    if l.raw_word() == c0.raw_word() {
        let sc = mk4(0x4c, 0x61, 0x74, 0x6e);
        let rg = mk4(0x55, 0x53, 0x00, 0x00);
        proof {
            assert(sc@ =~= seq![0x4cu8, 0x61u8, 0x74u8, 0x6eu8]);
            assert(is_canon_script(sc@)) by {
                assert forall|j: int| 1 <= j < sc@.len() implies is_lower_alpha(sc@[j]) by {
                if j == 1 {
                } else if j == 2 {
                } else {
                }
                }
            }
            assert(rg@ =~= seq![0x55u8, 0x53u8]);
            assert(is_canon_region(rg@)) by {
                assert forall|j: int| 0 <= j < rg@.len() implies is_upper_alpha(rg@[j]) by {
                if j == 0 {
                } else {
                }
                }
            }
        }
        return Some((sc, Some(rg)));
    }
        proof {
            if l@ == c0@ {
                lemma_view_injective(l.word, c0.word);
            }
        }
    let c1 = mk8(0x65, 0x73, 0x00, 0x00, 0x00, 0x00, 0x00, 0x00);
    proof {
        assert(c1@ =~= seq![0x65u8, 0x73u8]);
    }
    if l.raw_word() == c1.raw_word() {
        let sc = mk4(0x4c, 0x61, 0x74, 0x6e);
        let rg = mk4(0x45, 0x53, 0x00, 0x00);
        proof {
            assert(sc@ =~= seq![0x4cu8, 0x61u8, 0x74u8, 0x6eu8]);
            assert(is_canon_script(sc@)) by {
                assert forall|j: int| 1 <= j < sc@.len() implies is_lower_alpha(sc@[j]) by {
                if j == 1 {
                } else if j == 2 {
                } else {
                }
                }
            }
            assert(rg@ =~= seq![0x45u8, 0x53u8]);
            assert(is_canon_region(rg@)) by {
                assert forall|j: int| 0 <= j < rg@.len() implies is_upper_alpha(rg@[j]) by {
                if j == 0 {
                } else {
                }
                }
            }
        }
        return Some((sc, Some(rg)));
    }
        proof {
            if l@ == c1@ {
                lemma_view_injective(l.word, c1.word);
            }
        }
    let c2 = mk8(0x69, 0x74, 0x00, 0x00, 0x00, 0x00, 0x00, 0x00);
    proof {
        assert(c2@ =~= seq![0x69u8, 0x74u8]);
    }
    if l.raw_word() == c2.raw_word() {
        let sc = mk4(0x4c, 0x61, 0x74, 0x6e);
        let rg = mk4(0x49, 0x54, 0x00, 0x00);
        proof {
            assert(sc@ =~= seq![0x4cu8, 0x61u8, 0x74u8, 0x6eu8]);
            assert(is_canon_script(sc@)) by {
                assert forall|j: int| 1 <= j < sc@.len() implies is_lower_alpha(sc@[j]) by {
                if j == 1 {
                } else if j == 2 {
                } else {
                }
                }
            }
            assert(rg@ =~= seq![0x49u8, 0x54u8]);
            assert(is_canon_region(rg@)) by {
                assert forall|j: int| 0 <= j < rg@.len() implies is_upper_alpha(rg@[j]) by {
                if j == 0 {
                } else {
                }
                }
            }
        }
        return Some((sc, Some(rg)));
    }
        proof {
            if l@ == c2@ {
                lemma_view_injective(l.word, c2.word);
            }
        }
    let c3 = mk8(0x64, 0x65, 0x00, 0x00, 0x00, 0x00, 0x00, 0x00);
    proof {
        assert(c3@ =~= seq![0x64u8, 0x65u8]);
    }
    if l.raw_word() == c3.raw_word() {
        let sc = mk4(0x4c, 0x61, 0x74, 0x6e);
        let rg = mk4(0x44, 0x45, 0x00, 0x00);
        proof {
            assert(sc@ =~= seq![0x4cu8, 0x61u8, 0x74u8, 0x6eu8]);
            assert(is_canon_script(sc@)) by {
                assert forall|j: int| 1 <= j < sc@.len() implies is_lower_alpha(sc@[j]) by {
                if j == 1 {
                } else if j == 2 {
                } else {
                }
                }
            }
            assert(rg@ =~= seq![0x44u8, 0x45u8]);
            assert(is_canon_region(rg@)) by {
                assert forall|j: int| 0 <= j < rg@.len() implies is_upper_alpha(rg@[j]) by {
                if j == 0 {
                } else {
                }
                }
            }
        }
        return Some((sc, Some(rg)));
    }
        proof {
            if l@ == c3@ {
                lemma_view_injective(l.word, c3.word);
            }
        }
    let c4 = mk8(0x70, 0x6c, 0x00, 0x00, 0x00, 0x00, 0x00, 0x00);
    proof {
        assert(c4@ =~= seq![0x70u8, 0x6cu8]);
    }
    if l.raw_word() == c4.raw_word() {
        let sc = mk4(0x4c, 0x61, 0x74, 0x6e);
        let rg = mk4(0x50, 0x4c, 0x00, 0x00);
        proof {
            assert(sc@ =~= seq![0x4cu8, 0x61u8, 0x74u8, 0x6eu8]);
            assert(is_canon_script(sc@)) by {
                assert forall|j: int| 1 <= j < sc@.len() implies is_lower_alpha(sc@[j]) by {
                if j == 1 {
                } else if j == 2 {
                } else {
                }
                }
            }
            assert(rg@ =~= seq![0x50u8, 0x4cu8]);
            assert(is_canon_region(rg@)) by {
                assert forall|j: int| 0 <= j < rg@.len() implies is_upper_alpha(rg@[j]) by {
                if j == 0 {
                } else {
                }
                }
            }
        }
        return Some((sc, Some(rg)));
    }
        proof {
            if l@ == c4@ {
                lemma_view_injective(l.word, c4.word);
            }
        }
    let c5 = mk8(0x66, 0x72, 0x00, 0x00, 0x00, 0x00, 0x00, 0x00);
    proof {
        assert(c5@ =~= seq![0x66u8, 0x72u8]);
    }
    if l.raw_word() == c5.raw_word() {
        let sc = mk4(0x4c, 0x61, 0x74, 0x6e);
        let rg = mk4(0x46, 0x52, 0x00, 0x00);
        proof {
            assert(sc@ =~= seq![0x4cu8, 0x61u8, 0x74u8, 0x6eu8]);
            assert(is_canon_script(sc@)) by {
                assert forall|j: int| 1 <= j < sc@.len() implies is_lower_alpha(sc@[j]) by {
                if j == 1 {
                } else if j == 2 {
                } else {
                }
                }
            }
            assert(rg@ =~= seq![0x46u8, 0x52u8]);
            assert(is_canon_region(rg@)) by {
                assert forall|j: int| 0 <= j < rg@.len() implies is_upper_alpha(rg@[j]) by {
                if j == 0 {
                } else {
                }
                }
            }
        }
        return Some((sc, Some(rg)));
    }
        proof {
            if l@ == c5@ {
                lemma_view_injective(l.word, c5.word);
            }
        }
    let c6 = mk8(0x6e, 0x62, 0x00, 0x00, 0x00, 0x00, 0x00, 0x00);
    proof {
        assert(c6@ =~= seq![0x6eu8, 0x62u8]);
    }
    if l.raw_word() == c6.raw_word() {
        let sc = mk4(0x4c, 0x61, 0x74, 0x6e);
        let rg = mk4(0x4e, 0x4f, 0x00, 0x00);
        proof {
            assert(sc@ =~= seq![0x4cu8, 0x61u8, 0x74u8, 0x6eu8]);
            assert(is_canon_script(sc@)) by {
                assert forall|j: int| 1 <= j < sc@.len() implies is_lower_alpha(sc@[j]) by {
                if j == 1 {
                } else if j == 2 {
                } else {
                }
                }
            }
            assert(rg@ =~= seq![0x4eu8, 0x4fu8]);
            assert(is_canon_region(rg@)) by {
                assert forall|j: int| 0 <= j < rg@.len() implies is_upper_alpha(rg@[j]) by {
                if j == 0 {
                } else {
                }
                }
            }
        }
        return Some((sc, Some(rg)));
    }
        proof {
            if l@ == c6@ {
                lemma_view_injective(l.word, c6.word);
            }
        }
    let c7 = mk8(0x6d, 0x6b, 0x00, 0x00, 0x00, 0x00, 0x00, 0x00);
    proof {
        assert(c7@ =~= seq![0x6du8, 0x6bu8]);
    }
    if l.raw_word() == c7.raw_word() {
        let sc = mk4(0x43, 0x79, 0x72, 0x6c);
        let rg = mk4(0x4d, 0x4b, 0x00, 0x00);
        proof {
            assert(sc@ =~= seq![0x43u8, 0x79u8, 0x72u8, 0x6cu8]);
            assert(is_canon_script(sc@)) by {
                assert forall|j: int| 1 <= j < sc@.len() implies is_lower_alpha(sc@[j]) by {
                if j == 1 {
                } else if j == 2 {
                } else {
                }
                }
            }
            assert(rg@ =~= seq![0x4du8, 0x4bu8]);
            assert(is_canon_region(rg@)) by {
                assert forall|j: int| 0 <= j < rg@.len() implies is_upper_alpha(rg@[j]) by {
                if j == 0 {
                } else {
                }
                }
            }
        }
        return Some((sc, Some(rg)));
    }
        proof {
            if l@ == c7@ {
                lemma_view_injective(l.word, c7.word);
            }
        }
    let c8 = mk8(0x75, 0x6b, 0x00, 0x00, 0x00, 0x00, 0x00, 0x00);
    proof {
        assert(c8@ =~= seq![0x75u8, 0x6bu8]);
    }
    if l.raw_word() == c8.raw_word() {
        let sc = mk4(0x43, 0x79, 0x72, 0x6c);
        let rg = mk4(0x55, 0x41, 0x00, 0x00);
        proof {
            assert(sc@ =~= seq![0x43u8, 0x79u8, 0x72u8, 0x6cu8]);
            assert(is_canon_script(sc@)) by {
                assert forall|j: int| 1 <= j < sc@.len() implies is_lower_alpha(sc@[j]) by {
                if j == 1 {
                } else if j == 2 {
                } else {
                }
                }
            }
            assert(rg@ =~= seq![0x55u8, 0x41u8]);
            assert(is_canon_region(rg@)) by {
                assert forall|j: int| 0 <= j < rg@.len() implies is_upper_alpha(rg@[j]) by {
                if j == 0 {
                } else {
                }
                }
            }
        }
        return Some((sc, Some(rg)));
    }
        proof {
            if l@ == c8@ {
                lemma_view_injective(l.word, c8.word);
            }
        }
    let c9 = mk8(0x67, 0x61, 0x6e, 0x00, 0x00, 0x00, 0x00, 0x00);
    proof {
        assert(c9@ =~= seq![0x67u8, 0x61u8, 0x6eu8]);
    }
    if l.raw_word() == c9.raw_word() {
        let sc = mk4(0x48, 0x61, 0x6e, 0x73);
        let rg = mk4(0x43, 0x4e, 0x00, 0x00);
        proof {
            assert(sc@ =~= seq![0x48u8, 0x61u8, 0x6eu8, 0x73u8]);
            assert(is_canon_script(sc@)) by {
                assert forall|j: int| 1 <= j < sc@.len() implies is_lower_alpha(sc@[j]) by {
                if j == 1 {
                } else if j == 2 {
                } else {
                }
                }
            }
            assert(rg@ =~= seq![0x43u8, 0x4eu8]);
            assert(is_canon_region(rg@)) by {
                assert forall|j: int| 0 <= j < rg@.len() implies is_upper_alpha(rg@[j]) by {
                if j == 0 {
                } else {
                }
                }
            }
        }
        return Some((sc, Some(rg)));
    }
        proof {
            if l@ == c9@ {
                lemma_view_injective(l.word, c9.word);
            }
        }
    let c10 = mk8(0x75, 0x6e, 0x72, 0x00, 0x00, 0x00, 0x00, 0x00);
    proof {
        assert(c10@ =~= seq![0x75u8, 0x6eu8, 0x72u8]);
    }
    if l.raw_word() == c10.raw_word() {
        let sc = mk4(0x42, 0x65, 0x6e, 0x67);
        let rg = mk4(0x49, 0x4e, 0x00, 0x00);
        proof {
            assert(sc@ =~= seq![0x42u8, 0x65u8, 0x6eu8, 0x67u8]);
            assert(is_canon_script(sc@)) by {
                assert forall|j: int| 1 <= j < sc@.len() implies is_lower_alpha(sc@[j]) by {
                if j == 1 {
                } else if j == 2 {
                } else {
                }
                }
            }
            assert(rg@ =~= seq![0x49u8, 0x4eu8]);
            assert(is_canon_region(rg@)) by {
                assert forall|j: int| 0 <= j < rg@.len() implies is_upper_alpha(rg@[j]) by {
                if j == 0 {
                } else {
                }
                }
            }
        }
        return Some((sc, Some(rg)));
    }
        proof {
            if l@ == c10@ {
                lemma_view_injective(l.word, c10.word);
            }
        }
    let c11 = mk8(0x74, 0x75, 0x71, 0x00, 0x00, 0x00, 0x00, 0x00);
    proof {
        assert(c11@ =~= seq![0x74u8, 0x75u8, 0x71u8]);
    }
    if l.raw_word() == c11.raw_word() {
        let sc = mk4(0x4c, 0x61, 0x74, 0x6e);
        proof {
            assert(sc@ =~= seq![0x4cu8, 0x61u8, 0x74u8, 0x6eu8]);
            assert(is_canon_script(sc@)) by {
                assert forall|j: int| 1 <= j < sc@.len() implies is_lower_alpha(sc@[j]) by {
                if j == 1 {
                } else if j == 2 {
                } else {
                }
                }
            }
        }
        return Some((sc, None));
    }
        proof {
            if l@ == c11@ {
                lemma_view_injective(l.word, c11.word);
            }
        }
    let c12 = mk8(0x6b, 0x6c, 0x78, 0x00, 0x00, 0x00, 0x00, 0x00);
    proof {
        assert(c12@ =~= seq![0x6bu8, 0x6cu8, 0x78u8]);
    }
    if l.raw_word() == c12.raw_word() {
        let sc = mk4(0x4c, 0x61, 0x74, 0x6e);
        proof {
            assert(sc@ =~= seq![0x4cu8, 0x61u8, 0x74u8, 0x6eu8]);
            assert(is_canon_script(sc@)) by {
                assert forall|j: int| 1 <= j < sc@.len() implies is_lower_alpha(sc@[j]) by {
                if j == 1 {
                } else if j == 2 {
                } else {
                }
                }
            }
        }
        return Some((sc, None));
    }
        proof {
            if l@ == c12@ {
                lemma_view_injective(l.word, c12.word);
            }
        }
    let c13 = mk8(0x6e, 0x67, 0x00, 0x00, 0x00, 0x00, 0x00, 0x00);
    proof {
        assert(c13@ =~= seq![0x6eu8, 0x67u8]);
    }
    if l.raw_word() == c13.raw_word() {
        let sc = mk4(0x4c, 0x61, 0x74, 0x6e);
        let rg = mk4(0x4e, 0x41, 0x00, 0x00);
        proof {
            assert(sc@ =~= seq![0x4cu8, 0x61u8, 0x74u8, 0x6eu8]);
            assert(is_canon_script(sc@)) by {
                assert forall|j: int| 1 <= j < sc@.len() implies is_lower_alpha(sc@[j]) by {
                if j == 1 {
                } else if j == 2 {
                } else {
                }
                }
            }
            assert(rg@ =~= seq![0x4eu8, 0x41u8]);
            assert(is_canon_region(rg@)) by {
                assert forall|j: int| 0 <= j < rg@.len() implies is_upper_alpha(rg@[j]) by {
                if j == 0 {
                } else {
                }
                }
            }
        }
        return Some((sc, Some(rg)));
    }
        proof {
            if l@ == c13@ {
                lemma_view_injective(l.word, c13.word);
            }
        }
    let c14 = mk8(0x7a, 0x68, 0x00, 0x00, 0x00, 0x00, 0x00, 0x00);
    proof {
        assert(c14@ =~= seq![0x7au8, 0x68u8]);
    }
    if l.raw_word() == c14.raw_word() {
        let sc = mk4(0x48, 0x61, 0x6e, 0x73);
        let rg = mk4(0x43, 0x4e, 0x00, 0x00);
        proof {
            assert(sc@ =~= seq![0x48u8, 0x61u8, 0x6eu8, 0x73u8]);
            assert(is_canon_script(sc@)) by {
                assert forall|j: int| 1 <= j < sc@.len() implies is_lower_alpha(sc@[j]) by {
                if j == 1 {
                } else if j == 2 {
                } else {
                }
                }
            }
            assert(rg@ =~= seq![0x43u8, 0x4eu8]);
            assert(is_canon_region(rg@)) by {
                assert forall|j: int| 0 <= j < rg@.len() implies is_upper_alpha(rg@[j]) by {
                if j == 0 {
                } else {
                }
                }
            }
        }
        return Some((sc, Some(rg)));
    }
        proof {
            if l@ == c14@ {
                lemma_view_injective(l.word, c14.word);
            }
        }
    let c15 = mk8(0x73, 0x72, 0x00, 0x00, 0x00, 0x00, 0x00, 0x00);
    proof {
        assert(c15@ =~= seq![0x73u8, 0x72u8]);
    }
    if l.raw_word() == c15.raw_word() {
        let sc = mk4(0x43, 0x79, 0x72, 0x6c);
        let rg = mk4(0x52, 0x53, 0x00, 0x00);
        proof {
            assert(sc@ =~= seq![0x43u8, 0x79u8, 0x72u8, 0x6cu8]);
            assert(is_canon_script(sc@)) by {
                assert forall|j: int| 1 <= j < sc@.len() implies is_lower_alpha(sc@[j]) by {
                if j == 1 {
                } else if j == 2 {
                } else {
                }
                }
            }
            assert(rg@ =~= seq![0x52u8, 0x53u8]);
            assert(is_canon_region(rg@)) by {
                assert forall|j: int| 0 <= j < rg@.len() implies is_upper_alpha(rg@[j]) by {
                if j == 0 {
                } else {
                }
                }
            }
        }
        return Some((sc, Some(rg)));
    }
        proof {
            if l@ == c15@ {
                lemma_view_injective(l.word, c15.word);
            }
        }
    let c16 = mk8(0x6b, 0x6b, 0x00, 0x00, 0x00, 0x00, 0x00, 0x00);
    proof {
        assert(c16@ =~= seq![0x6bu8, 0x6bu8]);
    }
    if l.raw_word() == c16.raw_word() {
        let sc = mk4(0x43, 0x79, 0x72, 0x6c);
        let rg = mk4(0x4b, 0x5a, 0x00, 0x00);
        proof {
            assert(sc@ =~= seq![0x43u8, 0x79u8, 0x72u8, 0x6cu8]);
            assert(is_canon_script(sc@)) by {
                assert forall|j: int| 1 <= j < sc@.len() implies is_lower_alpha(sc@[j]) by {
                if j == 1 {
                } else if j == 2 {
                } else {
                }
                }
            }
            assert(rg@ =~= seq![0x4bu8, 0x5au8]);
            assert(is_canon_region(rg@)) by {
                assert forall|j: int| 0 <= j < rg@.len() implies is_upper_alpha(rg@[j]) by {
                if j == 0 {
                } else {
                }
                }
            }
        }
        return Some((sc, Some(rg)));
    }
        proof {
            if l@ == c16@ {
                lemma_view_injective(l.word, c16.word);
            }
        }
    let c17 = mk8(0x6d, 0x6e, 0x00, 0x00, 0x00, 0x00, 0x00, 0x00);
    proof {
        assert(c17@ =~= seq![0x6du8, 0x6eu8]);
    }
    if l.raw_word() == c17.raw_word() {
        let sc = mk4(0x43, 0x79, 0x72, 0x6c);
        let rg = mk4(0x4d, 0x4e, 0x00, 0x00);
        proof {
            assert(sc@ =~= seq![0x43u8, 0x79u8, 0x72u8, 0x6cu8]);
            assert(is_canon_script(sc@)) by {
                assert forall|j: int| 1 <= j < sc@.len() implies is_lower_alpha(sc@[j]) by {
                if j == 1 {
                } else if j == 2 {
                } else {
                }
                }
            }
            assert(rg@ =~= seq![0x4du8, 0x4eu8]);
            assert(is_canon_region(rg@)) by {
                assert forall|j: int| 0 <= j < rg@.len() implies is_upper_alpha(rg@[j]) by {
                if j == 0 {
                } else {
                }
                }
            }
        }
        return Some((sc, Some(rg)));
    }
        proof {
            if l@ == c17@ {
                lemma_view_injective(l.word, c17.word);
            }
        }
    let c18 = mk8(0x6c, 0x69, 0x66, 0x00, 0x00, 0x00, 0x00, 0x00);
    proof {
        assert(c18@ =~= seq![0x6cu8, 0x69u8, 0x66u8]);
    }
    if l.raw_word() == c18.raw_word() {
        let sc = mk4(0x44, 0x65, 0x76, 0x61);
        let rg = mk4(0x4e, 0x50, 0x00, 0x00);
        proof {
            assert(sc@ =~= seq![0x44u8, 0x65u8, 0x76u8, 0x61u8]);
            assert(is_canon_script(sc@)) by {
                assert forall|j: int| 1 <= j < sc@.len() implies is_lower_alpha(sc@[j]) by {
                if j == 1 {
                } else if j == 2 {
                } else {
                }
                }
            }
            assert(rg@ =~= seq![0x4eu8, 0x50u8]);
            assert(is_canon_region(rg@)) by {
                assert forall|j: int| 0 <= j < rg@.len() implies is_upper_alpha(rg@[j]) by {
                if j == 0 {
                } else {
                }
                }
            }
        }
        return Some((sc, Some(rg)));
    }
        proof {
            if l@ == c18@ {
                lemma_view_injective(l.word, c18.word);
            }
        }
    let c19 = mk8(0x79, 0x75, 0x65, 0x00, 0x00, 0x00, 0x00, 0x00);
    proof {
        assert(c19@ =~= seq![0x79u8, 0x75u8, 0x65u8]);
    }
    if l.raw_word() == c19.raw_word() {
        let sc = mk4(0x48, 0x61, 0x6e, 0x74);
        let rg = mk4(0x48, 0x4b, 0x00, 0x00);
        proof {
            assert(sc@ =~= seq![0x48u8, 0x61u8, 0x6eu8, 0x74u8]);
            assert(is_canon_script(sc@)) by {
                assert forall|j: int| 1 <= j < sc@.len() implies is_lower_alpha(sc@[j]) by {
                if j == 1 {
                } else if j == 2 {
                } else {
                }
                }
            }
            assert(rg@ =~= seq![0x48u8, 0x4bu8]);
            assert(is_canon_region(rg@)) by {
                assert forall|j: int| 0 <= j < rg@.len() implies is_upper_alpha(rg@[j]) by {
                if j == 0 {
                } else {
                }
                }
            }
        }
        return Some((sc, Some(rg)));
    }
        proof {
            if l@ == c19@ {
                lemma_view_injective(l.word, c19.word);
            }
        }
    let c20 = mk8(0x75, 0x67, 0x00, 0x00, 0x00, 0x00, 0x00, 0x00);
    proof {
        assert(c20@ =~= seq![0x75u8, 0x67u8]);
    }
    if l.raw_word() == c20.raw_word() {
        let sc = mk4(0x41, 0x72, 0x61, 0x62);
        let rg = mk4(0x43, 0x4e, 0x00, 0x00);
        proof {
            assert(sc@ =~= seq![0x41u8, 0x72u8, 0x61u8, 0x62u8]);
            assert(is_canon_script(sc@)) by {
                assert forall|j: int| 1 <= j < sc@.len() implies is_lower_alpha(sc@[j]) by {
                if j == 1 {
                } else if j == 2 {
                } else {
                }
                }
            }
            assert(rg@ =~= seq![0x43u8, 0x4eu8]);
            assert(is_canon_region(rg@)) by {
                assert forall|j: int| 0 <= j < rg@.len() implies is_upper_alpha(rg@[j]) by {
                if j == 0 {
                } else {
                }
                }
            }
        }
        return Some((sc, Some(rg)));
    }
        proof {
            if l@ == c20@ {
                lemma_view_injective(l.word, c20.word);
            }
        }
    let c21 = mk8(0x72, 0x75, 0x00, 0x00, 0x00, 0x00, 0x00, 0x00);
    proof {
        assert(c21@ =~= seq![0x72u8, 0x75u8]);
    }
    if l.raw_word() == c21.raw_word() {
        let sc = mk4(0x43, 0x79, 0x72, 0x6c);
        let rg = mk4(0x52, 0x55, 0x00, 0x00);
        proof {
            assert(sc@ =~= seq![0x43u8, 0x79u8, 0x72u8, 0x6cu8]);
            assert(is_canon_script(sc@)) by {
                assert forall|j: int| 1 <= j < sc@.len() implies is_lower_alpha(sc@[j]) by {
                if j == 1 {
                } else if j == 2 {
                } else {
                }
                }
            }
            assert(rg@ =~= seq![0x52u8, 0x55u8]);
            assert(is_canon_region(rg@)) by {
                assert forall|j: int| 0 <= j < rg@.len() implies is_upper_alpha(rg@[j]) by {
                if j == 0 {
                } else {
                }
                }
            }
        }
        return Some((sc, Some(rg)));
    }
        proof {
            if l@ == c21@ {
                lemma_view_injective(l.word, c21.word);
            }
        }
    let c22 = mk8(0x61, 0x72, 0x00, 0x00, 0x00, 0x00, 0x00, 0x00);
    proof {
        assert(c22@ =~= seq![0x61u8, 0x72u8]);
    }
    if l.raw_word() == c22.raw_word() {
        let sc = mk4(0x41, 0x72, 0x61, 0x62);
        let rg = mk4(0x45, 0x47, 0x00, 0x00);
        proof {
            assert(sc@ =~= seq![0x41u8, 0x72u8, 0x61u8, 0x62u8]);
            assert(is_canon_script(sc@)) by {
                assert forall|j: int| 1 <= j < sc@.len() implies is_lower_alpha(sc@[j]) by {
                if j == 1 {
                } else if j == 2 {
                } else {
                }
                }
            }
            assert(rg@ =~= seq![0x45u8, 0x47u8]);
            assert(is_canon_region(rg@)) by {
                assert forall|j: int| 0 <= j < rg@.len() implies is_upper_alpha(rg@[j]) by {
                if j == 0 {
                } else {
                }
                }
            }
        }
        return Some((sc, Some(rg)));
    }
        proof {
            if l@ == c22@ {
                lemma_view_injective(l.word, c22.word);
            }
        }
    let c23 = mk8(0x74, 0x68, 0x00, 0x00, 0x00, 0x00, 0x00, 0x00);
    proof {
        assert(c23@ =~= seq![0x74u8, 0x68u8]);
    }
    if l.raw_word() == c23.raw_word() {
        let sc = mk4(0x54, 0x68, 0x61, 0x69);
        let rg = mk4(0x54, 0x48, 0x00, 0x00);
        proof {
            assert(sc@ =~= seq![0x54u8, 0x68u8, 0x61u8, 0x69u8]);
            assert(is_canon_script(sc@)) by {
                assert forall|j: int| 1 <= j < sc@.len() implies is_lower_alpha(sc@[j]) by {
                if j == 1 {
                } else if j == 2 {
                } else {
                }
                }
            }
            assert(rg@ =~= seq![0x54u8, 0x48u8]);
            assert(is_canon_region(rg@)) by {
                assert forall|j: int| 0 <= j < rg@.len() implies is_upper_alpha(rg@[j]) by {
                if j == 0 {
                } else {
                }
                }
            }
        }
        return Some((sc, Some(rg)));
    }
        proof {
            if l@ == c23@ {
                lemma_view_injective(l.word, c23.word);
            }
        }
    let c24 = mk8(0x6b, 0x75, 0x00, 0x00, 0x00, 0x00, 0x00, 0x00);
    proof {
        assert(c24@ =~= seq![0x6bu8, 0x75u8]);
    }
    if l.raw_word() == c24.raw_word() {
        let sc = mk4(0x4c, 0x61, 0x74, 0x6e);
        let rg = mk4(0x54, 0x52, 0x00, 0x00);
        proof {
            assert(sc@ =~= seq![0x4cu8, 0x61u8, 0x74u8, 0x6eu8]);
            assert(is_canon_script(sc@)) by {
                assert forall|j: int| 1 <= j < sc@.len() implies is_lower_alpha(sc@[j]) by {
                if j == 1 {
                } else if j == 2 {
                } else {
                }
                }
            }
            assert(rg@ =~= seq![0x54u8, 0x52u8]);
            assert(is_canon_region(rg@)) by {
                assert forall|j: int| 0 <= j < rg@.len() implies is_upper_alpha(rg@[j]) by {
                if j == 0 {
                } else {
                }
                }
            }
        }
        return Some((sc, Some(rg)));
    }
        proof {
            if l@ == c24@ {
                lemma_view_injective(l.word, c24.word);
            }
        }
    let c25 = mk8(0x6c, 0x63, 0x70, 0x00, 0x00, 0x00, 0x00, 0x00);
    proof {
        assert(c25@ =~= seq![0x6cu8, 0x63u8, 0x70u8]);
    }
    if l.raw_word() == c25.raw_word() {
        let sc = mk4(0x54, 0x68, 0x61, 0x69);
        let rg = mk4(0x43, 0x4e, 0x00, 0x00);
        proof {
            assert(sc@ =~= seq![0x54u8, 0x68u8, 0x61u8, 0x69u8]);
            assert(is_canon_script(sc@)) by {
                assert forall|j: int| 1 <= j < sc@.len() implies is_lower_alpha(sc@[j]) by {
                if j == 1 {
                } else if j == 2 {
                } else {
                }
                }
            }
            assert(rg@ =~= seq![0x43u8, 0x4eu8]);
            assert(is_canon_region(rg@)) by {
                assert forall|j: int| 0 <= j < rg@.len() implies is_upper_alpha(rg@[j]) by {
                if j == 0 {
                } else {
                }
                }
            }
        }
        return Some((sc, Some(rg)));
    }
        proof {
            if l@ == c25@ {
                lemma_view_injective(l.word, c25.word);
            }
        }
    let c26 = mk8(0x66, 0x61, 0x00, 0x00, 0x00, 0x00, 0x00, 0x00);
    proof {
        assert(c26@ =~= seq![0x66u8, 0x61u8]);
    }
    if l.raw_word() == c26.raw_word() {
        let sc = mk4(0x41, 0x72, 0x61, 0x62);
        let rg = mk4(0x49, 0x52, 0x00, 0x00);
        proof {
            assert(sc@ =~= seq![0x41u8, 0x72u8, 0x61u8, 0x62u8]);
            assert(is_canon_script(sc@)) by {
                assert forall|j: int| 1 <= j < sc@.len() implies is_lower_alpha(sc@[j]) by {
                if j == 1 {
                } else if j == 2 {
                } else {
                }
                }
            }
            assert(rg@ =~= seq![0x49u8, 0x52u8]);
            assert(is_canon_region(rg@)) by {
                assert forall|j: int| 0 <= j < rg@.len() implies is_upper_alpha(rg@[j]) by {
                if j == 0 {
                } else {
                }
                }
            }
        }
        return Some((sc, Some(rg)));
    }
        proof {
            if l@ == c26@ {
                lemma_view_injective(l.word, c26.word);
            }
        }
    None
}

/// Looks up the language-and-region table.
fn lang_region_lookup(l: &TinyStr8, r: &TinyStr4) -> (res: Option<TinyStr4>)
    requires
        l.wf(),
        r.wf(),
    ensures
        res is Some <==> lang_region_spec(l@, r@) is Some,
        res matches Some(sc) ==> lang_region_spec(l@, r@) matches Some(q) && sc.wf() && sc@ == q
            && is_canon_script(sc@),
{
    let k0 = mk8(0x73, 0x72, 0x00, 0x00, 0x00, 0x00, 0x00, 0x00);
    let g0 = mk4(0x4d, 0x45, 0x00, 0x00);
    proof {
        assert(k0@ =~= seq![0x73u8, 0x72u8]);
        assert(g0@ =~= seq![0x4du8, 0x45u8]);
    }
    if l.raw_word() == k0.raw_word() && r.raw_word() == g0.raw_word() {
        let sc = mk4(0x4c, 0x61, 0x74, 0x6e);
        proof {
            assert(sc@ =~= seq![0x4cu8, 0x61u8, 0x74u8, 0x6eu8]);
            assert(is_canon_script(sc@)) by {
                assert forall|j: int| 1 <= j < sc@.len() implies is_lower_alpha(sc@[j]) by {
                if j == 1 {
                } else if j == 2 {
                } else {
                }
                }
            }
        }
        return Some(sc);
    }
    proof {
        if l@ == k0@ && r@ == g0@ {
            lemma_view_injective(l.word, k0.word);
            lemma_view_injective(r.word as u64, g0.word as u64);
        }
    }
    let k1 = mk8(0x7a, 0x68, 0x00, 0x00, 0x00, 0x00, 0x00, 0x00);
    let g1 = mk4(0x54, 0x57, 0x00, 0x00);
    proof {
        assert(k1@ =~= seq![0x7au8, 0x68u8]);
        assert(g1@ =~= seq![0x54u8, 0x57u8]);
    }
    if l.raw_word() == k1.raw_word() && r.raw_word() == g1.raw_word() {
        let sc = mk4(0x48, 0x61, 0x6e, 0x74);
        proof {
            assert(sc@ =~= seq![0x48u8, 0x61u8, 0x6eu8, 0x74u8]);
            assert(is_canon_script(sc@)) by {
                assert forall|j: int| 1 <= j < sc@.len() implies is_lower_alpha(sc@[j]) by {
                if j == 1 {
                } else if j == 2 {
                } else {
                }
                }
            }
        }
        return Some(sc);
    }
    proof {
        if l@ == k1@ && r@ == g1@ {
            lemma_view_injective(l.word, k1.word);
            lemma_view_injective(r.word as u64, g1.word as u64);
        }
    }
    let k2 = mk8(0x7a, 0x68, 0x00, 0x00, 0x00, 0x00, 0x00, 0x00);
    let g2 = mk4(0x48, 0x4b, 0x00, 0x00);
    proof {
        assert(k2@ =~= seq![0x7au8, 0x68u8]);
        assert(g2@ =~= seq![0x48u8, 0x4bu8]);
    }
    if l.raw_word() == k2.raw_word() && r.raw_word() == g2.raw_word() {
        let sc = mk4(0x48, 0x61, 0x6e, 0x74);
        proof {
            assert(sc@ =~= seq![0x48u8, 0x61u8, 0x6eu8, 0x74u8]);
            assert(is_canon_script(sc@)) by {
                assert forall|j: int| 1 <= j < sc@.len() implies is_lower_alpha(sc@[j]) by {
                if j == 1 {
                } else if j == 2 {
                } else {
                }
                }
            }
        }
        return Some(sc);
    }
    proof {
        if l@ == k2@ && r@ == g2@ {
            lemma_view_injective(l.word, k2.word);
            lemma_view_injective(r.word as u64, g2.word as u64);
        }
    }
    let k3 = mk8(0x7a, 0x68, 0x00, 0x00, 0x00, 0x00, 0x00, 0x00);
    let g3 = mk4(0x4d, 0x4f, 0x00, 0x00);
    proof {
        assert(k3@ =~= seq![0x7au8, 0x68u8]);
        assert(g3@ =~= seq![0x4du8, 0x4fu8]);
    }
    if l.raw_word() == k3.raw_word() && r.raw_word() == g3.raw_word() {
        let sc = mk4(0x48, 0x61, 0x6e, 0x74);
        proof {
            assert(sc@ =~= seq![0x48u8, 0x61u8, 0x6eu8, 0x74u8]);
            assert(is_canon_script(sc@)) by {
                assert forall|j: int| 1 <= j < sc@.len() implies is_lower_alpha(sc@[j]) by {
                if j == 1 {
                } else if j == 2 {
                } else {
                }
                }
            }
        }
        return Some(sc);
    }
    proof {
        if l@ == k3@ && r@ == g3@ {
            lemma_view_injective(l.word, k3.word);
            lemma_view_injective(r.word as u64, g3.word as u64);
        }
    }
    None
}

/// Looks up the language-and-script table.
fn lang_script_lookup(l: &TinyStr8, s: &TinyStr4) -> (res: Option<TinyStr4>)
    requires
        l.wf(),
        s.wf(),
    ensures
        res is Some <==> lang_script_spec(l@, s@) is Some,
        res matches Some(rg) ==> lang_script_spec(l@, s@) matches Some(q) && rg.wf() && rg@ == q
            && is_canon_region(rg@),
{
    let k0 = mk8(0x75, 0x67, 0x00, 0x00, 0x00, 0x00, 0x00, 0x00);
    let g0 = mk4(0x43, 0x79, 0x72, 0x6c);
    proof {
        assert(k0@ =~= seq![0x75u8, 0x67u8]);
        assert(g0@ =~= seq![0x43u8, 0x79u8, 0x72u8, 0x6cu8]);
    }
    if l.raw_word() == k0.raw_word() && s.raw_word() == g0.raw_word() {
        let rg = mk4(0x4b, 0x5a, 0x00, 0x00);
        proof {
            assert(rg@ =~= seq![0x4bu8, 0x5au8]);
            assert(is_canon_region(rg@)) by {
                assert forall|j: int| 0 <= j < rg@.len() implies is_upper_alpha(rg@[j]) by {
                if j == 0 {
                } else {
                }
                }
            }
        }
        return Some(rg);
    }
    proof {
        if l@ == k0@ && s@ == g0@ {
            lemma_view_injective(l.word, k0.word);
            lemma_view_injective(s.word as u64, g0.word as u64);
        }
    }
    let k1 = mk8(0x6d, 0x6e, 0x00, 0x00, 0x00, 0x00, 0x00, 0x00);
    let g1 = mk4(0x4d, 0x6f, 0x6e, 0x67);
    proof {
        assert(k1@ =~= seq![0x6du8, 0x6eu8]);
        assert(g1@ =~= seq![0x4du8, 0x6fu8, 0x6eu8, 0x67u8]);
    }
    if l.raw_word() == k1.raw_word() && s.raw_word() == g1.raw_word() {
        let rg = mk4(0x43, 0x4e, 0x00, 0x00);
        proof {
            assert(rg@ =~= seq![0x43u8, 0x4eu8]);
            assert(is_canon_region(rg@)) by {
                assert forall|j: int| 0 <= j < rg@.len() implies is_upper_alpha(rg@[j]) by {
                if j == 0 {
                } else {
                }
                }
            }
        }
        return Some(rg);
    }
    proof {
        if l@ == k1@ && s@ == g1@ {
            lemma_view_injective(l.word, k1.word);
            lemma_view_injective(s.word as u64, g1.word as u64);
        }
    }
    let k2 = mk8(0x6c, 0x69, 0x66, 0x00, 0x00, 0x00, 0x00, 0x00);
    let g2 = mk4(0x4c, 0x69, 0x6d, 0x62);
    proof {
        assert(k2@ =~= seq![0x6cu8, 0x69u8, 0x66u8]);
        assert(g2@ =~= seq![0x4cu8, 0x69u8, 0x6du8, 0x62u8]);
    }
    if l.raw_word() == k2.raw_word() && s.raw_word() == g2.raw_word() {
        let rg = mk4(0x49, 0x4e, 0x00, 0x00);
        proof {
            assert(rg@ =~= seq![0x49u8, 0x4eu8]);
            assert(is_canon_region(rg@)) by {
                assert forall|j: int| 0 <= j < rg@.len() implies is_upper_alpha(rg@[j]) by {
                if j == 0 {
                } else {
                }
                }
            }
        }
        return Some(rg);
    }
    proof {
        if l@ == k2@ && s@ == g2@ {
            lemma_view_injective(l.word, k2.word);
            lemma_view_injective(s.word as u64, g2.word as u64);
        }
    }
    let k3 = mk8(0x79, 0x75, 0x65, 0x00, 0x00, 0x00, 0x00, 0x00);
    let g3 = mk4(0x48, 0x61, 0x6e, 0x73);
    proof {
        assert(k3@ =~= seq![0x79u8, 0x75u8, 0x65u8]);
        assert(g3@ =~= seq![0x48u8, 0x61u8, 0x6eu8, 0x73u8]);
    }
    if l.raw_word() == k3.raw_word() && s.raw_word() == g3.raw_word() {
        let rg = mk4(0x43, 0x4e, 0x00, 0x00);
        proof {
            assert(rg@ =~= seq![0x43u8, 0x4eu8]);
            assert(is_canon_region(rg@)) by {
                assert forall|j: int| 0 <= j < rg@.len() implies is_upper_alpha(rg@[j]) by {
                if j == 0 {
                } else {
                }
                }
            }
        }
        return Some(rg);
    }
    proof {
        if l@ == k3@ && s@ == g3@ {
            lemma_view_injective(l.word, k3.word);
            lemma_view_injective(s.word as u64, g3.word as u64);
        }
    }
    let k4 = mk8(0x75, 0x6e, 0x72, 0x00, 0x00, 0x00, 0x00, 0x00);
    let g4 = mk4(0x44, 0x65, 0x76, 0x61);
    proof {
        assert(k4@ =~= seq![0x75u8, 0x6eu8, 0x72u8]);
        assert(g4@ =~= seq![0x44u8, 0x65u8, 0x76u8, 0x61u8]);
    }
    if l.raw_word() == k4.raw_word() && s.raw_word() == g4.raw_word() {
        let rg = mk4(0x4e, 0x50, 0x00, 0x00);
        proof {
            assert(rg@ =~= seq![0x4eu8, 0x50u8]);
            assert(is_canon_region(rg@)) by {
                assert forall|j: int| 0 <= j < rg@.len() implies is_upper_alpha(rg@[j]) by {
                if j == 0 {
                } else {
                }
                }
            }
        }
        return Some(rg);
    }
    proof {
        if l@ == k4@ && s@ == g4@ {
            lemma_view_injective(l.word, k4.word);
            lemma_view_injective(s.word as u64, g4.word as u64);
        }
    }
    let k5 = mk8(0x6b, 0x6b, 0x00, 0x00, 0x00, 0x00, 0x00, 0x00);
    let g5 = mk4(0x41, 0x72, 0x61, 0x62);
    proof {
        assert(k5@ =~= seq![0x6bu8, 0x6bu8]);
        assert(g5@ =~= seq![0x41u8, 0x72u8, 0x61u8, 0x62u8]);
    }
    if l.raw_word() == k5.raw_word() && s.raw_word() == g5.raw_word() {
        let rg = mk4(0x43, 0x4e, 0x00, 0x00);
        proof {
            assert(rg@ =~= seq![0x43u8, 0x4eu8]);
            assert(is_canon_region(rg@)) by {
                assert forall|j: int| 0 <= j < rg@.len() implies is_upper_alpha(rg@[j]) by {
                if j == 0 {
                } else {
                }
                }
            }
        }
        return Some(rg);
    }
    proof {
        if l@ == k5@ && s@ == g5@ {
            lemma_view_injective(l.word, k5.word);
            lemma_view_injective(s.word as u64, g5.word as u64);
        }
    }
    let k6 = mk8(0x7a, 0x68, 0x00, 0x00, 0x00, 0x00, 0x00, 0x00);
    let g6 = mk4(0x48, 0x61, 0x6e, 0x74);
    proof {
        assert(k6@ =~= seq![0x7au8, 0x68u8]);
        assert(g6@ =~= seq![0x48u8, 0x61u8, 0x6eu8, 0x74u8]);
    }
    if l.raw_word() == k6.raw_word() && s.raw_word() == g6.raw_word() {
        let rg = mk4(0x54, 0x57, 0x00, 0x00);
        proof {
            assert(rg@ =~= seq![0x54u8, 0x57u8]);
            assert(is_canon_region(rg@)) by {
                assert forall|j: int| 0 <= j < rg@.len() implies is_upper_alpha(rg@[j]) by {
                if j == 0 {
                } else {
                }
                }
            }
        }
        return Some(rg);
    }
    proof {
        if l@ == k6@ && s@ == g6@ {
            lemma_view_injective(l.word, k6.word);
            lemma_view_injective(s.word as u64, g6.word as u64);
        }
    }
    None
}

/// Looks up the script-and-region table.
fn script_region_lookup(s: &TinyStr4, r: &TinyStr4) -> (res: Option<TinyStr8>)
    requires
        s.wf(),
        r.wf(),
    ensures
        res is Some <==> script_region_spec(s@, r@) is Some,
        res matches Some(lg) ==> script_region_spec(s@, r@) matches Some(q) && lg.wf() && lg@ == q
            && is_canon_language(lg@),
{
    let k0 = mk4(0x4c, 0x61, 0x74, 0x6e);
    let g0 = mk4(0x41, 0x4d, 0x00, 0x00);
    proof {
        assert(k0@ =~= seq![0x4cu8, 0x61u8, 0x74u8, 0x6eu8]);
        assert(g0@ =~= seq![0x41u8, 0x4du8]);
    }
    if s.raw_word() == k0.raw_word() && r.raw_word() == g0.raw_word() {
        let lg = mk8(0x6b, 0x75, 0x00, 0x00, 0x00, 0x00, 0x00, 0x00);
        proof {
            assert(lg@ =~= seq![0x6bu8, 0x75u8]);
            assert(is_canon_language(lg@)) by {
                assert forall|j: int| 0 <= j < lg@.len() implies is_lower_alpha(lg@[j]) by {
                if j == 0 {
                } else {
                }
                }
                assert(lg@.len() != und_bytes().len() || lg@[0] != und_bytes()[0] || lg@[1] != und_bytes()[1]);
            }
        }
        return Some(lg);
    }
    proof {
        if s@ == k0@ && r@ == g0@ {
            lemma_view_injective(s.word as u64, k0.word as u64);
            lemma_view_injective(r.word as u64, g0.word as u64);
        }
    }
    let k1 = mk4(0x54, 0x68, 0x61, 0x69);
    let g1 = mk4(0x43, 0x4e, 0x00, 0x00);
    proof {
        assert(k1@ =~= seq![0x54u8, 0x68u8, 0x61u8, 0x69u8]);
        assert(g1@ =~= seq![0x43u8, 0x4eu8]);
    }
    if s.raw_word() == k1.raw_word() && r.raw_word() == g1.raw_word() {
        let lg = mk8(0x6c, 0x63, 0x70, 0x00, 0x00, 0x00, 0x00, 0x00);
        proof {
            assert(lg@ =~= seq![0x6cu8, 0x63u8, 0x70u8]);
            assert(is_canon_language(lg@)) by {
                assert forall|j: int| 0 <= j < lg@.len() implies is_lower_alpha(lg@[j]) by {
                if j == 0 {
                } else 
                if j == 1 {
                } else {
                }
                }
                assert(lg@.len() != und_bytes().len() || lg@[0] != und_bytes()[0] || lg@[1] != und_bytes()[1]);
            }
        }
        return Some(lg);
    }
    proof {
        if s@ == k1@ && r@ == g1@ {
            lemma_view_injective(s.word as u64, k1.word as u64);
            lemma_view_injective(r.word as u64, g1.word as u64);
        }
    }
    None
}

/// Looks up the script-only table.
fn script_only_lookup(s: &TinyStr4) -> (res: Option<(TinyStr8, TinyStr4)>)
    requires
        s.wf(),
    ensures
        res is Some <==> script_only_spec(s@) is Some,
        res matches Some(p) ==> script_only_spec(s@) matches Some(q) && p.0.wf() && p.0@ == q.0
            && is_canon_language(p.0@) && p.1.wf() && p.1@ == q.1 && is_canon_region(p.1@),
{
    let c0 = mk4(0x41, 0x72, 0x61, 0x62);
    proof {
        assert(c0@ =~= seq![0x41u8, 0x72u8, 0x61u8, 0x62u8]);
    }
    if s.raw_word() == c0.raw_word() {
        let lg = mk8(0x61, 0x72, 0x00, 0x00, 0x00, 0x00, 0x00, 0x00);
        let rg = mk4(0x45, 0x47, 0x00, 0x00);
        proof {
            assert(lg@ =~= seq![0x61u8, 0x72u8]);
            assert(is_canon_language(lg@)) by {
                assert forall|j: int| 0 <= j < lg@.len() implies is_lower_alpha(lg@[j]) by {
                if j == 0 {
                } else {
                }
                }
                assert(lg@.len() != und_bytes().len() || lg@[0] != und_bytes()[0] || lg@[1] != und_bytes()[1]);
            }
            assert(rg@ =~= seq![0x45u8, 0x47u8]);
            assert(is_canon_region(rg@)) by {
                assert forall|j: int| 0 <= j < rg@.len() implies is_upper_alpha(rg@[j]) by {
                if j == 0 {
                } else {
                }
                }
            }
        }
        return Some((lg, rg));
    }
        proof {
            if s@ == c0@ {
                lemma_view_injective(s.word as u64, c0.word as u64);
            }
        }
    let c1 = mk4(0x43, 0x79, 0x72, 0x6c);
    proof {
        assert(c1@ =~= seq![0x43u8, 0x79u8, 0x72u8, 0x6cu8]);
    }
    if s.raw_word() == c1.raw_word() {
        let lg = mk8(0x72, 0x75, 0x00, 0x00, 0x00, 0x00, 0x00, 0x00);
        let rg = mk4(0x52, 0x55, 0x00, 0x00);
        proof {
            assert(lg@ =~= seq![0x72u8, 0x75u8]);
            assert(is_canon_language(lg@)) by {
                assert forall|j: int| 0 <= j < lg@.len() implies is_lower_alpha(lg@[j]) by {
                if j == 0 {
                } else {
                }
                }
                assert(lg@.len() != und_bytes().len() || lg@[0] != und_bytes()[0] || lg@[1] != und_bytes()[1]);
            }
            assert(rg@ =~= seq![0x52u8, 0x55u8]);
            assert(is_canon_region(rg@)) by {
                assert forall|j: int| 0 <= j < rg@.len() implies is_upper_alpha(rg@[j]) by {
                if j == 0 {
                } else {
                }
                }
            }
        }
        return Some((lg, rg));
    }
        proof {
            if s@ == c1@ {
                lemma_view_injective(s.word as u64, c1.word as u64);
            }
        }
    let c2 = mk4(0x4c, 0x61, 0x74, 0x6e);
    proof {
        assert(c2@ =~= seq![0x4cu8, 0x61u8, 0x74u8, 0x6eu8]);
    }
    if s.raw_word() == c2.raw_word() {
        let lg = mk8(0x65, 0x6e, 0x00, 0x00, 0x00, 0x00, 0x00, 0x00);
        let rg = mk4(0x55, 0x53, 0x00, 0x00);
        proof {
            assert(lg@ =~= seq![0x65u8, 0x6eu8]);
            assert(is_canon_language(lg@)) by {
                assert forall|j: int| 0 <= j < lg@.len() implies is_lower_alpha(lg@[j]) by {
                if j == 0 {
                } else {
                }
                }
                assert(lg@.len() != und_bytes().len() || lg@[0] != und_bytes()[0] || lg@[1] != und_bytes()[1]);
            }
            assert(rg@ =~= seq![0x55u8, 0x53u8]);
            assert(is_canon_region(rg@)) by {
                assert forall|j: int| 0 <= j < rg@.len() implies is_upper_alpha(rg@[j]) by {
                if j == 0 {
                } else {
                }
                }
            }
        }
        return Some((lg, rg));
    }
        proof {
            if s@ == c2@ {
                lemma_view_injective(s.word as u64, c2.word as u64);
            }
        }
    let c3 = mk4(0x54, 0x68, 0x61, 0x69);
    proof {
        assert(c3@ =~= seq![0x54u8, 0x68u8, 0x61u8, 0x69u8]);
    }
    if s.raw_word() == c3.raw_word() {
        let lg = mk8(0x74, 0x68, 0x00, 0x00, 0x00, 0x00, 0x00, 0x00);
        let rg = mk4(0x54, 0x48, 0x00, 0x00);
        proof {
            assert(lg@ =~= seq![0x74u8, 0x68u8]);
            assert(is_canon_language(lg@)) by {
                assert forall|j: int| 0 <= j < lg@.len() implies is_lower_alpha(lg@[j]) by {
                if j == 0 {
                } else {
                }
                }
                assert(lg@.len() != und_bytes().len() || lg@[0] != und_bytes()[0] || lg@[1] != und_bytes()[1]);
            }
            assert(rg@ =~= seq![0x54u8, 0x48u8]);
            assert(is_canon_region(rg@)) by {
                assert forall|j: int| 0 <= j < rg@.len() implies is_upper_alpha(rg@[j]) by {
                if j == 0 {
                } else {
                }
                }
            }
        }
        return Some((lg, rg));
    }
        proof {
            if s@ == c3@ {
                lemma_view_injective(s.word as u64, c3.word as u64);
            }
        }
    let c4 = mk4(0x48, 0x61, 0x6e, 0x73);
    proof {
        assert(c4@ =~= seq![0x48u8, 0x61u8, 0x6eu8, 0x73u8]);
    }
    if s.raw_word() == c4.raw_word() {
        let lg = mk8(0x7a, 0x68, 0x00, 0x00, 0x00, 0x00, 0x00, 0x00);
        let rg = mk4(0x43, 0x4e, 0x00, 0x00);
        proof {
            assert(lg@ =~= seq![0x7au8, 0x68u8]);
            assert(is_canon_language(lg@)) by {
                assert forall|j: int| 0 <= j < lg@.len() implies is_lower_alpha(lg@[j]) by {
                if j == 0 {
                } else {
                }
                }
                assert(lg@.len() != und_bytes().len() || lg@[0] != und_bytes()[0] || lg@[1] != und_bytes()[1]);
            }
            assert(rg@ =~= seq![0x43u8, 0x4eu8]);
            assert(is_canon_region(rg@)) by {
                assert forall|j: int| 0 <= j < rg@.len() implies is_upper_alpha(rg@[j]) by {
                if j == 0 {
                } else {
                }
                }
            }
        }
        return Some((lg, rg));
    }
        proof {
            if s@ == c4@ {
                lemma_view_injective(s.word as u64, c4.word as u64);
            }
        }
    let c5 = mk4(0x48, 0x61, 0x6e, 0x74);
    proof {
        assert(c5@ =~= seq![0x48u8, 0x61u8, 0x6eu8, 0x74u8]);
    }
    if s.raw_word() == c5.raw_word() {
        let lg = mk8(0x7a, 0x68, 0x00, 0x00, 0x00, 0x00, 0x00, 0x00);
        let rg = mk4(0x54, 0x57, 0x00, 0x00);
        proof {
            assert(lg@ =~= seq![0x7au8, 0x68u8]);
            assert(is_canon_language(lg@)) by {
                assert forall|j: int| 0 <= j < lg@.len() implies is_lower_alpha(lg@[j]) by {
                if j == 0 {
                } else {
                }
                }
                assert(lg@.len() != und_bytes().len() || lg@[0] != und_bytes()[0] || lg@[1] != und_bytes()[1]);
            }
            assert(rg@ =~= seq![0x54u8, 0x57u8]);
            assert(is_canon_region(rg@)) by {
                assert forall|j: int| 0 <= j < rg@.len() implies is_upper_alpha(rg@[j]) by {
                if j == 0 {
                } else {
                }
                }
            }
        }
        return Some((lg, rg));
    }
        proof {
            if s@ == c5@ {
                lemma_view_injective(s.word as u64, c5.word as u64);
            }
        }
    let c6 = mk4(0x42, 0x65, 0x6e, 0x67);
    proof {
        assert(c6@ =~= seq![0x42u8, 0x65u8, 0x6eu8, 0x67u8]);
    }
    if s.raw_word() == c6.raw_word() {
        let lg = mk8(0x62, 0x6e, 0x00, 0x00, 0x00, 0x00, 0x00, 0x00);
        let rg = mk4(0x42, 0x44, 0x00, 0x00);
        proof {
            assert(lg@ =~= seq![0x62u8, 0x6eu8]);
            assert(is_canon_language(lg@)) by {
                assert forall|j: int| 0 <= j < lg@.len() implies is_lower_alpha(lg@[j]) by {
                if j == 0 {
                } else {
                }
                }
                assert(lg@.len() != und_bytes().len() || lg@[0] != und_bytes()[0] || lg@[1] != und_bytes()[1]);
            }
            assert(rg@ =~= seq![0x42u8, 0x44u8]);
            assert(is_canon_region(rg@)) by {
                assert forall|j: int| 0 <= j < rg@.len() implies is_upper_alpha(rg@[j]) by {
                if j == 0 {
                } else {
                }
                }
            }
        }
        return Some((lg, rg));
    }
        proof {
            if s@ == c6@ {
                lemma_view_injective(s.word as u64, c6.word as u64);
            }
        }
    let c7 = mk4(0x44, 0x65, 0x76, 0x61);
    proof {
        assert(c7@ =~= seq![0x44u8, 0x65u8, 0x76u8, 0x61u8]);
    }
    if s.raw_word() == c7.raw_word() {
        let lg = mk8(0x68, 0x69, 0x00, 0x00, 0x00, 0x00, 0x00, 0x00);
        let rg = mk4(0x49, 0x4e, 0x00, 0x00);
        proof {
            assert(lg@ =~= seq![0x68u8, 0x69u8]);
            assert(is_canon_language(lg@)) by {
                assert forall|j: int| 0 <= j < lg@.len() implies is_lower_alpha(lg@[j]) by {
                if j == 0 {
                } else {
                }
                }
                assert(lg@.len() != und_bytes().len() || lg@[0] != und_bytes()[0] || lg@[1] != und_bytes()[1]);
            }
            assert(rg@ =~= seq![0x49u8, 0x4eu8]);
            assert(is_canon_region(rg@)) by {
                assert forall|j: int| 0 <= j < rg@.len() implies is_upper_alpha(rg@[j]) by {
                if j == 0 {
                } else {
                }
                }
            }
        }
        return Some((lg, rg));
    }
        proof {
            if s@ == c7@ {
                lemma_view_injective(s.word as u64, c7.word as u64);
            }
        }
    let c8 = mk4(0x4d, 0x6f, 0x6e, 0x67);
    proof {
        assert(c8@ =~= seq![0x4du8, 0x6fu8, 0x6eu8, 0x67u8]);
    }
    if s.raw_word() == c8.raw_word() {
        let lg = mk8(0x6d, 0x6e, 0x00, 0x00, 0x00, 0x00, 0x00, 0x00);
        let rg = mk4(0x43, 0x4e, 0x00, 0x00);
        proof {
            assert(lg@ =~= seq![0x6du8, 0x6eu8]);
            assert(is_canon_language(lg@)) by {
                assert forall|j: int| 0 <= j < lg@.len() implies is_lower_alpha(lg@[j]) by {
                if j == 0 {
                } else {
                }
                }
                assert(lg@.len() != und_bytes().len() || lg@[0] != und_bytes()[0] || lg@[1] != und_bytes()[1]);
            }
            assert(rg@ =~= seq![0x43u8, 0x4eu8]);
            assert(is_canon_region(rg@)) by {
                assert forall|j: int| 0 <= j < rg@.len() implies is_upper_alpha(rg@[j]) by {
                if j == 0 {
                } else {
                }
                }
            }
        }
        return Some((lg, rg));
    }
        proof {
            if s@ == c8@ {
                lemma_view_injective(s.word as u64, c8.word as u64);
            }
        }
    let c9 = mk4(0x4c, 0x69, 0x6d, 0x62);
    proof {
        assert(c9@ =~= seq![0x4cu8, 0x69u8, 0x6du8, 0x62u8]);
    }
    if s.raw_word() == c9.raw_word() {
        let lg = mk8(0x6c, 0x69, 0x66, 0x00, 0x00, 0x00, 0x00, 0x00);
        let rg = mk4(0x49, 0x4e, 0x00, 0x00);
        proof {
            assert(lg@ =~= seq![0x6cu8, 0x69u8, 0x66u8]);
            assert(is_canon_language(lg@)) by {
                assert forall|j: int| 0 <= j < lg@.len() implies is_lower_alpha(lg@[j]) by {
                if j == 0 {
                } else 
                if j == 1 {
                } else {
                }
                }
                assert(lg@.len() != und_bytes().len() || lg@[0] != und_bytes()[0] || lg@[1] != und_bytes()[1]);
            }
            assert(rg@ =~= seq![0x49u8, 0x4eu8]);
            assert(is_canon_region(rg@)) by {
                assert forall|j: int| 0 <= j < rg@.len() implies is_upper_alpha(rg@[j]) by {
                if j == 0 {
                } else {
                }
                }
            }
        }
        return Some((lg, rg));
    }
        proof {
            if s@ == c9@ {
                lemma_view_injective(s.word as u64, c9.word as u64);
            }
        }
    None
}

/// Looks up the region-only table.
fn region_only_lookup(r: &TinyStr4) -> (res: Option<(TinyStr8, TinyStr4)>)
    requires
        r.wf(),
    ensures
        res is Some <==> region_only_spec(r@) is Some,
        res matches Some(p) ==> region_only_spec(r@) matches Some(q) && p.0.wf() && p.0@ == q.0
            && is_canon_language(p.0@) && p.1.wf() && p.1@ == q.1 && is_canon_script(p.1@),
{
    let c0 = mk4(0x50, 0x4c, 0x00, 0x00);
    proof {
        assert(c0@ =~= seq![0x50u8, 0x4cu8]);
    }
    if r.raw_word() == c0.raw_word() {
        let lg = mk8(0x70, 0x6c, 0x00, 0x00, 0x00, 0x00, 0x00, 0x00);
        let sc = mk4(0x4c, 0x61, 0x74, 0x6e);
        proof {
            assert(lg@ =~= seq![0x70u8, 0x6cu8]);
            assert(is_canon_language(lg@)) by {
                assert forall|j: int| 0 <= j < lg@.len() implies is_lower_alpha(lg@[j]) by {
                if j == 0 {
                } else {
                }
                }
                assert(lg@.len() != und_bytes().len() || lg@[0] != und_bytes()[0] || lg@[1] != und_bytes()[1]);
            }
            assert(sc@ =~= seq![0x4cu8, 0x61u8, 0x74u8, 0x6eu8]);
            assert(is_canon_script(sc@)) by {
                assert forall|j: int| 1 <= j < sc@.len() implies is_lower_alpha(sc@[j]) by {
                if j == 1 {
                } else if j == 2 {
                } else {
                }
                }
            }
        }
        return Some((lg, sc));
    }
        proof {
            if r@ == c0@ {
                lemma_view_injective(r.word as u64, c0.word as u64);
            }
        }
    let c1 = mk4(0x55, 0x53, 0x00, 0x00);
    proof {
        assert(c1@ =~= seq![0x55u8, 0x53u8]);
    }
    if r.raw_word() == c1.raw_word() {
        let lg = mk8(0x65, 0x6e, 0x00, 0x00, 0x00, 0x00, 0x00, 0x00);
        let sc = mk4(0x4c, 0x61, 0x74, 0x6e);
        proof {
            assert(lg@ =~= seq![0x65u8, 0x6eu8]);
            assert(is_canon_language(lg@)) by {
                assert forall|j: int| 0 <= j < lg@.len() implies is_lower_alpha(lg@[j]) by {
                if j == 0 {
                } else {
                }
                }
                assert(lg@.len() != und_bytes().len() || lg@[0] != und_bytes()[0] || lg@[1] != und_bytes()[1]);
            }
            assert(sc@ =~= seq![0x4cu8, 0x61u8, 0x74u8, 0x6eu8]);
            assert(is_canon_script(sc@)) by {
                assert forall|j: int| 1 <= j < sc@.len() implies is_lower_alpha(sc@[j]) by {
                if j == 1 {
                } else if j == 2 {
                } else {
                }
                }
            }
        }
        return Some((lg, sc));
    }
        proof {
            if r@ == c1@ {
                lemma_view_injective(r.word as u64, c1.word as u64);
            }
        }
    let c2 = mk4(0x43, 0x4e, 0x00, 0x00);
    proof {
        assert(c2@ =~= seq![0x43u8, 0x4eu8]);
    }
    if r.raw_word() == c2.raw_word() {
        let lg = mk8(0x7a, 0x68, 0x00, 0x00, 0x00, 0x00, 0x00, 0x00);
        let sc = mk4(0x48, 0x61, 0x6e, 0x73);
        proof {
            assert(lg@ =~= seq![0x7au8, 0x68u8]);
            assert(is_canon_language(lg@)) by {
                assert forall|j: int| 0 <= j < lg@.len() implies is_lower_alpha(lg@[j]) by {
                if j == 0 {
                } else {
                }
                }
                assert(lg@.len() != und_bytes().len() || lg@[0] != und_bytes()[0] || lg@[1] != und_bytes()[1]);
            }
            assert(sc@ =~= seq![0x48u8, 0x61u8, 0x6eu8, 0x73u8]);
            assert(is_canon_script(sc@)) by {
                assert forall|j: int| 1 <= j < sc@.len() implies is_lower_alpha(sc@[j]) by {
                if j == 1 {
                } else if j == 2 {
                } else {
                }
                }
            }
        }
        return Some((lg, sc));
    }
        proof {
            if r@ == c2@ {
                lemma_view_injective(r.word as u64, c2.word as u64);
            }
        }
    let c3 = mk4(0x47, 0x42, 0x00, 0x00);
    proof {
        assert(c3@ =~= seq![0x47u8, 0x42u8]);
    }
    if r.raw_word() == c3.raw_word() {
        let lg = mk8(0x65, 0x6e, 0x00, 0x00, 0x00, 0x00, 0x00, 0x00);
        let sc = mk4(0x4c, 0x61, 0x74, 0x6e);
        proof {
            assert(lg@ =~= seq![0x65u8, 0x6eu8]);
            assert(is_canon_language(lg@)) by {
                assert forall|j: int| 0 <= j < lg@.len() implies is_lower_alpha(lg@[j]) by {
                if j == 0 {
                } else {
                }
                }
                assert(lg@.len() != und_bytes().len() || lg@[0] != und_bytes()[0] || lg@[1] != und_bytes()[1]);
            }
            assert(sc@ =~= seq![0x4cu8, 0x61u8, 0x74u8, 0x6eu8]);
            assert(is_canon_script(sc@)) by {
                assert forall|j: int| 1 <= j < sc@.len() implies is_lower_alpha(sc@[j]) by {
                if j == 1 {
                } else if j == 2 {
                } else {
                }
                }
            }
        }
        return Some((lg, sc));
    }
        proof {
            if r@ == c3@ {
                lemma_view_injective(r.word as u64, c3.word as u64);
            }
        }
    let c4 = mk4(0x44, 0x45, 0x00, 0x00);
    proof {
        assert(c4@ =~= seq![0x44u8, 0x45u8]);
    }
    if r.raw_word() == c4.raw_word() {
        let lg = mk8(0x64, 0x65, 0x00, 0x00, 0x00, 0x00, 0x00, 0x00);
        let sc = mk4(0x4c, 0x61, 0x74, 0x6e);
        proof {
            assert(lg@ =~= seq![0x64u8, 0x65u8]);
            assert(is_canon_language(lg@)) by {
                assert forall|j: int| 0 <= j < lg@.len() implies is_lower_alpha(lg@[j]) by {
                if j == 0 {
                } else {
                }
                }
                assert(lg@.len() != und_bytes().len() || lg@[0] != und_bytes()[0] || lg@[1] != und_bytes()[1]);
            }
            assert(sc@ =~= seq![0x4cu8, 0x61u8, 0x74u8, 0x6eu8]);
            assert(is_canon_script(sc@)) by {
                assert forall|j: int| 1 <= j < sc@.len() implies is_lower_alpha(sc@[j]) by {
                if j == 1 {
                } else if j == 2 {
                } else {
                }
                }
            }
        }
        return Some((lg, sc));
    }
        proof {
            if r@ == c4@ {
                lemma_view_injective(r.word as u64, c4.word as u64);
            }
        }
    let c5 = mk4(0x46, 0x52, 0x00, 0x00);
    proof {
        assert(c5@ =~= seq![0x46u8, 0x52u8]);
    }
    if r.raw_word() == c5.raw_word() {
        let lg = mk8(0x66, 0x72, 0x00, 0x00, 0x00, 0x00, 0x00, 0x00);
        let sc = mk4(0x4c, 0x61, 0x74, 0x6e);
        proof {
            assert(lg@ =~= seq![0x66u8, 0x72u8]);
            assert(is_canon_language(lg@)) by {
                assert forall|j: int| 0 <= j < lg@.len() implies is_lower_alpha(lg@[j]) by {
                if j == 0 {
                } else {
                }
                }
                assert(lg@.len() != und_bytes().len() || lg@[0] != und_bytes()[0] || lg@[1] != und_bytes()[1]);
            }
            assert(sc@ =~= seq![0x4cu8, 0x61u8, 0x74u8, 0x6eu8]);
            assert(is_canon_script(sc@)) by {
                assert forall|j: int| 1 <= j < sc@.len() implies is_lower_alpha(sc@[j]) by {
                if j == 1 {
                } else if j == 2 {
                } else {
                }
                }
            }
        }
        return Some((lg, sc));
    }
        proof {
            if r@ == c5@ {
                lemma_view_injective(r.word as u64, c5.word as u64);
            }
        }
    let c6 = mk4(0x49, 0x54, 0x00, 0x00);
    proof {
        assert(c6@ =~= seq![0x49u8, 0x54u8]);
    }
    if r.raw_word() == c6.raw_word() {
        let lg = mk8(0x69, 0x74, 0x00, 0x00, 0x00, 0x00, 0x00, 0x00);
        let sc = mk4(0x4c, 0x61, 0x74, 0x6e);
        proof {
            assert(lg@ =~= seq![0x69u8, 0x74u8]);
            assert(is_canon_language(lg@)) by {
                assert forall|j: int| 0 <= j < lg@.len() implies is_lower_alpha(lg@[j]) by {
                if j == 0 {
                } else {
                }
                }
                assert(lg@.len() != und_bytes().len() || lg@[0] != und_bytes()[0] || lg@[1] != und_bytes()[1]);
            }
            assert(sc@ =~= seq![0x4cu8, 0x61u8, 0x74u8, 0x6eu8]);
            assert(is_canon_script(sc@)) by {
                assert forall|j: int| 1 <= j < sc@.len() implies is_lower_alpha(sc@[j]) by {
                if j == 1 {
                } else if j == 2 {
                } else {
                }
                }
            }
        }
        return Some((lg, sc));
    }
        proof {
            if r@ == c6@ {
                lemma_view_injective(r.word as u64, c6.word as u64);
            }
        }
    let c7 = mk4(0x45, 0x53, 0x00, 0x00);
    proof {
        assert(c7@ =~= seq![0x45u8, 0x53u8]);
    }
    if r.raw_word() == c7.raw_word() {
        let lg = mk8(0x65, 0x73, 0x00, 0x00, 0x00, 0x00, 0x00, 0x00);
        let sc = mk4(0x4c, 0x61, 0x74, 0x6e);
        proof {
            assert(lg@ =~= seq![0x65u8, 0x73u8]);
            assert(is_canon_language(lg@)) by {
                assert forall|j: int| 0 <= j < lg@.len() implies is_lower_alpha(lg@[j]) by {
                if j == 0 {
                } else {
                }
                }
                assert(lg@.len() != und_bytes().len() || lg@[0] != und_bytes()[0] || lg@[1] != und_bytes()[1]);
            }
            assert(sc@ =~= seq![0x4cu8, 0x61u8, 0x74u8, 0x6eu8]);
            assert(is_canon_script(sc@)) by {
                assert forall|j: int| 1 <= j < sc@.len() implies is_lower_alpha(sc@[j]) by {
                if j == 1 {
                } else if j == 2 {
                } else {
                }
                }
            }
        }
        return Some((lg, sc));
    }
        proof {
            if r@ == c7@ {
                lemma_view_injective(r.word as u64, c7.word as u64);
            }
        }
    let c8 = mk4(0x52, 0x55, 0x00, 0x00);
    proof {
        assert(c8@ =~= seq![0x52u8, 0x55u8]);
    }
    if r.raw_word() == c8.raw_word() {
        let lg = mk8(0x72, 0x75, 0x00, 0x00, 0x00, 0x00, 0x00, 0x00);
        let sc = mk4(0x43, 0x79, 0x72, 0x6c);
        proof {
            assert(lg@ =~= seq![0x72u8, 0x75u8]);
            assert(is_canon_language(lg@)) by {
                assert forall|j: int| 0 <= j < lg@.len() implies is_lower_alpha(lg@[j]) by {
                if j == 0 {
                } else {
                }
                }
                assert(lg@.len() != und_bytes().len() || lg@[0] != und_bytes()[0] || lg@[1] != und_bytes()[1]);
            }
            assert(sc@ =~= seq![0x43u8, 0x79u8, 0x72u8, 0x6cu8]);
            assert(is_canon_script(sc@)) by {
                assert forall|j: int| 1 <= j < sc@.len() implies is_lower_alpha(sc@[j]) by {
                if j == 1 {
                } else if j == 2 {
                } else {
                }
                }
            }
        }
        return Some((lg, sc));
    }
        proof {
            if r@ == c8@ {
                lemma_view_injective(r.word as u64, c8.word as u64);
            }
        }
    let c9 = mk4(0x54, 0x57, 0x00, 0x00);
    proof {
        assert(c9@ =~= seq![0x54u8, 0x57u8]);
    }
    if r.raw_word() == c9.raw_word() {
        let lg = mk8(0x7a, 0x68, 0x00, 0x00, 0x00, 0x00, 0x00, 0x00);
        let sc = mk4(0x48, 0x61, 0x6e, 0x74);
        proof {
            assert(lg@ =~= seq![0x7au8, 0x68u8]);
            assert(is_canon_language(lg@)) by {
                assert forall|j: int| 0 <= j < lg@.len() implies is_lower_alpha(lg@[j]) by {
                if j == 0 {
                } else {
                }
                }
                assert(lg@.len() != und_bytes().len() || lg@[0] != und_bytes()[0] || lg@[1] != und_bytes()[1]);
            }
            assert(sc@ =~= seq![0x48u8, 0x61u8, 0x6eu8, 0x74u8]);
            assert(is_canon_script(sc@)) by {
                assert forall|j: int| 1 <= j < sc@.len() implies is_lower_alpha(sc@[j]) by {
                if j == 1 {
                } else if j == 2 {
                } else {
                }
                }
            }
        }
        return Some((lg, sc));
    }
        proof {
            if r@ == c9@ {
                lemma_view_injective(r.word as u64, c9.word as u64);
            }
        }
    let c10 = mk4(0x49, 0x4e, 0x00, 0x00);
    proof {
        assert(c10@ =~= seq![0x49u8, 0x4eu8]);
    }
    if r.raw_word() == c10.raw_word() {
        let lg = mk8(0x68, 0x69, 0x00, 0x00, 0x00, 0x00, 0x00, 0x00);
        let sc = mk4(0x44, 0x65, 0x76, 0x61);
        proof {
            assert(lg@ =~= seq![0x68u8, 0x69u8]);
            assert(is_canon_language(lg@)) by {
                assert forall|j: int| 0 <= j < lg@.len() implies is_lower_alpha(lg@[j]) by {
                if j == 0 {
                } else {
                }
                }
                assert(lg@.len() != und_bytes().len() || lg@[0] != und_bytes()[0] || lg@[1] != und_bytes()[1]);
            }
            assert(sc@ =~= seq![0x44u8, 0x65u8, 0x76u8, 0x61u8]);
            assert(is_canon_script(sc@)) by {
                assert forall|j: int| 1 <= j < sc@.len() implies is_lower_alpha(sc@[j]) by {
                if j == 1 {
                } else if j == 2 {
                } else {
                }
                }
            }
        }
        return Some((lg, sc));
    }
        proof {
            if r@ == c10@ {
                lemma_view_injective(r.word as u64, c10.word as u64);
            }
        }
    let c11 = mk4(0x55, 0x41, 0x00, 0x00);
    proof {
        assert(c11@ =~= seq![0x55u8, 0x41u8]);
    }
    if r.raw_word() == c11.raw_word() {
        let lg = mk8(0x75, 0x6b, 0x00, 0x00, 0x00, 0x00, 0x00, 0x00);
        let sc = mk4(0x43, 0x79, 0x72, 0x6c);
        proof {
            assert(lg@ =~= seq![0x75u8, 0x6bu8]);
            assert(is_canon_language(lg@)) by {
                assert forall|j: int| 0 <= j < lg@.len() implies is_lower_alpha(lg@[j]) by {
                if j == 0 {
                } else {
                }
                }
                assert(lg@.len() != und_bytes().len() || lg@[0] != und_bytes()[0] || lg@[1] != und_bytes()[1]);
            }
            assert(sc@ =~= seq![0x43u8, 0x79u8, 0x72u8, 0x6cu8]);
            assert(is_canon_script(sc@)) by {
                assert forall|j: int| 1 <= j < sc@.len() implies is_lower_alpha(sc@[j]) by {
                if j == 1 {
                } else if j == 2 {
                } else {
                }
                }
            }
        }
        return Some((lg, sc));
    }
        proof {
            if r@ == c11@ {
                lemma_view_injective(r.word as u64, c11.word as u64);
            }
        }
    None
}

} // verus!

verus! {

use crate::langid::{opt_view4, opt_view8};

/// The version of the likely-subtags data the table was drawn from.
pub fn cldr_version() -> (r: &'static str)
    ensures
        r@ == "35.1"@,
{
    "35.1"
}

/// Expands an under-specified (language, script, region) triple to its most
/// likely fully-specified form, trying the key shapes in priority order:
/// language and region, language and script, script and region, language
/// alone, script alone, region alone, then the global default for a fully
/// unspecified triple. Provided subtags are always kept; only missing ones
/// are filled in. A fully specified triple is returned unchanged as `None`.
pub open spec fn add_likely_spec(
    l: Option<Seq<u8>>,
    s: Option<Seq<u8>>,
    r: Option<Seq<u8>>,
) -> Option<(Option<Seq<u8>>, Option<Seq<u8>>, Option<Seq<u8>>)> {
    if l is Some && s is Some && r is Some {
        None
    } else if l is Some && r is Some && lang_region_spec(l->0, r->0) is Some {
        Some((l, Some(lang_region_spec(l->0, r->0)->0), r))
    } else if l is Some && s is Some && lang_script_spec(l->0, s->0) is Some {
        Some((l, s, Some(lang_script_spec(l->0, s->0)->0)))
    } else if s is Some && r is Some && script_region_spec(s->0, r->0) is Some {
        Some((Some(script_region_spec(s->0, r->0)->0), s, r))
    } else if l is Some && lang_only_spec(l->0) is Some {
        let p = lang_only_spec(l->0)->0;
        Some(
            (
                l,
                if s is Some {
                    s
                } else {
                    Some(p.0)
                },
                if r is Some {
                    r
                } else {
                    p.1
                },
            ),
        )
    } else if s is Some && script_only_spec(s->0) is Some {
        let p = script_only_spec(s->0)->0;
        Some(
            (
                if l is Some {
                    l
                } else {
                    Some(p.0)
                },
                s,
                if r is Some {
                    r
                } else {
                    Some(p.1)
                },
            ),
        )
    } else if r is Some && region_only_spec(r->0) is Some {
        let p = region_only_spec(r->0)->0;
        Some(
            (
                if l is Some {
                    l
                } else {
                    Some(p.0)
                },
                if s is Some {
                    s
                } else {
                    Some(p.1)
                },
                r,
            ),
        )
    } else if l is None && s is None && r is None {
        Some(
            (
                Some(seq![0x65u8, 0x6eu8]),
                Some(seq![0x4cu8, 0x61u8, 0x74u8, 0x6eu8]),
                Some(seq![0x55u8, 0x53u8]),
            ),
        )
    } else {
        None
    }
}

/// The most likely fully-specified form of a triple: the expansion when
/// one applies, the triple itself otherwise.
pub open spec fn maximize_spec(
    l: Option<Seq<u8>>,
    s: Option<Seq<u8>>,
    r: Option<Seq<u8>>,
) -> (Option<Seq<u8>>, Option<Seq<u8>>, Option<Seq<u8>>) {
    match add_likely_spec(l, s, r) {
        Some(m) => m,
        None => (l, s, r),
    }
}

/// Contracts a triple to its most reduced form with the same expansion:
/// language alone, then language and region, then language and script are
/// tried against the maximized form; `None` when no reduction applies.
pub open spec fn remove_likely_spec(
    l: Option<Seq<u8>>,
    s: Option<Seq<u8>>,
    r: Option<Seq<u8>>,
) -> Option<(Option<Seq<u8>>, Option<Seq<u8>>, Option<Seq<u8>>)> {
    let m = maximize_spec(l, s, r);
    if add_likely_spec(m.0, None, None) == Some(m) {
        Some((m.0, None, None))
    } else if m.2 is Some && add_likely_spec(m.0, None, m.2) == Some(m) {
        Some((m.0, None, m.2))
    } else if m.1 is Some && add_likely_spec(m.0, m.1, None) == Some(m) {
        Some((m.0, m.1, None))
    } else {
        None
    }
}

/// A contraction expands back to exactly what its input expands to:
/// removal never loses information that the table would re-derive.
pub proof fn lemma_remove_preserves_maximal(
    l: Option<Seq<u8>>,
    s: Option<Seq<u8>>,
    r: Option<Seq<u8>>,
)
    ensures
        remove_likely_spec(l, s, r) matches Some(t) ==> maximize_spec(t.0, t.1, t.2)
            == maximize_spec(l, s, r),
{
}

/// Equality of a resolver result triple with given packed components.
fn triple_eq(
    a: &(Option<TinyStr8>, Option<TinyStr4>, Option<TinyStr4>),
    bl: &Option<TinyStr8>,
    bs: &Option<TinyStr4>,
    br: &Option<TinyStr4>,
) -> (r: bool)
    requires
        a.0 matches Some(t) ==> t.wf(),
        a.1 matches Some(t) ==> t.wf(),
        a.2 matches Some(t) ==> t.wf(),
        bl matches Some(t) ==> t.wf(),
        bs matches Some(t) ==> t.wf(),
        br matches Some(t) ==> t.wf(),
    ensures
        r == ((opt_view8(a.0), opt_view4(a.1), opt_view4(a.2)) == (
            opt_view8(*bl),
            opt_view4(*bs),
            opt_view4(*br),
        )),
{
    let e0 = match (&a.0, bl) {
        (Some(x), Some(y)) => {
            proof {
                if x@ == y@ {
                    lemma_view_injective(x.word, y.word);
                }
            }
            x.raw_word() == y.raw_word()
        },
        (None, None) => true,
        _ => false,
    };
    let e1 = match (&a.1, bs) {
        (Some(x), Some(y)) => {
            proof {
                if x@ == y@ {
                    lemma_view_injective(x.word as u64, y.word as u64);
                }
            }
            x.raw_word() == y.raw_word()
        },
        (None, None) => true,
        _ => false,
    };
    let e2 = match (&a.2, br) {
        (Some(x), Some(y)) => {
            proof {
                if x@ == y@ {
                    lemma_view_injective(x.word as u64, y.word as u64);
                }
            }
            x.raw_word() == y.raw_word()
        },
        (None, None) => true,
        _ => false,
    };
    e0 && e1 && e2
}

/// Expands an under-specified packed triple along the likely-subtags
/// table; see `add_likely_spec`. The returned subtags are canonical.
pub fn add_likely_subtags(
    language: Option<TinyStr8>,
    script: Option<TinyStr4>,
    region: Option<TinyStr4>,
) -> (res: Option<(Option<TinyStr8>, Option<TinyStr4>, Option<TinyStr4>)>)
    requires
        language matches Some(t) ==> t.wf() && is_canon_language(t@),
        script matches Some(t) ==> t.wf() && is_canon_script(t@),
        region matches Some(t) ==> t.wf() && is_canon_region(t@),
    ensures
        res is Some <==> add_likely_spec(
            opt_view8(language),
            opt_view4(script),
            opt_view4(region),
        ) is Some,
        res matches Some(t) ==> add_likely_spec(
            opt_view8(language),
            opt_view4(script),
            opt_view4(region),
        ) matches Some(q) && opt_view8(t.0) == q.0 && opt_view4(t.1) == q.1 && opt_view4(t.2)
            == q.2 && (t.0 matches Some(x) ==> x.wf() && is_canon_language(x@)) && (t.1 matches
            Some(x) ==> x.wf() && is_canon_script(x@)) && (t.2 matches Some(x) ==> x.wf()
            && is_canon_region(x@)),
{
    if language.is_some() && script.is_some() && region.is_some() {
        return None;
    }
    match (language, region) {
        (Some(l), Some(rg)) => {
            match lang_region_lookup(&l, &rg) {
                Some(sc) => {
                    return Some((Some(l), Some(sc), Some(rg)));
                },
                None => {},
            }
        },
        _ => {},
    }
    match (language, script) {
        (Some(l), Some(sc)) => {
            match lang_script_lookup(&l, &sc) {
                Some(rg) => {
                    return Some((Some(l), Some(sc), Some(rg)));
                },
                None => {},
            }
        },
        _ => {},
    }
    match (script, region) {
        (Some(sc), Some(rg)) => {
            match script_region_lookup(&sc, &rg) {
                Some(l) => {
                    return Some((Some(l), Some(sc), Some(rg)));
                },
                None => {},
            }
        },
        _ => {},
    }
    match language {
        Some(l) => {
            match lang_only_lookup(&l) {
                Some((sc, rg)) => {
                    let out_script = match script {
                        Some(s0) => Some(s0),
                        None => Some(sc),
                    };
                    let out_region = match region {
                        Some(r0) => Some(r0),
                        None => rg,
                    };
                    return Some((Some(l), out_script, out_region));
                },
                None => {},
            }
        },
        None => {},
    }
    match script {
        Some(sc) => {
            match script_only_lookup(&sc) {
                Some((l, rg)) => {
                    let out_lang = match language {
                        Some(l0) => Some(l0),
                        None => Some(l),
                    };
                    let out_region = match region {
                        Some(r0) => Some(r0),
                        None => Some(rg),
                    };
                    return Some((out_lang, Some(sc), out_region));
                },
                None => {},
            }
        },
        None => {},
    }
    match region {
        Some(rg) => {
            match region_only_lookup(&rg) {
                Some((l, sc)) => {
                    let out_lang = match language {
                        Some(l0) => Some(l0),
                        None => Some(l),
                    };
                    let out_script = match script {
                        Some(s0) => Some(s0),
                        None => Some(sc),
                    };
                    return Some((out_lang, out_script, Some(rg)));
                },
                None => {},
            }
        },
        None => {},
    }
    if language.is_none() && script.is_none() && region.is_none() {
        let l = mk8(0x65, 0x6e, 0, 0, 0, 0, 0, 0);
        let sc = mk4(0x4c, 0x61, 0x74, 0x6e);
        let rg = mk4(0x55, 0x53, 0, 0);
        proof {
            assert(l@ =~= seq![0x65u8, 0x6eu8]);
            assert(is_canon_language(l@)) by {
                assert forall|j: int| 0 <= j < l@.len() implies is_lower_alpha(l@[j]) by {
                    if j == 0 {
                    } else {
                    }
                }
            }
            assert(sc@ =~= seq![0x4cu8, 0x61u8, 0x74u8, 0x6eu8]);
            assert(is_canon_script(sc@)) by {
                assert forall|j: int| 1 <= j < sc@.len() implies is_lower_alpha(sc@[j]) by {
                    if j == 1 {
                    } else if j == 2 {
                    } else {
                    }
                }
            }
            assert(rg@ =~= seq![0x55u8, 0x53u8]);
            assert(is_canon_region(rg@)) by {
                assert forall|j: int| 0 <= j < rg@.len() implies is_upper_alpha(rg@[j]) by {
                    if j == 0 {
                    } else {
                    }
                }
            }
        }
        return Some((Some(l), Some(sc), Some(rg)));
    }
    None
}

/// Contracts a packed triple to its most reduced equivalent form; see
/// `remove_likely_spec`. The returned subtags are canonical.
pub fn remove_likely_subtags(
    language: Option<TinyStr8>,
    script: Option<TinyStr4>,
    region: Option<TinyStr4>,
) -> (res: Option<(Option<TinyStr8>, Option<TinyStr4>, Option<TinyStr4>)>)
    requires
        language matches Some(t) ==> t.wf() && is_canon_language(t@),
        script matches Some(t) ==> t.wf() && is_canon_script(t@),
        region matches Some(t) ==> t.wf() && is_canon_region(t@),
    ensures
        res is Some <==> remove_likely_spec(
            opt_view8(language),
            opt_view4(script),
            opt_view4(region),
        ) is Some,
        res matches Some(t) ==> remove_likely_spec(
            opt_view8(language),
            opt_view4(script),
            opt_view4(region),
        ) matches Some(q) && opt_view8(t.0) == q.0 && opt_view4(t.1) == q.1 && opt_view4(t.2)
            == q.2 && (t.0 matches Some(x) ==> x.wf() && is_canon_language(x@)) && (t.1 matches
            Some(x) ==> x.wf() && is_canon_script(x@)) && (t.2 matches Some(x) ==> x.wf()
            && is_canon_region(x@)),
{
    let (ml, ms, mr) = match add_likely_subtags(language, script, region) {
        Some(m) => m,
        None => (language, script, region),
    };
    let t1 = add_likely_subtags(ml, None, None);
    let hit1 = match &t1 {
        Some(t) => triple_eq(t, &ml, &ms, &mr),
        None => false,
    };
    if hit1 {
        return Some((ml, None, None));
    }
    if mr.is_some() {
        let t2 = add_likely_subtags(ml, None, mr);
        let hit2 = match &t2 {
            Some(t) => triple_eq(t, &ml, &ms, &mr),
            None => false,
        };
        if hit2 {
            return Some((ml, None, mr));
        }
    }
    if ms.is_some() {
        let t3 = add_likely_subtags(ml, ms, None);
        let hit3 = match &t3 {
            Some(t) => triple_eq(t, &ml, &ms, &mr),
            None => false,
        };
        if hit3 {
            return Some((ml, ms, None));
        }
    }
    None
}

} // verus!
