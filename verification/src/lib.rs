//! Parsing, validation, normalization, comparison and serialization of
//! Unicode/BCP-47-style language identifiers (`en-US`, `zh-Hans-CN`,
//! `ca-ES-valencia`), built on a compact fixed-capacity ASCII string
//! representation packed into a single machine word.

pub use crate::errors::{LanguageIdentifierError, ParserError};
pub use crate::langid::{canonicalize, CharacterDirection, LangIdView, LanguageIdentifier};
pub use crate::subtags::{
    parse_language_subtag, parse_region_subtag, parse_script_subtag, parse_variant_subtag,
};
pub use crate::tinystr::{TinyStr4, TinyStr8, TinyStrError};

pub mod errors;
pub mod layout;
pub mod likelysubtags;
pub mod langid;
pub mod parser;
pub mod subtags;
pub mod tinystr;
