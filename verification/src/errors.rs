//! Typed errors of the identifier grammar.

use vstd::prelude::*;

verus! {

/// Grammar or shape violation reported by a subtag validator or by the
/// identifier parser.
#[derive(Debug, Clone, Copy, PartialEq, Eq, Structural)]
pub enum ParserError {
    /// The language position held text that is not a well-formed language
    /// subtag.
    InvalidLanguage,
    /// A later position held text that fits no grammar slot.
    InvalidSubtag,
}

/// Error reported by the `LanguageIdentifier` operations.
#[derive(Debug, Clone, Copy, PartialEq, Eq, Structural)]
pub enum LanguageIdentifierError {
    /// The underlying parser rejected the input.
    ParserError(ParserError),
    /// An unspecified failure.
    Unknown,
}

} // verus!
