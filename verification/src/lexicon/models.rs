//! # Lexicon Domain Models
use vstd::prelude::*;

verus! {

/// A pointer to one entry of the dictionary (PostgreSQL `BIGINT`).
#[derive(Debug, Clone, Copy, PartialEq, Eq, Hash, Structural)]
pub struct LexiconID(pub i64);

/// An ISO 639-1 language code.
#[derive(Debug, Clone, PartialEq, Eq, Hash)]
pub struct LanguageCode(pub String);

} // verus!
