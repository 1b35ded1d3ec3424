//! # Parsers Domain
//!
//! A source format (pipe-delimited text, CSV, ...) is read into `ParsedEntry` values
//! before the entries are stored in the dictionary and hashed.
pub mod quran;

use vstd::prelude::*;
use crate::fsi::models::{Coordinate, NamespaceID};
use crate::utils::errors::ScriptureError;

verus! {

/// Raw text extracted from a source file, with the coordinate it belongs at.
#[derive(Debug)]
pub struct ParsedEntry {
    pub coordinate: Coordinate,
    pub text: String,
    pub namespace_id: NamespaceID,
}

/// The abstract value of an entry: work, macro, key, text and namespace.
pub type EntryView = (i32, i32, Seq<char>, Seq<char>, i32);

impl View for ParsedEntry {
    type V = EntryView;

    open spec fn view(&self) -> EntryView {
        (
            self.coordinate.work_id.0,
            self.coordinate.macro_id.0,
            self.coordinate.lex_key.0@,
            self.text@,
            self.namespace_id.0,
        )
    }
}

/// A source format that can be read into parsed entries.
pub trait ScriptureParser: Send + Sync {
    /// Reads raw text data into entries.
    fn parse(&self, raw_content: &str) -> Result<Vec<ParsedEntry>, ScriptureError>;
}

} // verus!
