//! # Content Engine (the assembler)
//!
//! Combines an atom's coordinate with the dictionary text it points to into a
//! presentation-ready verse.
use vstd::prelude::*;
use crate::fsi::models::{path_of, Coordinate};

verus! {

/// A verse as sent to the gateway: its coordinate path and its text.
#[derive(Debug)]
pub struct ReadableVerse {
    pub coordinate: String,
    pub text: String,
}

/// Assembles the verse at `coordinate` from the text its atom points to.
pub fn readable_verse(coordinate: &Coordinate, text: String) -> (v: ReadableVerse)
    ensures
        v.coordinate@ == path_of(coordinate.work_id.0, coordinate.macro_id.0, coordinate.lex_key.0@),
        v.text@ == text@,
{
    ReadableVerse { coordinate: coordinate.to_path_string(), text }
}

} // verus!
