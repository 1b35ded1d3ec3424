//! # FSI Domain Models
//!
//! The identifiers of the fractional scripture index, wrapped in their own types so that
//! a work can never be mistaken for a namespace, and the atom that binds a coordinate to
//! a lexicon entry and its cryptographic hash.
use vstd::prelude::*;
use crate::text::{decimal, push_char, push_decimal};

verus! {

/// A work of the registry (PostgreSQL `INTEGER`).
#[derive(Debug, Clone, Copy, PartialEq, Eq, Hash, Structural)]
pub struct WorkID(pub i32);

/// A macro structural division, such as chapter 1.
#[derive(Debug, Clone, Copy, PartialEq, Eq, Hash, Structural)]
pub struct MacroID(pub i32);

/// The language or translation block of an atom (e.g. 1000 for Arabic).
#[derive(Debug, Clone, Copy, PartialEq, Eq, Hash, Structural)]
pub struct NamespaceID(pub i32);

/// A pointer into the universal dictionary (PostgreSQL `BIGINT`).
#[derive(Debug, Clone, Copy, PartialEq, Eq, Hash, Structural)]
pub struct LexiconID(pub i64);

/// The structural role of a text (e.g. 1 for an anchor, 0 for a translation).
#[derive(Debug, Clone, Copy, PartialEq, Eq, Structural)]
pub struct SubMask(pub i16);

/// The horizontal position of a word (e.g. `"00001"` or `"00001.a"`).
#[derive(Debug, Clone, PartialEq, Eq, Hash)]
pub struct LexKey(pub String);

/// Where an atom lives: work, macro division and key.
#[derive(Debug, Clone, PartialEq, Eq, Hash)]
pub struct Coordinate {
    pub work_id: WorkID,
    pub macro_id: MacroID,
    pub lex_key: LexKey,
}

/// A linguistic unit bound to its coordinate, dictionary entry and hash.
#[derive(Debug, Clone)]
pub struct ScriptureAtom {
    pub coordinate: Coordinate,
    pub namespace_id: NamespaceID,
    pub lexicon_id: LexiconID,
    pub sub_mask: SubMask,
    pub merkle_hash: Vec<u8>,
}

/// The path of a coordinate: work, macro and key separated by dots (e.g. `786.1.00001`).
pub open spec fn path_of(work: i32, macro_id: i32, lex_key: Seq<char>) -> Seq<char> {
    decimal(work as int) + seq!['.'] + decimal(macro_id as int) + seq!['.'] + lex_key
}

impl Coordinate {
    /// The coordinate as a dotted path, for routing and responses.
    pub fn to_path_string(&self) -> (s: String)
        ensures
            s@ == path_of(self.work_id.0, self.macro_id.0, self.lex_key.0@),
    {
        let mut s = String::new();
        push_decimal(&mut s, self.work_id.0 as i64);
        push_char(&mut s, '.');
        push_decimal(&mut s, self.macro_id.0 as i64);
        push_char(&mut s, '.');
        s.append(self.lex_key.0.as_str());
        assert(s@ =~= path_of(self.work_id.0, self.macro_id.0, self.lex_key.0@));
        s
    }
}

} // verus!
