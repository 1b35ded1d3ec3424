//! # Scroll models
//!
//! The word-level addressing of the scroll: each atom is one word (or one structural
//! marker) of a work, placed by a work, a macro container, a namespace track, a
//! sub-mask of flags and a lexicographic key.
use vstd::prelude::*;
use crate::fsi::lex_key::{key_bytes, key_clone, LexKeyBuf};

verus! {

/// A work of the registry (e.g. 786 for the Quran).
#[derive(Debug, Clone, Copy, PartialEq, Eq, Structural)]
pub struct WorkID(pub i32);

/// A macro container of a work (e.g. a surah or a book).
#[derive(Debug, Clone, Copy, PartialEq, Eq, Structural)]
pub struct MacroID(pub i32);

/// A namespace track (e.g. `0x02` for the Arabic root text, 19 for a translation).
#[derive(Debug, Clone, Copy, PartialEq, Eq, Structural)]
pub struct NamespaceID(pub i16);

/// Flags describing an atom (logical anchor, right-to-left, structural marker).
#[derive(Debug, Clone, Copy, PartialEq, Eq, Structural)]
pub struct SubMask(pub u16);

impl SubMask {
    /// The atom is a logical anchor of the root text.
    pub const LOGICAL_ANCHOR: u16 = 0x0001;

    /// The atom is written right to left.
    pub const RTL: u16 = 0x0002;

    /// The atom is a structural marker (such as `AYAH:1`) rather than a word.
    pub const STRUCTURAL_MARKER: u16 = 0x0004;
}

/// Where an atom lives: work, macro container, namespace, flags and key.
#[derive(Debug)]
pub struct Coordinate {
    pub work: WorkID,
    pub macro_level: MacroID,
    pub namespace: NamespaceID,
    pub sub_mask: SubMask,
    pub lex_key: LexKeyBuf,
}

/// One word or marker of the scroll with its coordinate.
#[derive(Debug)]
pub struct ScriptureAtom {
    pub coordinate: Coordinate,
    pub text_content: String,
}

/// The abstract value of a coordinate: work, macro, namespace, flags and key bytes.
pub type CoordinateView = (i32, i32, i16, u16, Seq<u8>);

/// The abstract value of an atom: its coordinate and its text.
pub type AtomView = (CoordinateView, Seq<char>);

impl View for Coordinate {
    type V = CoordinateView;

    open spec fn view(&self) -> CoordinateView {
        (
            self.work.0,
            self.macro_level.0,
            self.namespace.0,
            self.sub_mask.0,
            key_bytes(self.lex_key),
        )
    }
}

impl View for ScriptureAtom {
    type V = AtomView;

    open spec fn view(&self) -> AtomView {
        (self.coordinate@, self.text_content@)
    }
}

/// The key bytes of an atom's view.
pub open spec fn key_of(a: AtomView) -> Seq<u8> {
    a.0.4
}

/// The views of a sequence of atoms.
pub open spec fn atom_views(s: Seq<ScriptureAtom>) -> Seq<AtomView> {
    s.map_values(|a: ScriptureAtom| a@)
}

impl Coordinate {
    /// A copy of this coordinate.
    pub fn duplicate(&self) -> (r: Coordinate)
        ensures
            r@ == self@,
    {
        Coordinate {
            work: self.work,
            macro_level: self.macro_level,
            namespace: self.namespace,
            sub_mask: self.sub_mask,
            lex_key: key_clone(&self.lex_key),
        }
    }
}

impl ScriptureAtom {
    /// A copy of this atom.
    pub fn duplicate(&self) -> (r: ScriptureAtom)
        ensures
            r@ == self@,
    {
        ScriptureAtom {
            coordinate: self.coordinate.duplicate(),
            text_content: self.text_content.clone(),
        }
    }
}

/// Copies of the atoms, in order.
pub fn duplicate_atoms(atoms: &Vec<ScriptureAtom>) -> (r: Vec<ScriptureAtom>)
    ensures
        atom_views(r@) == atom_views(atoms@),
{
    let mut r: Vec<ScriptureAtom> = Vec::new();
    let mut i: usize = 0;
    while i < atoms.len()
        invariant
            i <= atoms@.len(),
            r@.len() == i,
            forall|j: int| 0 <= j < i ==> (#[trigger] r@[j])@ == atoms@[j]@,
        decreases atoms@.len() - i,
    {
        r.push(atoms[i].duplicate());
        i = i + 1;
    }
    assert(atom_views(r@) =~= atom_views(atoms@));
    r
}

} // verus!
