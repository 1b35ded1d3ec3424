//! # Ingestion Engine (the seeder)
//!
//! Binds each parsed entry to its dictionary pointer and to the BLAKE3 hash of its
//! text, producing the atom that is persisted.
use vstd::prelude::*;
use crate::fsi::models::{LexiconID, ScriptureAtom, SubMask};
use crate::parsers::ParsedEntry;
use vstd::utf8::encode_utf8;

verus! {

/// The BLAKE3 digest of a byte string.
pub uninterp spec fn blake3_digest(data: Seq<u8>) -> Seq<u8>;

/// Hashes bytes with `blake3::hash`.
///
/// Trusted: the contract claims that the result is the BLAKE3 digest of exactly the
/// given bytes, and that the digest is 32 bytes long (`blake3::OUT_LEN`).
#[verifier::external_body]
fn blake3_hash(data: &[u8]) -> (h: Vec<u8>)
    ensures
        h@ == blake3_digest(data@),
        h@.len() == 32,
{
    blake3::hash(data).as_bytes().to_vec()
}

/// The atom of a parsed entry whose text the dictionary stored under `lexicon_id`
/// when a file is ingested: same coordinate and namespace, sub-mask 0
/// (plain text), and the BLAKE3 hash of the text's UTF-8 bytes.
pub fn build_atom(entry: ParsedEntry, lexicon_id: LexiconID) -> (a: ScriptureAtom)
    ensures
        a.coordinate == entry.coordinate,
        a.namespace_id == entry.namespace_id,
        a.lexicon_id == lexicon_id,
        a.sub_mask == SubMask(0),
        a.merkle_hash@ == blake3_digest(encode_utf8(entry.text@)),
        a.merkle_hash@.len() == 32,
{
    let merkle_hash = blake3_hash(entry.text.as_str().as_bytes());
    ScriptureAtom {
        coordinate: entry.coordinate,
        namespace_id: entry.namespace_id,
        lexicon_id,
        sub_mask: SubMask(0),
        merkle_hash,
    }
}

} // verus!
