//! # Lexicon Engine (the gated vault)
//!
//! Blocks of scripture are registered token by token; a token is a run of characters
//! between whitespace.
use vstd::prelude::*;
use crate::text::{split_words, words};

verus! {

/// The tokens of a block of text, in order: the whitespace-separated pieces, each of
/// which is registered as one dictionary entry with one identifier returned.
pub fn register_tokens(text_block: &str) -> (tokens: Vec<String>)
    ensures
        tokens@.len() == words(text_block@).len(),
        forall|k: int| 0 <= k < tokens@.len() ==> (#[trigger] tokens@[k])@ == words(text_block@)[k],
{
    split_words(text_block)
}

} // verus!
