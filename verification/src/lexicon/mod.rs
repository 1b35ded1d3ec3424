//! # Lexicon Domain (the typesetter's drawer)
//!
//! The universal dictionary of strings: its identifiers and the tokenization rule of
//! its ingestion gateway.
pub mod engine;
pub mod models;

pub use models::{LanguageCode, LexiconID};
