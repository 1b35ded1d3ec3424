//! # FSI Domain (the stable bottom)
//!
//! The coordinate system of scripture: identifiers, keys and atoms, and the pipelines
//! that seed atoms from source texts.
pub mod format_seeder;
pub mod lex_key;
pub mod models;
pub mod scroll;
pub mod seeder;
