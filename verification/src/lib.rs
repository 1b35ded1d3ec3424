//! # Scripture OS Core
//!
//! The verified core of Scripture OS: coordinates and keys of the scripture index,
//! address resolution, text parsing and assembly.
pub mod engines;
pub mod fsi;
pub mod lexicon;
pub mod models;
pub mod parsers;
pub mod repository;
pub mod text;
pub mod utils;
