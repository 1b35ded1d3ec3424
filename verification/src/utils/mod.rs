//! Shared primitives.
pub mod errors;
