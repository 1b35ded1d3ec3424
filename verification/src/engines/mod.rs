//! The service layer: the engines' decisions, apart from the storage they consult.
pub mod content;
pub mod fsi_content;
pub mod ingestion;
pub mod resolution;
pub mod search;
