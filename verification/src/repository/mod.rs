//! # Repository Domain (the data access layer)
//!
//! Storage that can be held in memory and reasoned about; database adapters live with
//! the application.
pub mod fsi_mock;
