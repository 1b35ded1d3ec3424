//! # Scripture OS Data Models
//!
//! The data contracts shared by the engines and the gateway.
use vstd::prelude::*;

verus! {

/// A page of results, standardizing list responses of the API.
pub struct Pagination<T> {
    pub data: Vec<T>,
    pub total_records: i64,
    pub current_page: i64,
    pub total_pages: i64,
    pub has_next: bool,
}

} // verus!
