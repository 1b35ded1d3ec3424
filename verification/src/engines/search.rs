//! # Search Engine (the finder)
//!
//! Validates keyword queries and turns a page number into the window of results to
//! fetch; ranking and snippets are left to the storage.
use vstd::prelude::*;
use crate::text::{chars_of, trim, trim_str};

verus! {

/// The number of results on one page.
pub const PAGE_SIZE: i64 = 20;

/// Why a search was refused.
#[derive(Debug)]
pub enum SearchError {
    /// The trimmed query is shorter than three characters.
    QueryTooShort,
}

impl SearchError {
    /// The human-readable message of the error.
    pub fn message(&self) -> (m: String)
        ensures
            m@ == "Search query must be at least 3 characters long."@,
    {
        String::from_str("Search query must be at least 3 characters long.")
    }
}

/// The validated query and the window of results to fetch for `page`
/// of a keyword search: the query trimmed, the page size, and the
/// offset of the page, pages below 1 counting as page 1.
///
/// Queries whose trimmed text is shorter than three characters are refused.
pub fn keyword_search_window(query: &str, page: i64) -> (r: Result<(String, i64, i64), SearchError>)
    requires
        trim(query@).len() >= 3 ==> page - 1 <= i64::MAX / PAGE_SIZE,
    ensures
        trim(query@).len() < 3 ==> r is Err,
        trim(query@).len() >= 3 ==> (r matches Ok((q, limit, offset)) && q@ == trim(
            query@,
        ) && limit == PAGE_SIZE && offset == (if page < 1 {
            0
        } else {
            (page - 1) * PAGE_SIZE
        })),
{
    let trimmed = trim_str(query);
    if chars_of(trimmed.as_str()).len() < 3 {
        return Err(SearchError::QueryTooShort);
    }
    let valid_page = if page < 1 {
        1
    } else {
        page
    };
    let limit: i64 = PAGE_SIZE;
    let offset: i64 = (valid_page - 1) * limit;
    Ok((trimmed, limit, offset))
}

} // verus!
