//! Building blocks of a recursive, parallel search over web pages: parsing
//! and joining page addresses, the search paths with their visited sets, and
//! the decisions taken at each page of the search.

pub mod text;
pub mod url_helpers;
pub mod search_helpers;
pub mod search;
