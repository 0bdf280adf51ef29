//! A grocery-list assistant's core: free-text lines become list entries, and on
//! request the entries are grouped by keyword categories, each group standing
//! where its first item stood.
//!
//! - `text`: whitespace, words and line splitting.
//! - `rules`: the ordered keyword categories and how an entry is classified.
//! - `grocery`: the list, its consolidation into groups, and message handling.

pub mod grocery;
pub mod rules;
pub mod text;
