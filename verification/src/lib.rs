//! Finding, searching and ranking project directories.
//!
//! The library holds the decisions of the project chooser: which directories
//! count as projects while walking a tree, how a query matches a path, and how
//! the cache of known projects is updated, ranked and written as text.

pub mod text;
pub mod path;
pub mod search;
pub mod cache;
pub mod format;
pub mod walker;
pub mod output;
pub mod countdown;
pub mod preview;
