//! A small verified engine for a human-editable, line-oriented bookmark file.
//!
//! The library parses a bracket-delimited text format into an indexed record
//! store, tracks per-field maximum character widths for column alignment,
//! keeps a reference-counted sorted set of category names, and regenerates
//! textual renderings lazily through version counters. All file, environment
//! and process handling lives outside the library and talks to it through
//! plain values.

use vstd::prelude::*;

pub mod arguments;
pub mod bookmark;
pub mod data;
pub mod environment;
pub mod menu;
pub mod parse_file;
pub mod parsed_file;
pub mod plain_text;
pub mod text;

verus! {

/// Separator lines in the rendered listing repeat this character.
pub const SEPARATOR_LINE_SYMBOL: char = '-';

/// Pseudo-entry the surrounding menu code offers above the listing; picking
/// it is a request to create a bookmark.
pub const ADD_BOOKMARK: &'static str = "-| Add Bookmark |-";

/// Hard ceiling on the number of characters of a title in an encoded line.
pub const TITLE_MAX_LENGTH: usize = 35;

/// Hard ceiling on the number of characters of a category in an encoded line.
pub const CATEGORY_MAX_LENGTH: usize = 35;

/// Hard ceiling on the number of characters of a URL in an encoded line.
pub const URL_MAX_LENGTH: usize = 2048;

} // verus!
