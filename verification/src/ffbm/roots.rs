//! Root folder IDs in Firefox bookmarks.
use vstd::prelude::*;

verus! {

/// The root of all bookmark folders.
pub const ROOT: i64 = 1;

/// Bookmarks Menu folder.
pub const MENU: i64 = 2;

/// Bookmarks Toolbar folder.
pub const TOOLBAR: i64 = 3;

/// Tags folder (internal, not exported).
pub const TAGS: i64 = 4;

/// Other Bookmarks folder.
pub const OTHER: i64 = 5;

/// Mobile Bookmarks folder.
pub const MOBILE: i64 = 6;

} // verus!
