//! Bookmark item types in `moz_bookmarks`.
use vstd::prelude::*;

verus! {

/// A bookmark (URL).
pub const BOOKMARK: i32 = 1;

/// A folder.
pub const FOLDER: i32 = 2;

/// A separator line.
pub const SEPARATOR: i32 = 3;

} // verus!
