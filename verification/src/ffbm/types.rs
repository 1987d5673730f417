//! Core types for bookmark representation.
use vstd::prelude::*;
use crate::ffbm::roots;
use crate::text::str_is;

verus! {

/// A Firefox profile discovered from Profile Groups.
#[derive(Debug, Clone)]
pub struct Profile {
    /// The display name of the profile.
    pub name: String,
    /// Absolute path to the profile directory.
    pub path: String,
}

/// A bookmark entry.
#[derive(Debug, Clone)]
pub struct Bookmark {
    /// The URL of the bookmark.
    pub url: String,
    /// The display title.
    pub title: String,
    /// Tags associated with this bookmark.
    pub tags: Vec<String>,
    /// Keyword shortcut for the bookmark.
    pub keyword: String,
    /// Date added as microseconds since Unix epoch.
    pub date_added: i64,
    /// Last modified as microseconds since Unix epoch.
    pub last_modified: i64,
    /// Firefox sync GUID.
    pub guid: String,
}

/// A separator entry in a bookmark folder.
#[derive(Debug, Clone)]
pub struct Separator {
    /// Date added as microseconds since Unix epoch.
    pub date_added: i64,
    /// Last modified as microseconds since Unix epoch.
    pub last_modified: i64,
    /// Firefox sync GUID.
    pub guid: String,
}

/// Index file for explicit ordering of items in a folder.
#[derive(Debug, Clone)]
pub struct FolderIndex {
    /// Ordered list of item names.
    /// - Bookmarks: filename without `.toml` extension
    /// - Separators: `---{guid}`
    /// - Subfolders: `name/` (trailing slash)
    pub order: Vec<String>,
}

/// Internal representation of a folder from the database.
#[derive(Debug, Clone)]
pub struct Folder {
    /// Database ID.
    pub id: i64,
    /// Parent folder ID.
    pub parent: i64,
    /// Folder title.
    pub title: String,
}

/// Internal representation of a bookmark from the database.
#[derive(Debug, Clone)]
pub struct DbBookmark {
    /// Parent folder ID.
    pub parent: i64,
    /// Place ID (foreign key to `moz_places`).
    pub place_id: Option<i64>,
    /// Bookmark title.
    pub title: String,
    /// Position within parent.
    pub position: i32,
    /// Firefox sync GUID.
    pub guid: String,
    /// Date added as microseconds since Unix epoch.
    pub date_added: i64,
    /// Last modified as microseconds since Unix epoch.
    pub last_modified: i64,
}

/// Internal representation of a separator from the database.
#[derive(Debug, Clone)]
pub struct DbSeparator {
    /// Parent folder ID.
    pub parent: i64,
    /// Position within parent.
    pub position: i32,
    /// Firefox sync GUID.
    pub guid: String,
    /// Date added as microseconds since Unix epoch.
    pub date_added: i64,
    /// Last modified as microseconds since Unix epoch.
    pub last_modified: i64,
}

/// The export directory of each root folder that is exported.
pub open spec fn root_dir(root_id: i64) -> Option<Seq<char>> {
    if root_id == roots::MENU {
        Some("menu"@)
    } else if root_id == roots::TOOLBAR {
        Some("toolbar"@)
    } else if root_id == roots::OTHER {
        Some("other"@)
    } else if root_id == roots::MOBILE {
        Some("mobile"@)
    } else {
        None
    }
}

/// The root folder exported to the directory `name`.
pub open spec fn root_of_dir(name: Seq<char>) -> Option<i64> {
    if name == "menu"@ {
        Some(roots::MENU)
    } else if name == "toolbar"@ {
        Some(roots::TOOLBAR)
    } else if name == "other"@ {
        Some(roots::OTHER)
    } else if name == "mobile"@ {
        Some(roots::MOBILE)
    } else {
        None
    }
}

/// Map a root folder ID to its export directory name.
pub fn root_dir_name(root_id: i64) -> (r: Option<&'static str>)
    ensures
        match root_dir(root_id) {
            Some(d) => r matches Some(s) && s@ == d,
            None => r is None,
        },
{
    if root_id == roots::MENU {
        Some("menu")
    } else if root_id == roots::TOOLBAR {
        Some("toolbar")
    } else if root_id == roots::OTHER {
        Some("other")
    } else if root_id == roots::MOBILE {
        Some("mobile")
    } else {
        None
    }
}

/// Map a directory name back to a root folder ID.
pub fn dir_name_to_root(name: &str) -> (r: Option<i64>)
    ensures
        r == root_of_dir(name@),
{
    if str_is(name, "menu") {
        Some(roots::MENU)
    } else if str_is(name, "toolbar") {
        Some(roots::TOOLBAR)
    } else if str_is(name, "other") {
        Some(roots::OTHER)
    } else if str_is(name, "mobile") {
        Some(roots::MOBILE)
    } else {
        None
    }
}

proof fn lemma_dir_names_differ()
    ensures
        "menu"@ != "toolbar"@,
        "menu"@ != "other"@,
        "menu"@ != "mobile"@,
        "toolbar"@ != "other"@,
        "toolbar"@ != "mobile"@,
        "other"@ != "mobile"@,
{
    reveal_strlit("menu");
    reveal_strlit("toolbar");
    reveal_strlit("other");
    reveal_strlit("mobile");
    assert("menu"@.len() != "toolbar"@.len());
    assert("menu"@[1] != "mobile"@[1]);
    assert("menu"@.len() != "other"@.len());
    assert("toolbar"@.len() != "other"@.len());
    assert("toolbar"@.len() != "mobile"@.len());
    assert("other"@.len() != "mobile"@.len());
}

/// Every exported root's directory name leads back to that root, and every
/// directory name that names a root is that root's directory name: the two
/// mappings are inverse to each other.
pub proof fn lemma_root_dir_round_trip(root_id: i64, name: Seq<char>)
    ensures
        root_dir(root_id) matches Some(d) ==> root_of_dir(d) == Some(root_id),
        root_of_dir(name) matches Some(r) ==> root_dir(r) == Some(name),
{
    lemma_dir_names_differ();
}

} // verus!
