//! The plan of an export: the directories made for folders, the files
//! written for bookmarks and separators under names that clash with no file
//! already there, and each directory's index.  Reading the database and the
//! file system, and writing files, are the program's business.
use vstd::prelude::*;
use std::collections::HashMap;
use crate::ffbm::db::{build_folder_titles, build_folder_tree, parent_map, reaches_top, texts, title_map, title_view};
use crate::ffbm::export::{
    lemma_creation_indices, keyed_folders,
    climbs_out, creation_indices, creation_order, folder_depth_of, folder_dir, folder_entry_name,
    folder_export_dir, folder_index_name, gets_directory, is_tag_entry, item_dir, item_export_dir,
    numbered, numbered_name, sanitize_filename, sanitized, separator_base_name, separator_name,
    tag_entry,
};
use crate::text::{append_chars, chars_eq, chars_of, string_of};
use crate::ffbm::types::{DbBookmark, DbSeparator, Folder};
use crate::git_branches::decimal;
use crate::order::{lemma_sort_by_key, lemma_sort_by_key_map, sort_by_key, sort_by_key_stable};

verus! {

/// The name tried for a file after `c` clashes: the base name itself, then
/// `base-1`, `base-2`, and so on.
pub open spec fn candidate(base: Seq<char>, c: nat) -> Seq<char> {
    if c == 0 {
        base
    } else {
        numbered(base, c)
    }
}

/// The path (directory segments, file name) tried after `c` clashes.
pub open spec fn cand_path(dir: Seq<Seq<char>>, base: Seq<char>, ext: Seq<char>, c: nat) -> (
    Seq<Seq<char>>,
    Seq<char>,
) {
    (dir, candidate(base, c) + ext)
}

/// Whether `c` clashes are what it takes to find a free name: its path is not
/// taken, and every path tried before it is.
pub open spec fn first_free_at(
    dir: Seq<Seq<char>>,
    base: Seq<char>,
    ext: Seq<char>,
    taken: Seq<(Seq<Seq<char>>, Seq<char>)>,
    c: nat,
) -> bool {
    &&& !taken.contains(cand_path(dir, base, ext, c))
    &&& forall|d: nat| d < c ==> taken.contains(#[trigger] cand_path(dir, base, ext, d))
}

/// How many clashes it takes to find a free name.
pub open spec fn free_counter(
    dir: Seq<Seq<char>>,
    base: Seq<char>,
    ext: Seq<char>,
    taken: Seq<(Seq<Seq<char>>, Seq<char>)>,
) -> nat {
    choose|c: nat| first_free_at(dir, base, ext, taken, c)
}

proof fn lemma_decimal_len(n: nat)
    ensures
        decimal(n).len() >= 1,
        n >= 10 ==> decimal(n).len() >= 2,
    decreases n,
{
    if n >= 10 {
        lemma_decimal_len(n / 10);
    }
}

/// Different numbers have different decimal texts.
proof fn lemma_decimal_injective(a: nat, b: nat)
    requires
        decimal(a) == decimal(b),
    ensures
        a == b,
    decreases a,
{
    lemma_decimal_len(a);
    lemma_decimal_len(b);
    if a < 10 && b < 10 {
        assert(decimal(a)[0] == decimal(b)[0]);
        assert(((a + 48) as char) as u32 == a + 48);
        assert(((b + 48) as char) as u32 == b + 48);
        assert(decimal(a)[0] == (a + 48) as char);
        assert(a == b);
    } else if a >= 10 && b >= 10 {
        let da = decimal(a);
        let db = decimal(b);
        assert(da.last() == db.last());
        assert(da.drop_last() =~= decimal(a / 10));
        assert(db.drop_last() =~= decimal(b / 10));
        lemma_decimal_injective(a / 10, b / 10);
        assert(((a % 10 + 48) as char) as u32 == a % 10 + 48);
        assert(((b % 10 + 48) as char) as u32 == b % 10 + 48);
        assert(a % 10 == b % 10);
        assert(a == 10 * (a / 10) + a % 10);
        assert(b == 10 * (b / 10) + b % 10);
        assert(a == b);
    } else {
        assert(decimal(a).len() != decimal(b).len());
    }
}

/// Different clash counts give different names.
proof fn lemma_candidate_injective(base: Seq<char>, c1: nat, c2: nat)
    requires
        candidate(base, c1) == candidate(base, c2),
    ensures
        c1 == c2,
{
    reveal_strlit("-");
    lemma_decimal_len(c1);
    lemma_decimal_len(c2);
    if c1 == 0 && c2 != 0 {
        assert(candidate(base, c2).len() > base.len());
    } else if c1 != 0 && c2 == 0 {
        assert(candidate(base, c1).len() > base.len());
    } else if c1 != 0 && c2 != 0 {
        let k: int = base.len() + 1int;
        assert(candidate(base, c1).skip(k) =~= decimal(c1));
        assert(candidate(base, c2).skip(k) =~= decimal(c2));
        lemma_decimal_injective(c1, c2);
    }
}

proof fn lemma_suffix_cancel(a: Seq<char>, b: Seq<char>, e: Seq<char>)
    requires
        a + e == b + e,
    ensures
        a == b,
{
    assert((a + e).len() == a.len() + e.len());
    assert((b + e).len() == b.len() + e.len());
    assert((a + e).len() == (b + e).len());
    assert(a.len() == b.len());
    assert forall|i: int| 0 <= i < a.len() implies a[i] == b[i] by {
        assert((a + e)[i] == a[i]);
        assert((b + e)[i] == b[i]);
    }
    assert(a =~= b);
}

/// As long as every name tried is taken, there are at least as many taken
/// paths as names tried, so the search for a free name ends.
proof fn lemma_candidates_fit(
    dir: Seq<Seq<char>>,
    base: Seq<char>,
    ext: Seq<char>,
    taken: Seq<(Seq<Seq<char>>, Seq<char>)>,
    c: nat,
)
    requires
        forall|d: nat| d <= c ==> taken.contains(#[trigger] cand_path(dir, base, ext, d)),
    ensures
        c + 1 <= taken.len(),
{
    let tried = vstd::set_lib::set_int_range(0, c + 1int);
    let f = |d: int| choose|j: int| 0 <= j < taken.len() && taken[j] == cand_path(dir, base, ext, d as nat);
    vstd::set_lib::lemma_int_range(0, c + 1int);
    assert forall|d: int| tried.contains(d) implies 0 <= #[trigger] f(d) < taken.len() && taken[f(d)]
        == cand_path(dir, base, ext, d as nat) by {
        assert(taken.contains(cand_path(dir, base, ext, d as nat)));
    }
    assert(vstd::relations::injective_on(f, tried)) by {
        assert forall|x: int, y: int| tried.contains(x) && tried.contains(y) && #[trigger] f(x)
            == #[trigger] f(y) implies x == y by {
            assert(taken[f(x)] == cand_path(dir, base, ext, x as nat));
            assert(taken[f(y)] == cand_path(dir, base, ext, y as nat));
            lemma_suffix_cancel(candidate(base, x as nat), candidate(base, y as nat), ext);
            lemma_candidate_injective(base, x as nat, y as nat);
        }
    }
    let img = tried.map(f);
    vstd::set_lib::lemma_map_size(tried, img, f);
    let idx = vstd::set_lib::set_int_range(0, taken.len() as int);
    vstd::set_lib::lemma_int_range(0, taken.len() as int);
    assert(img.subset_of(idx)) by {
        assert forall|j: int| img.contains(j) implies idx.contains(j) by {
            let d = choose|d: int| tried.contains(d) && f(d) == j;
        }
    }
    vstd::set_lib::lemma_len_subset(img, idx);
}

/// The least clash count that finds a free name is the one `free_counter`
/// names.
proof fn lemma_free_counter(
    dir: Seq<Seq<char>>,
    base: Seq<char>,
    ext: Seq<char>,
    taken: Seq<(Seq<Seq<char>>, Seq<char>)>,
    c: nat,
)
    requires
        first_free_at(dir, base, ext, taken, c),
    ensures
        free_counter(dir, base, ext, taken) == c,
{
    let k = free_counter(dir, base, ext, taken);
    assert(first_free_at(dir, base, ext, taken, k));
    if k < c {
        assert(taken.contains(cand_path(dir, base, ext, k)));
    } else if c < k {
        assert(taken.contains(cand_path(dir, base, ext, c)));
    }
}

/// What an exported file holds: the bookmark or the separator at that index
/// of the lists read from the database.
#[derive(Debug, Clone, Copy, PartialEq, Eq, Structural)]
pub enum ExportItem {
    Bookmark(usize),
    Separator(usize),
}

/// What the export has planned so far: the folder directories to make, the
/// files to write (directory, name without extension, content), the paths
/// written, each directory's index entries (position, name) in the order
/// recorded, and the files left alone because they were there already.
#[verifier::ext_equal]
pub struct ExportState {
    pub folder_dirs: Seq<Seq<Seq<char>>>,
    pub files: Seq<(Seq<Seq<char>>, Seq<char>, ExportItem)>,
    pub written: Seq<(Seq<Seq<char>>, Seq<char>)>,
    pub index: Seq<(Seq<Seq<char>>, Seq<(i64, Seq<char>)>)>,
    pub bookmarks_skipped: nat,
    pub separators_skipped: nat,
}

/// What stands under the export directory: the files that were there before
/// the export, which are left alone, and every path that blocks a name (the
/// files and directories that were there, and the folder directories the
/// export makes).
pub struct Existing {
    pub files: Seq<(Seq<Seq<char>>, Seq<char>)>,
    pub taken: Seq<(Seq<Seq<char>>, Seq<char>)>,
}

/// Directories as paths: the directory above, and the last name.
pub open spec fn dir_paths(ds: Seq<Seq<Seq<char>>>) -> Seq<(Seq<Seq<char>>, Seq<char>)> {
    ds.map_values(|d: Seq<Seq<char>>| (d.drop_last(), d.last()))
}

/// Where the entries of directory `dir` stand in `index`.
pub open spec fn slot(index: Seq<(Seq<Seq<char>>, Seq<(i64, Seq<char>)>)>, dir: Seq<Seq<char>>) -> Option<
    int,
>
    decreases index.len(),
{
    if index.len() == 0 {
        None
    } else if index.last().0 == dir {
        Some(index.len() - 1)
    } else {
        slot(index.drop_last(), dir)
    }
}

/// `index` with the entry (`position`, `name`) recorded for `dir`.
pub open spec fn add_entry(
    index: Seq<(Seq<Seq<char>>, Seq<(i64, Seq<char>)>)>,
    dir: Seq<Seq<char>>,
    position: i64,
    name: Seq<char>,
) -> Seq<(Seq<Seq<char>>, Seq<(i64, Seq<char>)>)> {
    match slot(index, dir) {
        Some(k) => index.update(k, (dir, index[k].1.push((position, name)))),
        None => index.push((dir, seq![(position, name)])),
    }
}

/// The position the database gives folder `id`: the last recorded, else 0.
pub open spec fn position_of(positions: Seq<(i64, i32)>, id: i64) -> i32
    decreases positions.len(),
{
    if positions.len() == 0 {
        0
    } else if positions.last().0 == id {
        positions.last().1
    } else {
        position_of(positions.drop_last(), id)
    }
}

/// Making the directory of folder `f`, and listing it in its parent's index.
pub open spec fn folder_export_step(
    st: ExportState,
    fs: Seq<Folder>,
    positions: Seq<(i64, i32)>,
    f: Folder,
) -> ExportState {
    match folder_dir(parent_map(fs), title_map(fs), f.id) {
        None => st,
        Some(d) => ExportState {
            folder_dirs: st.folder_dirs.push(d),
            index: add_entry(
                st.index,
                d.drop_last(),
                position_of(positions, f.id) as i64,
                folder_entry_name(f.title@),
            ),
            ..st
        },
    }
}

/// The folder directories of the first `n` folders in creation order.
pub open spec fn folders_pass(
    st: ExportState,
    fs: Seq<Folder>,
    positions: Seq<(i64, i32)>,
    order: Seq<usize>,
    n: int,
) -> ExportState
    decreases n,
{
    if n <= 0 {
        st
    } else {
        folder_export_step(
            folders_pass(st, fs, positions, order, n - 1),
            fs,
            positions,
            fs[order[n - 1] as int],
        )
    }
}

/// Exporting an item to directory `dir` under the base name `base` with
/// extension `ext`: if that file was there before the export, it is left
/// alone (and counted as skipped by `skip`); else it is written under the
/// first name that clashes with no file there before or written since.
/// Either way the name goes into the directory's index.
pub open spec fn item_step(
    st: ExportState,
    pre: Existing,
    dir: Seq<Seq<char>>,
    base: Seq<char>,
    ext: Seq<char>,
    position: i32,
    item: ExportItem,
) -> ExportState {
    if pre.files.contains((dir, base + ext)) {
        ExportState {
            index: add_entry(st.index, dir, position as i64, base),
            bookmarks_skipped: st.bookmarks_skipped + if item is Bookmark {
                1nat
            } else {
                0nat
            },
            separators_skipped: st.separators_skipped + if item is Separator {
                1nat
            } else {
                0nat
            },
            ..st
        }
    } else {
        let name = candidate(base, free_counter(dir, base, ext, pre.taken + st.written));
        ExportState {
            files: st.files.push((dir, name, item)),
            written: st.written.push((dir, name + ext)),
            index: add_entry(st.index, dir, position as i64, name),
            ..st
        }
    }
}

/// Exporting bookmark `i`: tag entries, bookmarks outside the exported
/// roots, and bookmarks without a URL are left out.
pub open spec fn bookmark_step(
    st: ExportState,
    fs: Seq<Folder>,
    pre: Existing,
    bms: Seq<DbBookmark>,
    has_url: Seq<bool>,
    i: int,
) -> ExportState {
    let b = bms[i];
    if tag_entry(parent_map(fs), b.parent) || !has_url[i] {
        st
    } else {
        match item_dir(parent_map(fs), title_map(fs), b.parent) {
            None => st,
            Some(d) => item_step(
                st,
                pre,
                d,
                sanitized(b.title@),
                ".toml"@,
                b.position,
                ExportItem::Bookmark(i as usize),
            ),
        }
    }
}

/// Exporting separator `i`; separators outside the exported roots are left
/// out.
pub open spec fn separator_step(
    st: ExportState,
    fs: Seq<Folder>,
    pre: Existing,
    seps: Seq<DbSeparator>,
    i: int,
) -> ExportState {
    let s = seps[i];
    match item_dir(parent_map(fs), title_map(fs), s.parent) {
        None => st,
        Some(d) => item_step(
            st,
            pre,
            d,
            separator_name(s.guid@),
            ".separator"@,
            s.position,
            ExportItem::Separator(i as usize),
        ),
    }
}

pub open spec fn bookmarks_pass(
    st: ExportState,
    fs: Seq<Folder>,
    pre: Existing,
    bms: Seq<DbBookmark>,
    has_url: Seq<bool>,
    n: int,
) -> ExportState
    decreases n,
{
    if n <= 0 {
        st
    } else {
        bookmark_step(bookmarks_pass(st, fs, pre, bms, has_url, n - 1), fs, pre, bms, has_url, n - 1)
    }
}

pub open spec fn separators_pass(
    st: ExportState,
    fs: Seq<Folder>,
    pre: Existing,
    seps: Seq<DbSeparator>,
    n: int,
) -> ExportState
    decreases n,
{
    if n <= 0 {
        st
    } else {
        separator_step(separators_pass(st, fs, pre, seps, n - 1), fs, pre, seps, n - 1)
    }
}

/// The whole export: folder directories shallowest first, then the
/// bookmarks, then the separators, in the order read.
pub open spec fn export_state(
    fs: Seq<Folder>,
    positions: Seq<(i64, i32)>,
    bms: Seq<DbBookmark>,
    has_url: Seq<bool>,
    seps: Seq<DbSeparator>,
    pre: Seq<(Seq<Seq<char>>, Seq<char>)>,
    existing: Seq<(Seq<Seq<char>>, Seq<char>)>,
) -> ExportState {
    let st0 = ExportState {
        folder_dirs: Seq::empty(),
        files: Seq::empty(),
        written: Seq::empty(),
        index: Seq::empty(),
        bookmarks_skipped: 0,
        separators_skipped: 0,
    };
    let order = creation_indices(parent_map(fs), fs);
    let st1 = folders_pass(st0, fs, positions, order, order.len() as int);
    let ex = Existing { files: pre, taken: existing + dir_paths(st1.folder_dirs) };
    let st2 = bookmarks_pass(st1, fs, ex, bms, has_url, bms.len() as int);
    separators_pass(st2, fs, ex, seps, seps.len() as int)
}

/// The extension of the file an item is written to.
pub open spec fn item_ext(item: ExportItem) -> Seq<char> {
    match item {
        ExportItem::Bookmark(_) => ".toml"@,
        ExportItem::Separator(_) => ".separator"@,
    }
}

/// The path (directory, file name) a planned file is written at.
pub open spec fn file_path(f: (Seq<Seq<char>>, Seq<char>, ExportItem)) -> (Seq<Seq<char>>, Seq<char>) {
    (f.0, f.1 + item_ext(f.2))
}

/// No path is written twice, and none that was there before; the paths
/// written are those of the planned files.
pub open spec fn writes_fresh(st: ExportState, pre: Seq<(Seq<Seq<char>>, Seq<char>)>) -> bool {
    &&& st.written.no_duplicates()
    &&& forall|i: int| 0 <= i < st.written.len() ==> !pre.contains(#[trigger] st.written[i])
    &&& st.written == st.files.map_values(|f: (Seq<Seq<char>>, Seq<char>, ExportItem)| file_path(f))
}

proof fn lemma_all_taken(
    dir: Seq<Seq<char>>,
    base: Seq<char>,
    ext: Seq<char>,
    taken: Seq<(Seq<Seq<char>>, Seq<char>)>,
    k: nat,
)
    requires
        !(exists|c: nat| first_free_at(dir, base, ext, taken, c)),
    ensures
        forall|d: nat| d <= k ==> taken.contains(#[trigger] cand_path(dir, base, ext, d)),
    decreases k,
{
    if k > 0 {
        lemma_all_taken(dir, base, ext, taken, (k - 1) as nat);
    }
    if !taken.contains(cand_path(dir, base, ext, k)) {
        assert(first_free_at(dir, base, ext, taken, k));
    }
}

/// The search for a free name always finds one.
proof fn lemma_free_exists(
    dir: Seq<Seq<char>>,
    base: Seq<char>,
    ext: Seq<char>,
    taken: Seq<(Seq<Seq<char>>, Seq<char>)>,
)
    ensures
        first_free_at(dir, base, ext, taken, free_counter(dir, base, ext, taken)),
{
    if !(exists|c: nat| first_free_at(dir, base, ext, taken, c)) {
        lemma_all_taken(dir, base, ext, taken, taken.len());
        lemma_candidates_fit(dir, base, ext, taken, taken.len());
    }
}

proof fn lemma_item_step_fresh(
    st: ExportState,
    pre: Existing,
    dir: Seq<Seq<char>>,
    base: Seq<char>,
    ext: Seq<char>,
    position: i32,
    item: ExportItem,
)
    requires
        writes_fresh(st, pre.taken),
        ext == item_ext(item),
    ensures
        writes_fresh(item_step(st, pre, dir, base, ext, position, item), pre.taken),
{
    if !pre.files.contains((dir, base + ext)) {
        let taken = pre.taken + st.written;
        let c = free_counter(dir, base, ext, taken);
        lemma_free_exists(dir, base, ext, taken);
        let path = cand_path(dir, base, ext, c);
        assert(!taken.contains(path));
        assert(!pre.taken.contains(path)) by {
            if pre.taken.contains(path) {
                let j = choose|j: int| 0 <= j < pre.taken.len() && pre.taken[j] == path;
                assert(taken[j] == path);
            }
        }
        assert forall|i: int| 0 <= i < st.written.len() implies st.written[i] != path by {
            assert(taken[pre.taken.len() + i] == st.written[i]);
        }
        let w = st.written.push(path);
        assert(w.no_duplicates()) by {
            assert forall|a: int, b: int| 0 <= a < w.len() && 0 <= b < w.len() && a != b implies w[a]
                != w[b] by {
                if a < st.written.len() && b < st.written.len() {
                    assert(w[a] == st.written[a] && w[b] == st.written[b]);
                } else if a < st.written.len() {
                    assert(w[b] == path);
                    assert(w[a] == st.written[a]);
                } else {
                    assert(w[a] == path);
                    assert(w[b] == st.written[b]);
                }
            }
        }
        let next = item_step(st, pre, dir, base, ext, position, item);
        assert(next.written == w);
        assert(next.files == st.files.push((dir, candidate(base, c), item)));
        assert(w =~= next.files.map_values(|f: (Seq<Seq<char>>, Seq<char>, ExportItem)| file_path(f)));
        assert forall|i: int| 0 <= i < w.len() implies !pre.taken.contains(#[trigger] w[i]) by {
            if i < st.written.len() {
                assert(w[i] == st.written[i]);
            }
        }
    }
}

proof fn lemma_bookmarks_pass_fresh(
    st: ExportState,
    fs: Seq<Folder>,
    pre: Existing,
    bms: Seq<DbBookmark>,
    has_url: Seq<bool>,
    n: int,
)
    requires
        writes_fresh(st, pre.taken),
    ensures
        writes_fresh(bookmarks_pass(st, fs, pre, bms, has_url, n), pre.taken),
    decreases n,
{
    if n > 0 {
        lemma_bookmarks_pass_fresh(st, fs, pre, bms, has_url, n - 1);
        let prev = bookmarks_pass(st, fs, pre, bms, has_url, n - 1);
        let b = bms[n - 1];
        if !(tag_entry(parent_map(fs), b.parent) || !has_url[n - 1]) {
            if let Some(d) = item_dir(parent_map(fs), title_map(fs), b.parent) {
                lemma_item_step_fresh(
                    prev,
                    pre,
                    d,
                    sanitized(b.title@),
                    ".toml"@,
                    b.position,
                    ExportItem::Bookmark((n - 1) as usize),
                );
            }
        }
    }
}

proof fn lemma_separators_pass_fresh(
    st: ExportState,
    fs: Seq<Folder>,
    pre: Existing,
    seps: Seq<DbSeparator>,
    n: int,
)
    requires
        writes_fresh(st, pre.taken),
    ensures
        writes_fresh(separators_pass(st, fs, pre, seps, n), pre.taken),
    decreases n,
{
    if n > 0 {
        lemma_separators_pass_fresh(st, fs, pre, seps, n - 1);
        let prev = separators_pass(st, fs, pre, seps, n - 1);
        let sp = seps[n - 1];
        if let Some(d) = item_dir(parent_map(fs), title_map(fs), sp.parent) {
            lemma_item_step_fresh(
                prev,
                pre,
                d,
                separator_name(sp.guid@),
                ".separator"@,
                sp.position,
                ExportItem::Separator((n - 1) as usize),
            );
        }
    }
}

proof fn lemma_folders_pass_written(
    st: ExportState,
    fs: Seq<Folder>,
    positions: Seq<(i64, i32)>,
    order: Seq<usize>,
    n: int,
)
    ensures
        folders_pass(st, fs, positions, order, n).written == st.written,
        folders_pass(st, fs, positions, order, n).files == st.files,
    decreases n,
{
    if n > 0 {
        lemma_folders_pass_written(st, fs, positions, order, n - 1);
    }
}

/// An export overwrites nothing: it plans no two files at one path, and no
/// file at a path that was there before the export (a file or a directory,
/// `existing`) or that the export makes a folder directory at.
pub proof fn lemma_export_writes_fresh_paths(
    fs: Seq<Folder>,
    positions: Seq<(i64, i32)>,
    bms: Seq<DbBookmark>,
    has_url: Seq<bool>,
    seps: Seq<DbSeparator>,
    pre: Seq<(Seq<Seq<char>>, Seq<char>)>,
    existing: Seq<(Seq<Seq<char>>, Seq<char>)>,
)
    ensures
        forall|a: int, b: int|
            0 <= a < b < export_state(fs, positions, bms, has_url, seps, pre, existing).files.len() ==> file_path(
                #[trigger] export_state(fs, positions, bms, has_url, seps, pre, existing).files[a],
            ) != file_path(#[trigger] export_state(fs, positions, bms, has_url, seps, pre, existing).files[b]),
        forall|a: int|
            0 <= a < export_state(fs, positions, bms, has_url, seps, pre, existing).files.len() ==> !(existing
                + dir_paths(export_state(fs, positions, bms, has_url, seps, pre, existing).folder_dirs)).contains(
                file_path(#[trigger] export_state(fs, positions, bms, has_url, seps, pre, existing).files[a]),
            ),
{
    let st0 = ExportState {
        folder_dirs: Seq::empty(),
        files: Seq::empty(),
        written: Seq::empty(),
        index: Seq::empty(),
        bookmarks_skipped: 0,
        separators_skipped: 0,
    };
    let order = creation_indices(parent_map(fs), fs);
    let st1 = folders_pass(st0, fs, positions, order, order.len() as int);
    let ex = Existing { files: pre, taken: existing + dir_paths(st1.folder_dirs) };
    lemma_folders_pass_written(st0, fs, positions, order, order.len() as int);
    assert(st1.written =~= st1.files.map_values(|f: (Seq<Seq<char>>, Seq<char>, ExportItem)| file_path(f)));
    assert(writes_fresh(st1, ex.taken));
    lemma_bookmarks_pass_fresh(st1, fs, ex, bms, has_url, bms.len() as int);
    let st2 = bookmarks_pass(st1, fs, ex, bms, has_url, bms.len() as int);
    lemma_separators_pass_fresh(st2, fs, ex, seps, seps.len() as int);
    let st = export_state(fs, positions, bms, has_url, seps, pre, existing);
    lemma_passes_keep_dirs(st1, fs, ex, bms, has_url, seps);
    assert(st.folder_dirs == st1.folder_dirs);
    assert(writes_fresh(st, ex.taken));
    assert forall|a: int, b: int| 0 <= a < b < st.files.len() implies file_path(#[trigger] st.files[a])
        != file_path(#[trigger] st.files[b]) by {
        assert(st.written[a] == file_path(st.files[a]));
        assert(st.written[b] == file_path(st.files[b]));
    }
    assert forall|a: int| 0 <= a < st.files.len() implies !(existing + dir_paths(st.folder_dirs)).contains(
        file_path(#[trigger] st.files[a]),
    ) by {
        assert(st.written[a] == file_path(st.files[a]));
    }
}

proof fn lemma_keyed_len(tree: Map<i64, i64>, fs: Seq<Folder>, n: int)
    requires
        0 <= n,
    ensures
        keyed_folders(tree, fs, n).len() <= n,
    decreases n,
{
    if n > 0 {
        lemma_keyed_len(tree, fs, n - 1);
    }
}

/// No more folders get a directory than there are folders.
proof fn lemma_creation_len(tree: Map<i64, i64>, fs: Seq<Folder>)
    ensures
        creation_indices(tree, fs).len() <= fs.len(),
{
    let kf = keyed_folders(tree, fs, fs.len() as int);
    lemma_keyed_len(tree, fs, fs.len() as int);
    lemma_sort_by_key(kf);
    kf.to_multiset_ensures();
    sort_by_key(kf).to_multiset_ensures();
}

/// Bookmarks and separators make no folder directories.
proof fn lemma_passes_keep_dirs(
    st: ExportState,
    fs: Seq<Folder>,
    ex: Existing,
    bms: Seq<DbBookmark>,
    has_url: Seq<bool>,
    seps: Seq<DbSeparator>,
)
    ensures
        separators_pass(bookmarks_pass(st, fs, ex, bms, has_url, bms.len() as int), fs, ex, seps, seps.len() as int).folder_dirs
            == st.folder_dirs,
{
    lemma_bookmarks_keep_dirs(st, fs, ex, bms, has_url, bms.len() as int);
    lemma_separators_keep_dirs(bookmarks_pass(st, fs, ex, bms, has_url, bms.len() as int), fs, ex, seps, seps.len() as int);
}

proof fn lemma_bookmarks_keep_dirs(st: ExportState, fs: Seq<Folder>, ex: Existing, bms: Seq<DbBookmark>, has_url: Seq<bool>, n: int)
    ensures
        bookmarks_pass(st, fs, ex, bms, has_url, n).folder_dirs == st.folder_dirs,
    decreases n,
{
    if n > 0 {
        lemma_bookmarks_keep_dirs(st, fs, ex, bms, has_url, n - 1);
    }
}

proof fn lemma_separators_keep_dirs(st: ExportState, fs: Seq<Folder>, ex: Existing, seps: Seq<DbSeparator>, n: int)
    ensures
        separators_pass(st, fs, ex, seps, n).folder_dirs == st.folder_dirs,
    decreases n,
{
    if n > 0 {
        lemma_separators_keep_dirs(st, fs, ex, seps, n - 1);
    }
}

/// Each directory's index as written: its names in order of position,
/// entries at one position in the order recorded.
pub open spec fn index_files(index: Seq<(Seq<Seq<char>>, Seq<(i64, Seq<char>)>)>) -> Seq<
    (Seq<Seq<char>>, Seq<Seq<char>>),
> {
    index.map_values(
        |e: (Seq<Seq<char>>, Seq<(i64, Seq<char>)>)|
            (e.0, sort_by_key(e.1).map_values(|p: (i64, Seq<char>)| p.1)),
    )
}

/// The indices to write: those of directories where no `__index.toml` was
/// there before the export, which is kept as it is (with its comments).
pub open spec fn fresh_indices(
    ix: Seq<(Seq<Seq<char>>, Seq<Seq<char>>)>,
    pre: Seq<(Seq<Seq<char>>, Seq<char>)>,
) -> Seq<(Seq<Seq<char>>, Seq<Seq<char>>)>
    decreases ix.len(),
{
    if ix.len() == 0 {
        Seq::empty()
    } else {
        let r = fresh_indices(ix.drop_last(), pre);
        if pre.contains((ix.last().0, "__index.toml"@)) {
            r
        } else {
            r.push(ix.last())
        }
    }
}

/// No index file that was there before the export is written.
pub proof fn lemma_fresh_indices_skip_existing(
    ix: Seq<(Seq<Seq<char>>, Seq<Seq<char>>)>,
    pre: Seq<(Seq<Seq<char>>, Seq<char>)>,
)
    ensures
        forall|k: int|
            0 <= k < fresh_indices(ix, pre).len() ==> !pre.contains(
                ((#[trigger] fresh_indices(ix, pre)[k]).0, "__index.toml"@),
            ),
    decreases ix.len(),
{
    if ix.len() > 0 {
        lemma_fresh_indices_skip_existing(ix.drop_last(), pre);
        let r = fresh_indices(ix.drop_last(), pre);
        assert forall|k: int|
            0 <= k < fresh_indices(ix, pre).len() implies !pre.contains(
                ((#[trigger] fresh_indices(ix, pre)[k]).0, "__index.toml"@),
            ) by {
            if k < r.len() {
                assert(fresh_indices(ix, pre)[k] == r[k]);
            }
        }
    }
}

/// Paths (directory segments, file name) as text.
pub open spec fn path_views(v: Seq<(Vec<String>, String)>) -> Seq<(Seq<Seq<char>>, Seq<char>)> {
    v.map_values(|p: (Vec<String>, String)| (texts(p.0@), p.1@))
}

fn copy_text(s: &String) -> (r: String)
    ensures
        r@ == s@,
{
    s.clone()
}

fn copy_dir(d: &Vec<String>) -> (r: Vec<String>)
    ensures
        texts(r@) == texts(d@),
{
    let mut r: Vec<String> = Vec::new();
    let mut i: usize = 0;
    while i < d.len()
        invariant
            i <= d@.len(),
            texts(r@) == texts(d@).take(i as int),
        decreases d@.len() - i,
    {
        let ghost before = texts(r@);
        let s = copy_text(&d[i]);
        let ghost sv = s@;
        r.push(s);
        assert(texts(r@) =~= before.push(sv));
        i = i + 1;
        assert(texts(r@) =~= texts(d@).take(i as int));
    }
    assert(texts(d@).take(d@.len() as int) =~= texts(d@));
    r
}

fn same_dir(a: &Vec<String>, b: &Vec<String>) -> (r: bool)
    ensures
        r == (texts(a@) == texts(b@)),
{
    if a.len() != b.len() {
        assert(texts(a@).len() != texts(b@).len());
        return false;
    }
    let mut i: usize = 0;
    while i < a.len()
        invariant
            i <= a@.len(),
            a@.len() == b@.len(),
            forall|k: int| 0 <= k < i ==> texts(a@)[k] == texts(b@)[k],
        decreases a@.len() - i,
    {
        if !chars_eq(&chars_of(a[i].as_str()), &chars_of(b[i].as_str())) {
            assert(texts(a@)[i as int] != texts(b@)[i as int]);
            return false;
        }
        i = i + 1;
    }
    assert(texts(a@) =~= texts(b@));
    true
}

fn contains_path(list: &Vec<(Vec<String>, String)>, dir: &Vec<String>, file: &str) -> (r: bool)
    ensures
        r == path_views(list@).contains((texts(dir@), file@)),
{
    let ghost v = path_views(list@);
    let ghost p = (texts(dir@), file@);
    let mut i: usize = 0;
    while i < list.len()
        invariant
            i <= list@.len(),
            v == path_views(list@),
            p == (texts(dir@), file@),
            forall|k: int| 0 <= k < i ==> v[k] != p,
        decreases list@.len() - i,
    {
        if same_dir(&list[i].0, dir) && chars_eq(&chars_of(list[i].1.as_str()), &chars_of(file)) {
            assert(v[i as int] == p);
            return true;
        }
        i = i + 1;
    }
    false
}

fn text_concat(a: &str, b: &str) -> (r: String)
    ensures
        r@ == a@ + b@,
{
    let mut t = chars_of(a);
    append_chars(&mut t, &chars_of(b));
    string_of(&t)
}

/// The first name that clashes with no path taken: the base name, else
/// `base-1`, `base-2`, and so on, as the export tries them.
fn free_name(
    dir: &Vec<String>,
    base: &str,
    ext: &str,
    pre: &Vec<(Vec<String>, String)>,
    written: &Vec<(Vec<String>, String)>,
) -> (r: String)
    requires
        pre@.len() + written@.len() < usize::MAX,
    ensures
        r@ == candidate(
            base@,
            free_counter(texts(dir@), base@, ext@, path_views(pre@) + path_views(written@)),
        ),
{
    let ghost taken = path_views(pre@) + path_views(written@);
    let ghost d = texts(dir@);
    let mut c: usize = 0;
    loop
        invariant
            taken == path_views(pre@) + path_views(written@),
            d == texts(dir@),
            pre@.len() + written@.len() < usize::MAX,
            c <= taken.len(),
            forall|k: nat| k < c ==> taken.contains(#[trigger] cand_path(d, base@, ext@, k)),
        decreases taken.len() - c,
    {
        let name = if c == 0 {
            String::from_str(base)
        } else {
            numbered_name(base, c)
        };
        assert(name@ == candidate(base@, c as nat));
        let file = text_concat(name.as_str(), ext);
        let in_pre = contains_path(pre, dir, file.as_str());
        let in_written = contains_path(written, dir, file.as_str());
        proof {
            if path_views(pre@).contains((d, file@)) {
                let k = choose|k: int| 0 <= k < path_views(pre@).len() && path_views(pre@)[k] == (d, file@);
                assert(taken[k] == (d, file@));
            }
            if path_views(written@).contains((d, file@)) {
                let k = choose|k: int| 0 <= k < path_views(written@).len() && path_views(written@)[k] == (d, file@);
                assert(taken[path_views(pre@).len() + k] == (d, file@));
            }
            if taken.contains((d, file@)) {
                let k = choose|k: int| 0 <= k < taken.len() && taken[k] == (d, file@);
                if k < path_views(pre@).len() {
                    assert(path_views(pre@)[k] == (d, file@));
                } else {
                    assert(path_views(written@)[k - path_views(pre@).len()] == (d, file@));
                }
            }
        }
        if !in_pre && !in_written {
            proof {
                assert(first_free_at(d, base@, ext@, taken, c as nat));
                lemma_free_counter(d, base@, ext@, taken, c as nat);
            }
            return name;
        }
        proof {
            assert forall|k: nat| k <= c implies taken.contains(#[trigger] cand_path(d, base@, ext@, k)) by {
            }
            lemma_candidates_fit(d, base@, ext@, taken, c as nat);
        }
        c = c + 1;
    }
}

/// A directory's index entries as plain values.
pub open spec fn entries_view(v: Seq<(i64, String)>) -> Seq<(i64, Seq<char>)> {
    v.map_values(|p: (i64, String)| (p.0, p.1@))
}

/// The index entries of each directory as plain values.
pub open spec fn index_view(v: Seq<(Vec<String>, Vec<(i64, String)>)>) -> Seq<
    (Seq<Seq<char>>, Seq<(i64, Seq<char>)>),
> {
    v.map_values(|e: (Vec<String>, Vec<(i64, String)>)| (texts(e.0@), entries_view(e.1@)))
}

fn find_slot(index: &Vec<(Vec<String>, Vec<(i64, String)>)>, dir: &Vec<String>) -> (r: Option<usize>)
    ensures
        match slot(index_view(index@), texts(dir@)) {
            Some(k) => r == Some(k as usize),
            None => r is None,
        },
{
    let ghost iv = index_view(index@);
    let mut j: usize = index.len();
    assert(iv.take(j as int) =~= iv);
    while j > 0
        invariant
            j <= index@.len(),
            iv == index_view(index@),
            slot(iv, texts(dir@)) == slot(iv.take(j as int), texts(dir@)),
        decreases j,
    {
        assert(iv.take(j as int).drop_last() =~= iv.take(j - 1));
        if same_dir(&index[j - 1].0, dir) {
            return Some(j - 1);
        }
        j = j - 1;
    }
    None
}

proof fn lemma_slot_bound(index: Seq<(Seq<Seq<char>>, Seq<(i64, Seq<char>)>)>, dir: Seq<Seq<char>>)
    ensures
        slot(index, dir) matches Some(k) ==> 0 <= k < index.len() && index[k].0 == dir,
    decreases index.len(),
{
    if index.len() > 0 && index.last().0 != dir {
        lemma_slot_bound(index.drop_last(), dir);
    }
}

fn add_index_entry(
    index: &mut Vec<(Vec<String>, Vec<(i64, String)>)>,
    dir: Vec<String>,
    position: i64,
    name: String,
)
    ensures
        index_view(final(index)@) == add_entry(index_view(old(index)@), texts(dir@), position, name@),
{
    let ghost iv = index_view(index@);
    proof {
        lemma_slot_bound(iv, texts(dir@));
    }
    let n = index.len();
    assert(n == iv.len());
    match find_slot(index, &dir) {
        Some(k) => {
            proof {
                let k2 = slot(iv, texts(dir@))->Some_0;
                assert(0 <= k2 < iv.len() && iv[k2].0 == texts(dir@));
                assert(k2 == k as int);
            }
            let ghost nv = name@;
            let mut e = index.remove(k);
            let ghost ev = entries_view(e.1@);
            e.1.push((position, name));
            assert(entries_view(e.1@) =~= ev.push((position, nv)));
            index.insert(k, e);
            assert(iv[k as int].1 == ev);
            assert(iv[k as int].0 == texts(dir@));
            assert(index_view(index@) =~= iv.update(k as int, (texts(dir@), ev.push((position, nv)))));
            assert(add_entry(iv, texts(dir@), position, nv) == iv.update(
                k as int,
                (texts(dir@), ev.push((position, nv))),
            ));
        },
        None => {
            let ghost dv = texts(dir@);
            let ghost nv = name@;
            let mut items: Vec<(i64, String)> = Vec::new();
            items.push((position, name));
            assert(entries_view(items@) =~= seq![(position, nv)]);
            index.push((dir, items));
            assert(index_view(index@) =~= iv.push((dv, seq![(position, nv)])));
            assert(add_entry(iv, dv, position, nv) == iv.push((dv, seq![(position, nv)])));
        },
    }
}

/// A file to write: its directory (segments below the export directory),
/// its name without extension, and what it holds.
#[derive(Debug)]
pub struct ExportFile {
    pub dir: Vec<String>,
    pub name: String,
    pub item: ExportItem,
}

/// The files as plain values.
pub open spec fn file_views(v: Seq<ExportFile>) -> Seq<(Seq<Seq<char>>, Seq<char>, ExportItem)> {
    v.map_values(|f: ExportFile| (texts(f.dir@), f.name@, f.item))
}

/// Directories as plain values.
pub open spec fn dir_views(v: Seq<Vec<String>>) -> Seq<Seq<Seq<char>>> {
    v.map_values(|d: Vec<String>| texts(d@))
}

/// What an export does: the folder directories to make (shallowest first),
/// the files to write, each directory's index (names in order), and how
/// many bookmarks and separators were left alone because their files were
/// there already.
#[derive(Debug)]
pub struct ExportPlan {
    pub folder_dirs: Vec<Vec<String>>,
    pub files: Vec<ExportFile>,
    pub indices: Vec<(Vec<String>, Vec<String>)>,
    pub bookmarks_skipped: usize,
    pub separators_skipped: usize,
}

/// The indices as plain values.
pub open spec fn indices_view(v: Seq<(Vec<String>, Vec<String>)>) -> Seq<(Seq<Seq<char>>, Seq<Seq<char>>)> {
    v.map_values(|e: (Vec<String>, Vec<String>)| (texts(e.0@), texts(e.1@)))
}

/// An export being planned.
struct Exporter {
    folder_dirs: Vec<Vec<String>>,
    files: Vec<ExportFile>,
    written: Vec<(Vec<String>, String)>,
    index: Vec<(Vec<String>, Vec<(i64, String)>)>,
    bookmarks_skipped: usize,
    separators_skipped: usize,
}

impl Exporter {
    spec fn state(&self) -> ExportState {
        ExportState {
            folder_dirs: dir_views(self.folder_dirs@),
            files: file_views(self.files@),
            written: path_views(self.written@),
            index: index_view(self.index@),
            bookmarks_skipped: self.bookmarks_skipped as nat,
            separators_skipped: self.separators_skipped as nat,
        }
    }

    /// How many items were handled: written or left alone.
    spec fn handled(&self) -> int {
        self.written@.len() + self.bookmarks_skipped + self.separators_skipped
    }

    /// Exporting an item to `dir` under the base name `base`.
    fn add_item(
        &mut self,
        pre: &Vec<(Vec<String>, String)>,
        taken: &Vec<(Vec<String>, String)>,
        dir: Vec<String>,
        base: String,
        ext: &str,
        position: i32,
        item: ExportItem,
    )
        requires
            taken@.len() + old(self).handled() + 1 < usize::MAX,
        ensures
            final(self).state() == item_step(
                old(self).state(),
                Existing { files: path_views(pre@), taken: path_views(taken@) },
                texts(dir@),
                base@,
                ext@,
                position,
                item,
            ),
            final(self).handled() == old(self).handled() + 1,
    {
        let ghost st = self.state();
        let ghost dv = texts(dir@);
        let file = text_concat(base.as_str(), ext);
        if contains_path(pre, &dir, file.as_str()) {
            let ghost bv = base@;
            add_index_entry(&mut self.index, dir, position as i64, base);
            match item {
                ExportItem::Bookmark(_) => {
                    self.bookmarks_skipped = self.bookmarks_skipped + 1;
                },
                ExportItem::Separator(_) => {
                    self.separators_skipped = self.separators_skipped + 1;
                },
            }
            assert(self.state() =~= item_step(
                st,
                Existing { files: path_views(pre@), taken: path_views(taken@) },
                dv,
                bv,
                ext@,
                position,
                item,
            ));
        } else {
            let name = free_name(&dir, base.as_str(), ext, taken, &self.written);
            let ghost nv = name@;
            let written_name = text_concat(name.as_str(), ext);
            let ghost fv = file_views(self.files@);
            let ghost wv = path_views(self.written@);
            self.files.push(ExportFile { dir: copy_dir(&dir), name: copy_text(&name), item });
            assert(file_views(self.files@) =~= fv.push((dv, nv, item)));
            self.written.push((copy_dir(&dir), written_name));
            assert(path_views(self.written@) =~= wv.push((dv, nv + ext@)));
            add_index_entry(&mut self.index, dir, position as i64, name);
            assert(self.state() =~= item_step(
                st,
                Existing { files: path_views(pre@), taken: path_views(taken@) },
                dv,
                base@,
                ext@,
                position,
                item,
            ));
        }
    }
}

/// Whether every climb the export makes up the folder tree ends: from each
/// folder that gets a directory (whose depth fits a machine integer), and
/// from the folder of each bookmark and separator that is not a tag entry.
pub open spec fn climbs_end(fs: Seq<Folder>, bms: Seq<DbBookmark>, seps: Seq<DbSeparator>) -> bool {
    let t = parent_map(fs);
    &&& forall|i: int|
        0 <= i < fs.len() && gets_directory(#[trigger] fs[i]) ==> climbs_out(t, fs[i].id) && reaches_top(
            t,
            fs[i].id,
        ) && reaches_top(t, fs[i].parent) && folder_depth_of(t, fs[i]) <= i64::MAX
            && folder_depth_of(t, fs[i]) <= usize::MAX
    &&& forall|i: int|
        0 <= i < bms.len() && !tag_entry(t, (#[trigger] bms[i]).parent) ==> climbs_out(t, bms[i].parent)
            && reaches_top(t, bms[i].parent)
    &&& forall|i: int|
        0 <= i < seps.len() ==> climbs_out(t, (#[trigger] seps[i]).parent) && reaches_top(t, seps[i].parent)
}

fn position_lookup(ps: &Vec<(i64, i32)>, id: i64) -> (r: i32)
    ensures
        r == position_of(ps@, id),
{
    let mut j: usize = ps.len();
    assert(ps@.take(j as int) =~= ps@);
    while j > 0
        invariant
            j <= ps@.len(),
            position_of(ps@, id) == position_of(ps@.take(j as int), id),
        decreases j,
    {
        assert(ps@.take(j as int).drop_last() =~= ps@.take(j - 1));
        if ps[j - 1].0 == id {
            return ps[j - 1].1;
        }
        j = j - 1;
    }
    0
}

fn parent_dir(d: &Vec<String>) -> (r: Vec<String>)
    requires
        d@.len() > 0,
    ensures
        texts(r@) == texts(d@).drop_last(),
{
    let mut r: Vec<String> = Vec::new();
    let mut i: usize = 0;
    while i < d.len() - 1
        invariant
            i + 1 <= d@.len(),
            texts(r@) == texts(d@).take(i as int),
        decreases d@.len() - i,
    {
        let ghost before = texts(r@);
        let s = copy_text(&d[i]);
        let ghost sv = s@;
        r.push(s);
        assert(texts(r@) =~= before.push(sv));
        i = i + 1;
        assert(texts(r@) =~= texts(d@).take(i as int));
    }
    assert(texts(d@).take(i as int) =~= texts(d@).drop_last());
    r
}

fn sorted_names(items: Vec<(i64, String)>) -> (r: Vec<String>)
    ensures
        texts(r@) == sort_by_key(entries_view(items@)).map_values(|p: (i64, Seq<char>)| p.1),
{
    let ghost iv = items@;
    let sorted = sort_by_key_stable(items);
    let mut out: Vec<String> = Vec::new();
    let mut j: usize = 0;
    while j < sorted.len()
        invariant
            j <= sorted@.len(),
            sorted@ == sort_by_key(iv),
            texts(out@) == sorted@.take(j as int).map_values(|p: (i64, String)| p.1@),
        decreases sorted@.len() - j,
    {
        let ghost before = texts(out@);
        let s = copy_text(&sorted[j].1);
        let ghost sv = s@;
        out.push(s);
        assert(texts(out@) =~= before.push(sv));
        j = j + 1;
        assert(texts(out@) =~= sorted@.take(j as int).map_values(|p: (i64, String)| p.1@));
    }
    proof {
        let g = |s: String| s@;
        lemma_sort_by_key_map(iv, g);
        assert(entries_view(iv) =~= iv.map_values(|p: (i64, String)| (p.0, g(p.1))));
        assert(sorted@.take(sorted@.len() as int) =~= sorted@);
        assert(sort_by_key(iv).map_values(|p: (i64, String)| (p.0, g(p.1))).map_values(
            |p: (i64, Seq<char>)| p.1,
        ) =~= sorted@.map_values(|p: (i64, String)| p.1@));
    }
    out
}

/// Plans the export of the bookmarks read from the database: the folders
/// (with `positions`, each folder's position in its parent), the bookmarks
/// (with `has_url`, whether each has a place with a URL), the separators, and
/// the paths (directory segments below the export directory, last name)
/// that existed under the export directory before the export, directories as
/// well as files: an existing path is never written and its name is taken.
pub fn export_bookmarks(
    folders: &Vec<Folder>,
    positions: &Vec<(i64, i32)>,
    bookmarks: &Vec<DbBookmark>,
    has_url: &Vec<bool>,
    separators: &Vec<DbSeparator>,
    pre_existing: &Vec<(Vec<String>, String)>,
    existing: &Vec<(Vec<String>, String)>,
) -> (r: ExportPlan)
    requires
        has_url@.len() == bookmarks@.len(),
        climbs_end(folders@, bookmarks@, separators@),
        existing@.len() + folders@.len() + bookmarks@.len() + separators@.len() + 2 < usize::MAX,
    ensures
        dir_views(r.folder_dirs@) == export_state(
            folders@,
            positions@,
            bookmarks@,
            has_url@,
            separators@,
            path_views(pre_existing@),
            path_views(existing@),
        ).folder_dirs,
        file_views(r.files@) == export_state(
            folders@,
            positions@,
            bookmarks@,
            has_url@,
            separators@,
            path_views(pre_existing@),
            path_views(existing@),
        ).files,
        indices_view(r.indices@) == fresh_indices(
            index_files(
                export_state(
                    folders@,
                    positions@,
                    bookmarks@,
                    has_url@,
                    separators@,
                    path_views(pre_existing@),
                    path_views(existing@),
                ).index,
            ),
            path_views(pre_existing@),
        ),
        r.bookmarks_skipped == export_state(
            folders@,
            positions@,
            bookmarks@,
            has_url@,
            separators@,
            path_views(pre_existing@),
            path_views(existing@),
        ).bookmarks_skipped,
        r.separators_skipped == export_state(
            folders@,
            positions@,
            bookmarks@,
            has_url@,
            separators@,
            path_views(pre_existing@),
            path_views(existing@),
        ).separators_skipped,
{
    let ghost fs = folders@;
    let ghost pre = path_views(pre_existing@);
    let fsl = folders.as_slice();
    assert(fsl@ == fs);
    let tree = build_folder_tree(fsl);
    let titles = build_folder_titles(fsl);
    assert(title_view(titles@) =~= title_map(fs));
    let nf = folders.len();
    assert(nf == fs.len());
    proof {
        lemma_creation_indices(tree@, fs);
    }
    let order = creation_order(fsl, &tree);
    let mut ex = Exporter {
        folder_dirs: Vec::new(),
        files: Vec::new(),
        written: Vec::new(),
        index: Vec::new(),
        bookmarks_skipped: 0,
        separators_skipped: 0,
    };
    let ghost st0 = ex.state();
    assert(st0 =~= ExportState {
        folder_dirs: Seq::empty(),
        files: Seq::empty(),
        written: Seq::empty(),
        index: Seq::empty(),
        bookmarks_skipped: 0,
        separators_skipped: 0,
    });
    let mut j: usize = 0;
    while j < order.len()
        invariant
            j <= order@.len(),
            fs == folders@,
            tree@ == parent_map(fs),
            title_view(titles@) == title_map(fs),
            order@ == creation_indices(parent_map(fs), fs),
            forall|k: int|
                0 <= k < order@.len() ==> (#[trigger] order@[k]) < fs.len() && gets_directory(
                    fs[order@[k] as int],
                ),
            climbs_end(folders@, bookmarks@, separators@),
            ex.state() == folders_pass(st0, fs, positions@, order@, j as int),
            ex.handled() == 0,
            ex.folder_dirs@.len() <= j,
            forall|k: int| 0 <= k < ex.folder_dirs@.len() ==> (#[trigger] ex.folder_dirs@[k])@.len() > 0,
        decreases order@.len() - j,
    {
        let ghost before = ex.state();
        let k = order[j];
        let f = &folders[k];
        assert(gets_directory(fs[k as int]));
        match folder_export_dir(f.id, &tree, &titles) {
            None => {
                assert(ex.state() =~= folder_export_step(before, fs, positions@, fs[k as int]));
            },
            Some(d) => {
                let ghost dv = texts(d@);
                assert(dv.len() > 0);
                let parent = parent_dir(&d);
                let name = folder_index_name(f.title.as_str());
                let pos = position_lookup(positions, f.id);
                let ghost fdv = dir_views(ex.folder_dirs@);
                let ghost before_dirs = ex.folder_dirs@;
                assert(d@.len() > 0);
                ex.folder_dirs.push(d);
                assert(forall|k: int| 0 <= k < before_dirs.len() ==> ex.folder_dirs@[k] == before_dirs[k]);
                assert(dir_views(ex.folder_dirs@) =~= fdv.push(dv));
                add_index_entry(&mut ex.index, parent, pos as i64, name);
                assert(ex.state() =~= folder_export_step(before, fs, positions@, fs[k as int]));
            },
        }
        j = j + 1;
    }
    let ghost st1 = ex.state();
    proof {
        lemma_creation_len(parent_map(fs), fs);
    }
    let mut taken: Vec<(Vec<String>, String)> = Vec::new();
    let mut t: usize = 0;
    while t < existing.len()
        invariant
            t <= existing@.len(),
            path_views(taken@) == path_views(existing@).take(t as int),
        decreases existing@.len() - t,
    {
        let ghost before = path_views(taken@);
        taken.push((copy_dir(&existing[t].0), copy_text(&existing[t].1)));
        assert(path_views(taken@) =~= before.push(path_views(existing@)[t as int]));
        assert(path_views(existing@).take(t + 1) =~= path_views(existing@).take(t as int).push(
            path_views(existing@)[t as int],
        ));
        t = t + 1;
    }
    assert(path_views(existing@).take(existing@.len() as int) =~= path_views(existing@));
    let ghost fdirs = dir_paths(st1.folder_dirs);
    let mut u: usize = 0;
    while u < ex.folder_dirs.len()
        invariant
            u <= ex.folder_dirs@.len(),
            st1 == ex.state(),
            fdirs == dir_paths(st1.folder_dirs),
            forall|k: int| 0 <= k < ex.folder_dirs@.len() ==> (#[trigger] ex.folder_dirs@[k])@.len() > 0,
            path_views(taken@) == path_views(existing@) + fdirs.take(u as int),
        decreases ex.folder_dirs@.len() - u,
    {
        let d = &ex.folder_dirs[u];
        assert(d@.len() > 0);
        let parent = parent_dir(d);
        let last = copy_text(&d[d.len() - 1]);
        let ghost before = path_views(taken@);
        proof {
            assert(st1.folder_dirs[u as int] == texts(d@));
            assert(fdirs[u as int] == (texts(d@).drop_last(), texts(d@).last()));
            assert(last@ == texts(d@).last());
        }
        taken.push((parent, last));
        assert(path_views(taken@) =~= before.push(fdirs[u as int]));
        assert(fdirs.take(u + 1) =~= fdirs.take(u as int).push(fdirs[u as int]));
        u = u + 1;
    }
    assert(fdirs.take(ex.folder_dirs@.len() as int) =~= fdirs);
    let ghost exg = Existing { files: pre, taken: path_views(existing@) + dir_paths(st1.folder_dirs) };
    assert(path_views(taken@) == exg.taken);
    let mut i: usize = 0;
    while i < bookmarks.len()
        invariant
            i <= bookmarks@.len(),
            has_url@.len() == bookmarks@.len(),
            fs == folders@,
            pre == path_views(pre_existing@),
            tree@ == parent_map(fs),
            title_view(titles@) == title_map(fs),
            climbs_end(folders@, bookmarks@, separators@),
            existing@.len() + folders@.len() + bookmarks@.len() + separators@.len() + 2 < usize::MAX,
            taken@.len() <= existing@.len() + folders@.len(),
            exg == (Existing { files: path_views(pre_existing@), taken: path_views(taken@) }),
            ex.state() == bookmarks_pass(st1, fs, exg, bookmarks@, has_url@, i as int),
            ex.handled() <= i,
        decreases bookmarks@.len() - i,
    {
        let b = &bookmarks[i];
        if is_tag_entry(b.parent, &tree) || !has_url[i] {
        } else {
            assert(!tag_entry(parent_map(fs), bookmarks@[i as int].parent));
            match item_export_dir(b.parent, &tree, &titles) {
                None => {},
                Some(d) => {
                    let base = sanitize_filename(b.title.as_str());
                    ex.add_item(pre_existing, &taken, d, base, ".toml", b.position, ExportItem::Bookmark(i));
                },
            }
        }
        i = i + 1;
    }
    let ghost st2 = ex.state();
    let mut i: usize = 0;
    while i < separators.len()
        invariant
            i <= separators@.len(),
            fs == folders@,
            pre == path_views(pre_existing@),
            tree@ == parent_map(fs),
            title_view(titles@) == title_map(fs),
            climbs_end(folders@, bookmarks@, separators@),
            existing@.len() + folders@.len() + bookmarks@.len() + separators@.len() + 2 < usize::MAX,
            taken@.len() <= existing@.len() + folders@.len(),
            exg == (Existing { files: path_views(pre_existing@), taken: path_views(taken@) }),
            ex.state() == separators_pass(st2, fs, exg, separators@, i as int),
            ex.handled() <= bookmarks@.len() + i,
        decreases separators@.len() - i,
    {
        let sp = &separators[i];
        assert(climbs_out(parent_map(fs), separators@[i as int].parent));
        match item_export_dir(sp.parent, &tree, &titles) {
            None => {},
            Some(d) => {
                let base = separator_base_name(sp.guid.as_str());
                ex.add_item(pre_existing, &taken, d, base, ".separator", sp.position, ExportItem::Separator(i));
            },
        }
        i = i + 1;
    }
    let ghost st3 = ex.state();
    let ghost iv = index_view(ex.index@);
    let mut index = ex.index;
    let mut indices: Vec<(Vec<String>, Vec<String>)> = Vec::new();
    let ghost total: int = iv.len() as int;
    let ghost pv = path_views(pre_existing@);
    while index.len() > 0
        invariant
            index_view(index@) == iv.skip(total - index@.len()),
            index@.len() <= total,
            total == iv.len(),
            pv == path_views(pre_existing@),
            indices_view(indices@) == fresh_indices(index_files(iv).take(total - index@.len()), pv),
        decreases index@.len(),
    {
        let ghost k = total - index@.len();
        let ghost before = indices_view(indices@);
        assert(index_view(index@)[0] == iv[k]);
        let ghost old_index = index@;
        let ghost old_iv = index_view(index@);
        let e = index.remove(0);
        assert(index@ =~= old_index.skip(1));
        assert(index_view(index@) =~= old_iv.skip(1));
        assert(old_iv.skip(1) =~= iv.skip(k + 1));
        let ghost dv = texts(e.0@);
        let names = sorted_names(e.1);
        let ghost nv = texts(names@);
        let ghost fk = index_files(iv).take(k + 1);
        assert(fk.drop_last() =~= index_files(iv).take(k));
        assert(fk.last() == (dv, nv));
        if !contains_path(pre_existing, &e.0, "__index.toml") {
            indices.push((e.0, names));
            assert(indices_view(indices@) =~= before.push((dv, nv)));
        }
        assert(indices_view(indices@) == fresh_indices(fk, pv));
    }
    assert(index_files(iv).take(total as int) =~= index_files(iv));
    ExportPlan {
        folder_dirs: ex.folder_dirs,
        files: ex.files,
        indices,
        bookmarks_skipped: ex.bookmarks_skipped,
        separators_skipped: ex.separators_skipped,
    }
}

} // verus!
