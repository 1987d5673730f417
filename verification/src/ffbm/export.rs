//! What is decided when the database is exported to a file tree: file names,
//! the directory of every folder, bookmark and separator, the order written to
//! each folder's index, and the counts reported at the end.  Reading the
//! database and writing the files is the program's business.
use vstd::prelude::*;
use std::collections::HashMap;
use crate::ffbm::db::{build_folder_path, folder_path, reaches_top, texts, title_view, walk_stops};
use crate::ffbm::roots;
use crate::ffbm::types::{root_dir, root_dir_name, Folder};
use crate::git_branches::{decimal, decimal_chars};
use crate::order::{sort_by_key, sort_by_key_stable};
use crate::text::{
    append_chars, char_utf8_len, chars_of, push_char, string_of, trim, trim_chars, utf8_len,
};

verus! {

broadcast use vstd::std_specs::hash::group_hash_axioms;

/// A character that may not stand in a file name here.
pub open spec fn bad_filename_char(c: char) -> bool {
    c == '/' || c == '\\' || c == ':' || c == '*' || c == '?' || c == '"' || c == '<' || c == '>'
        || c == '|' || (c as u32) <= 0x1f
}

/// `s` with every character that may not stand in a file name replaced by `_`.
pub open spec fn replace_bad(s: Seq<char>) -> Seq<char> {
    s.map_values(|c: char| if bad_filename_char(c) { '_' } else { c })
}

/// The characters of `t` that start within the first `budget` bytes of its
/// UTF-8 encoding.
pub open spec fn take_bytes(t: Seq<char>, budget: int) -> Seq<char>
    decreases t.len(),
{
    if t.len() == 0 || budget <= 0 {
        Seq::empty()
    } else {
        seq![t[0]] + take_bytes(t.skip(1), budget - char_utf8_len(t[0]))
    }
}

/// A title made safe for use as a file name: unsafe characters replaced,
/// whitespace trimmed, cut to the characters that start within 100 bytes, and
/// `untitled` when nothing is left.
pub open spec fn sanitized(title: Seq<char>) -> Seq<char> {
    let t = trim(replace_bad(title));
    if utf8_len(t) > 100 {
        take_bytes(t, 100)
    } else if t.len() == 0 {
        "untitled"@
    } else {
        t
    }
}

proof fn lemma_take_bytes(t: Seq<char>, budget: int)
    ensures
        take_bytes(t, budget).len() <= t.len(),
        budget >= 0 ==> take_bytes(t, budget).len() <= budget,
        forall|k: int| 0 <= k < take_bytes(t, budget).len() ==> #[trigger] take_bytes(t, budget)[k] == t[k],
    decreases t.len(),
{
    if t.len() > 0 && budget > 0 {
        let rest = take_bytes(t.skip(1), budget - char_utf8_len(t[0]));
        lemma_take_bytes(t.skip(1), budget - char_utf8_len(t[0]));
        assert forall|k: int| 0 <= k < take_bytes(t, budget).len() implies #[trigger] take_bytes(
            t,
            budget,
        )[k] == t[k] by {
            if k > 0 {
                assert(take_bytes(t, budget)[k] == rest[k - 1]);
                assert(t.skip(1)[k - 1] == t[k]);
            }
        }
    }
}

proof fn lemma_trim_start_suffix(s: Seq<char>) -> (m: int)
    ensures
        0 <= m <= s.len(),
        crate::text::trim_start(s) == s.skip(m),
    decreases s.len(),
{
    if s.len() > 0 && crate::text::is_ws(s[0]) {
        let m = lemma_trim_start_suffix(s.drop_first());
        assert(s.drop_first().skip(m) =~= s.skip(m + 1));
        m + 1
    } else {
        assert(s.skip(0) =~= s);
        0
    }
}

proof fn lemma_trim_end_prefix(s: Seq<char>) -> (m: int)
    ensures
        0 <= m <= s.len(),
        crate::text::trim_end(s) == s.take(m),
    decreases s.len(),
{
    if s.len() > 0 && crate::text::is_ws(s.last()) {
        let m = lemma_trim_end_prefix(s.drop_last());
        assert(s.drop_last().take(m) =~= s.take(m));
        m
    } else {
        assert(s.take(s.len() as int) =~= s);
        s.len() as int
    }
}

/// A sanitized title is never empty, holds no character that may not stand
/// in a file name, and has at most 100 characters.
pub proof fn lemma_sanitized_is_safe(title: Seq<char>)
    ensures
        sanitized(title).len() > 0,
        sanitized(title).len() <= 100,
        forall|k: int|
            0 <= k < sanitized(title).len() ==> !bad_filename_char(#[trigger] sanitized(title)[k]),
{
    let r = replace_bad(title);
    let a = lemma_trim_start_suffix(r);
    let ts = crate::text::trim_start(r);
    let b = lemma_trim_end_prefix(ts);
    let t = trim(r);
    assert forall|k: int| 0 <= k < t.len() implies !bad_filename_char(#[trigger] t[k]) by {
        assert(t[k] == ts[k]);
        assert(ts[k] == r[k + a]);
    }
    lemma_take_bytes(t, 100);
    crate::text::lemma_utf8_len_bounds(t);
    reveal_strlit("untitled");
    if utf8_len(t) > 100 {
        let u = take_bytes(t, 100);
        assert(t.len() > 0);
        assert(u.len() > 0);
        assert forall|k: int| 0 <= k < u.len() implies !bad_filename_char(#[trigger] u[k]) by {
            assert(u[k] == t[k]);
        }
    } else if t.len() == 0 {
        let u = "untitled"@;
        assert forall|k: int| 0 <= k < u.len() implies !bad_filename_char(#[trigger] u[k]) by {
        }
    }
}

/// Sanitize a title for use as a filename.
pub fn sanitize_filename(title: &str) -> (r: String)
    ensures
        r@ == sanitized(title@),
{
    let cs = chars_of(title);
    let mut replaced: Vec<char> = Vec::new();
    let mut i: usize = 0;
    while i < cs.len()
        invariant
            i <= cs@.len(),
            replaced@ == replace_bad(cs@).take(i as int),
        decreases cs@.len() - i,
    {
        let c = cs[i];
        let bad = c == '/' || c == '\\' || c == ':' || c == '*' || c == '?' || c == '"' || c
            == '<' || c == '>' || c == '|' || (c as u32) <= 0x1f;
        replaced.push(if bad { '_' } else { c });
        i = i + 1;
        assert(replaced@ =~= replace_bad(cs@).take(i as int));
    }
    assert(replace_bad(cs@).take(cs@.len() as int) =~= replace_bad(cs@));
    let t = trim_chars(&replaced);
    if !crate::text::utf8_len_at_most(&t, 100) {
        let mut out: Vec<char> = Vec::new();
        let mut budget: i64 = 100;
        let mut k: usize = 0;
        assert(t@.skip(0) =~= t@);
        assert(out@ + take_bytes(t@, 100) =~= take_bytes(t@, 100));
        while k < t.len() && budget > 0
            invariant
                k <= t@.len(),
                budget <= 100,
                take_bytes(t@, 100) == out@ + take_bytes(t@.skip(k as int), budget as int),
            decreases t@.len() - k,
        {
            let c = t[k];
            let u = c as u32;
            let w: i64 = if u < 0x80 {
                1
            } else if u < 0x800 {
                2
            } else if u < 0x10000 {
                3
            } else {
                4
            };
            proof {
                let rest = t@.skip(k as int);
                assert(rest[0] == c);
                assert(rest.skip(1) =~= t@.skip(k + 1));
                assert(take_bytes(rest, budget as int) == seq![c] + take_bytes(
                    t@.skip(k + 1),
                    budget - w,
                ));
            }
            out.push(c);
            budget = budget - w;
            k = k + 1;
            assert(take_bytes(t@, 100) =~= out@ + take_bytes(t@.skip(k as int), budget as int));
        }
        assert(take_bytes(t@.skip(k as int), budget as int) =~= Seq::<char>::empty());
        assert(out@ + Seq::<char>::empty() =~= out@);
        string_of(&out)
    } else if t.len() == 0 {
        String::from_str("untitled")
    } else {
        string_of(&t)
    }
}

/// Whether the climb from `cur` towards the root of all folders ends within
/// `n` steps: at a folder with no recorded parent, or at a child of the root.
pub open spec fn climb_stops(tree: Map<i64, i64>, cur: i64, n: nat) -> bool
    decreases n,
{
    !tree.contains_key(cur) || tree[cur] == roots::ROOT || (n > 0 && climb_stops(
        tree,
        tree[cur],
        (n - 1) as nat,
    ))
}

/// Whether the climb from `cur` ends at all.
pub open spec fn climbs_out(tree: Map<i64, i64>, cur: i64) -> bool {
    exists|n: nat| climb_stops(tree, cur, n)
}

/// The child of the root of all folders met on the climb from `cur` within
/// `n` steps, if the climb meets one.
pub open spec fn top_within(tree: Map<i64, i64>, cur: i64, n: nat) -> Option<i64>
    decreases n,
{
    if !tree.contains_key(cur) {
        None
    } else if tree[cur] == roots::ROOT {
        Some(cur)
    } else if n == 0 {
        None
    } else {
        top_within(tree, tree[cur], (n - 1) as nat)
    }
}

/// The root folder above `id` (a child of the root of all folders), or `id`
/// itself when the climb from it ends at a folder with no recorded parent.
pub open spec fn root_folder(tree: Map<i64, i64>, id: i64) -> i64 {
    match top_within(tree, id, choose|n: nat| climb_stops(tree, id, n)) {
        Some(r) => r,
        None => id,
    }
}

proof fn lemma_top_within_stable(tree: Map<i64, i64>, cur: i64, n: nat, m: nat)
    requires
        climb_stops(tree, cur, n),
        n <= m,
    ensures
        top_within(tree, cur, n) == top_within(tree, cur, m),
    decreases n,
{
    if tree.contains_key(cur) && tree[cur] != roots::ROOT {
        lemma_top_within_stable(tree, tree[cur], (n - 1) as nat, (m - 1) as nat);
    }
}

proof fn lemma_root_folder(tree: Map<i64, i64>, id: i64, n: nat)
    requires
        climb_stops(tree, id, n),
    ensures
        root_folder(tree, id) == (match top_within(tree, id, n) {
            Some(r) => r,
            None => id,
        }),
{
    let k = choose|k: nat| climb_stops(tree, id, k);
    if k <= n {
        lemma_top_within_stable(tree, id, k, n);
    } else {
        lemma_top_within_stable(tree, id, n, k);
    }
}

/// Determine the root folder for a given folder ID.
pub fn find_root_folder(folder_id: i64, folder_tree: &HashMap<i64, i64>) -> (r: i64)
    requires
        climbs_out(folder_tree@, folder_id),
    ensures
        r == root_folder(folder_tree@, folder_id),
{
    let ghost tree = folder_tree@;
    let ghost n = choose|n: nat| climb_stops(tree, folder_id, n);
    proof {
        lemma_root_folder(tree, folder_id, n);
    }
    let mut current = folder_id;
    let ghost mut k: nat = n;
    loop
        invariant
            tree == folder_tree@,
            climb_stops(tree, current, k),
            top_within(tree, folder_id, n) == top_within(tree, current, k),
            root_folder(tree, folder_id) == (match top_within(tree, folder_id, n) {
                Some(r) => r,
                None => folder_id,
            }),
        decreases k,
    {
        match folder_tree.get(&current) {
            None => {
                return folder_id;
            },
            Some(parent) => {
                if *parent == roots::ROOT {
                    return current;
                }
                current = *parent;
                proof {
                    k = (k - 1) as nat;
                }
            },
        }
    }
}

/// How many steps the walk up from `cur` takes within `n` steps: one for each
/// folder with a recorded parent, ending at a root folder.
pub open spec fn depth_within(tree: Map<i64, i64>, cur: i64, n: nat) -> nat
    decreases n,
{
    if !tree.contains_key(cur) {
        0
    } else if cur <= roots::MOBILE || n == 0 {
        1
    } else {
        1 + depth_within(tree, tree[cur], (n - 1) as nat)
    }
}

/// The depth of a folder: the number of steps of the walk up from its parent.
pub open spec fn folder_depth_of(tree: Map<i64, i64>, f: Folder) -> nat {
    depth_within(tree, f.parent, choose|n: nat| walk_stops(tree, f.parent, n))
}

proof fn lemma_depth_within_stable(tree: Map<i64, i64>, cur: i64, n: nat, m: nat)
    requires
        walk_stops(tree, cur, n),
        n <= m,
    ensures
        depth_within(tree, cur, n) == depth_within(tree, cur, m),
    decreases n,
{
    if tree.contains_key(cur) && cur > roots::MOBILE {
        lemma_depth_within_stable(tree, tree[cur], (n - 1) as nat, (m - 1) as nat);
    }
}

proof fn lemma_depth(tree: Map<i64, i64>, f: Folder, n: nat)
    requires
        walk_stops(tree, f.parent, n),
    ensures
        folder_depth_of(tree, f) == depth_within(tree, f.parent, n),
{
    let k = choose|k: nat| walk_stops(tree, f.parent, k);
    if k <= n {
        lemma_depth_within_stable(tree, f.parent, k, n);
    } else {
        lemma_depth_within_stable(tree, f.parent, n, k);
    }
}

/// Calculate folder depth for sorting.
pub fn folder_depth(f: &Folder, tree: &HashMap<i64, i64>) -> (r: usize)
    requires
        reaches_top(tree@, f.parent),
        folder_depth_of(tree@, *f) <= usize::MAX,
    ensures
        r == folder_depth_of(tree@, *f),
{
    let ghost t = tree@;
    let ghost n = choose|n: nat| walk_stops(t, f.parent, n);
    proof {
        lemma_depth(t, *f, n);
    }
    let mut depth: usize = 0;
    let mut current = f.parent;
    let ghost mut k: nat = n;
    loop
        invariant
            t == tree@,
            walk_stops(t, current, k),
            depth_within(t, f.parent, n) == depth + depth_within(t, current, k),
            depth_within(t, f.parent, n) <= usize::MAX,
            folder_depth_of(t, *f) == depth_within(t, f.parent, n),
        decreases k,
    {
        match tree.get(&current) {
            None => {
                return depth;
            },
            Some(parent) => {
                depth = depth + 1;
                if current <= roots::MOBILE {
                    return depth;
                }
                current = *parent;
                proof {
                    k = (k - 1) as nat;
                }
            },
        }
    }
}

/// The sanitized form of each title.
pub open spec fn sanitized_all(ts: Seq<Seq<char>>) -> Seq<Seq<char>> {
    ts.map_values(|t: Seq<char>| sanitized(t))
}

/// The export directory of folder `id`, as path segments below the export
/// directory: its root's directory, then its sanitized folder path; none when
/// its root is not exported.
pub open spec fn folder_dir(tree: Map<i64, i64>, titles: Map<i64, Seq<char>>, id: i64) -> Option<
    Seq<Seq<char>>,
> {
    match root_dir(root_folder(tree, id)) {
        Some(d) => Some(seq![d] + sanitized_all(folder_path(tree, titles, id))),
        None => None,
    }
}

/// The export directory of a bookmark or separator whose parent folder is
/// `parent`: as `folder_dir`, but an item directly in a root folder goes to
/// that root's directory.
pub open spec fn item_dir(tree: Map<i64, i64>, titles: Map<i64, Seq<char>>, parent: i64) -> Option<
    Seq<Seq<char>>,
> {
    let root = root_folder(tree, parent);
    match root_dir(root) {
        Some(d) => Some(
            if parent != root {
                seq![d] + sanitized_all(folder_path(tree, titles, parent))
            } else {
                seq![d]
            },
        ),
        None => None,
    }
}

/// `[dir]` followed by the sanitized `path`.
fn dir_segments(dir: &str, path: &Vec<String>) -> (r: Vec<String>)
    ensures
        texts(r@) == seq![dir@] + sanitized_all(texts(path@)),
{
    let mut r: Vec<String> = Vec::new();
    r.push(string_of(&chars_of(dir)));
    let mut i: usize = 0;
    while i < path.len()
        invariant
            i <= path@.len(),
            texts(r@) == seq![dir@] + sanitized_all(texts(path@)).take(i as int),
        decreases path@.len() - i,
    {
        let ghost before = texts(r@);
        let seg = sanitize_filename(path[i].as_str());
        r.push(seg);
        i = i + 1;
        assert(texts(r@) =~= before.push(seg@));
        assert(sanitized_all(texts(path@)).take(i as int) =~= sanitized_all(texts(path@)).take(
            i - 1,
        ).push(sanitized(path@[i - 1]@)));
    }
    assert(sanitized_all(texts(path@)).take(path@.len() as int) =~= sanitized_all(texts(path@)));
    r
}

/// The directory a folder is exported to.
pub fn folder_export_dir(
    folder_id: i64,
    folder_tree: &HashMap<i64, i64>,
    folder_titles: &HashMap<i64, String>,
) -> (r: Option<Vec<String>>)
    requires
        climbs_out(folder_tree@, folder_id),
        reaches_top(folder_tree@, folder_id),
    ensures
        match folder_dir(folder_tree@, title_view(folder_titles@), folder_id) {
            Some(d) => r matches Some(v) && texts(v@) == d,
            None => r is None,
        },
{
    let root = find_root_folder(folder_id, folder_tree);
    match root_dir_name(root) {
        None => None,
        Some(name) => {
            let path = build_folder_path(folder_id, folder_tree, folder_titles);
            Some(dir_segments(name, &path))
        },
    }
}

/// The directory a bookmark or separator in folder `parent` is exported to.
pub fn item_export_dir(
    parent: i64,
    folder_tree: &HashMap<i64, i64>,
    folder_titles: &HashMap<i64, String>,
) -> (r: Option<Vec<String>>)
    requires
        climbs_out(folder_tree@, parent),
        reaches_top(folder_tree@, parent),
    ensures
        match item_dir(folder_tree@, title_view(folder_titles@), parent) {
            Some(d) => r matches Some(v) && texts(v@) == d,
            None => r is None,
        },
{
    let root = find_root_folder(parent, folder_tree);
    match root_dir_name(root) {
        None => None,
        Some(name) => {
            if parent != root {
                let path = build_folder_path(parent, folder_tree, folder_titles);
                Some(dir_segments(name, &path))
            } else {
                let empty: Vec<String> = Vec::new();
                assert(texts(empty@) =~= Seq::<Seq<char>>::empty());
                assert(sanitized_all(Seq::<Seq<char>>::empty()) =~= Seq::<Seq<char>>::empty());
                let r = dir_segments(name, &empty);
                assert(texts(r@) =~= seq![name@]);
                Some(r)
            }
        },
    }
}

/// Whether a bookmark in folder `parent` is a tag entry: one filed under the
/// tags root or under a tag folder.
pub open spec fn tag_entry(tree: Map<i64, i64>, parent: i64) -> bool {
    parent == roots::TAGS || (tree.contains_key(parent) && tree[parent] == roots::TAGS)
}

/// Whether a bookmark in folder `parent` is a tag entry, which is not exported.
pub fn is_tag_entry(parent: i64, folder_tree: &HashMap<i64, i64>) -> (r: bool)
    ensures
        r == tag_entry(folder_tree@, parent),
{
    if parent == roots::TAGS {
        return true;
    }
    match folder_tree.get(&parent) {
        Some(p) => *p == roots::TAGS,
        None => false,
    }
}

/// The name tried on the `counter`-th collision: `base-counter`.
pub open spec fn numbered(base: Seq<char>, counter: nat) -> Seq<char> {
    base + "-"@ + decimal(counter)
}

/// The name to try after `counter` names taken: `base-counter`.
pub fn numbered_name(base: &str, counter: usize) -> (r: String)
    ensures
        r@ == numbered(base@, counter as nat),
{
    let mut t = chars_of(base);
    append_chars(&mut t, &chars_of("-"));
    append_chars(&mut t, &decimal_chars(counter));
    string_of(&t)
}

/// The index name of a separator: `---` and its GUID.
pub open spec fn separator_name(guid: Seq<char>) -> Seq<char> {
    "---"@ + guid
}

/// The index name of a separator with GUID `guid`.
pub fn separator_base_name(guid: &str) -> (r: String)
    ensures
        r@ == separator_name(guid@),
{
    let mut t = chars_of("---");
    append_chars(&mut t, &chars_of(guid));
    string_of(&t)
}

/// The index name of a folder: its sanitized title and a slash.
pub open spec fn folder_entry_name(title: Seq<char>) -> Seq<char> {
    sanitized(title) + "/"@
}

/// The index name of a folder titled `title`.
pub fn folder_index_name(title: &str) -> (r: String)
    ensures
        r@ == folder_entry_name(title@),
{
    let mut t = chars_of(sanitize_filename(title).as_str());
    append_chars(&mut t, &chars_of("/"));
    string_of(&t)
}

/// An item to be recorded in a folder's index.
pub struct IndexItem {
    /// The name to write in the index (sans extension for bookmarks, with `/`
    /// for folders, `---{guid}` for separators).
    pub name: String,
    /// Position from the database, for sorting.
    pub position: i32,
}

/// The index entries as (position, name) pairs.
pub open spec fn keyed(items: Seq<IndexItem>) -> Seq<(i64, String)> {
    items.map_values(|it: IndexItem| (it.position as i64, it.name))
}

/// The names of the index, in order of position; items at one position keep
/// the order they were recorded in.
pub open spec fn index_names(items: Seq<IndexItem>) -> Seq<Seq<char>> {
    sort_by_key(keyed(items)).map_values(|p: (i64, String)| p.1@)
}

/// The order of a folder's index: the names sorted by their database position.
pub fn index_order(items: Vec<IndexItem>) -> (r: Vec<String>)
    ensures
        texts(r@) == index_names(items@),
{
    let ghost orig = items@;
    let mut items = items;
    let mut pairs: Vec<(i64, String)> = Vec::new();
    while items.len() > 0
        invariant
            items@.len() <= orig.len(),
            items@ == orig.take(items@.len() as int),
            pairs@ == keyed(orig.skip(items@.len() as int)),
        decreases items@.len(),
    {
        let ghost n = items@.len();
        let it = items.pop().unwrap();
        let ghost before = pairs@;
        pairs.insert(0, (it.position as i64, it.name));
        assert(orig.skip(n - 1) =~= seq![orig[n - 1]] + orig.skip(n as int));
        assert(pairs@ =~= keyed(orig.skip(items@.len() as int)));
        assert(items@ =~= orig.take(items@.len() as int));
    }
    assert(orig.skip(0) =~= orig);
    let sorted = sort_by_key_stable(pairs);
    let mut sorted = sorted;
    let ghost s = sorted@;
    let mut names: Vec<String> = Vec::new();
    while sorted.len() > 0
        invariant
            sorted@.len() <= s.len(),
            sorted@ == s.take(sorted@.len() as int),
            texts(names@) == s.skip(sorted@.len() as int).map_values(|p: (i64, String)| p.1@),
        decreases sorted@.len(),
    {
        let ghost n = sorted@.len();
        let p = sorted.pop().unwrap();
        let ghost before = texts(names@);
        let ghost pv = p.1@;
        assert(p == s[n - 1]);
        names.insert(0, p.1);
        assert(texts(names@) =~= seq![pv] + before);
        assert(s.skip(n - 1) =~= seq![s[n - 1]] + s.skip(n as int));
        assert(texts(names@) =~= s.skip(sorted@.len() as int).map_values(
            |p: (i64, String)| p.1@,
        ));
        assert(sorted@ =~= s.take(sorted@.len() as int));
    }
    assert(s.skip(0) =~= s);
    names
}

/// Statistics from an export operation.
#[derive(Debug)]
pub struct ExportStats {
    /// Number of folders created.
    pub folders_created: usize,
    /// Number of bookmarks exported.
    pub bookmarks_exported: usize,
    /// Number of bookmarks skipped (already exist).
    pub bookmarks_skipped: usize,
    /// Number of separators exported.
    pub separators_exported: usize,
    /// Number of separators skipped (already exist).
    pub separators_skipped: usize,
    /// Number of `__index.toml` files written.
    pub indexes_written: usize,
}

impl Default for ExportStats {
    fn default() -> (r: Self)
        ensures
            r.folders_created == 0,
            r.bookmarks_exported == 0,
            r.bookmarks_skipped == 0,
            r.separators_exported == 0,
            r.separators_skipped == 0,
            r.indexes_written == 0,
    {
        ExportStats {
            folders_created: 0,
            bookmarks_exported: 0,
            bookmarks_skipped: 0,
            separators_exported: 0,
            separators_skipped: 0,
            indexes_written: 0,
        }
    }
}

/// Whether a folder gets a directory of its own: not a root folder, not a
/// tag folder.
pub open spec fn gets_directory(f: Folder) -> bool {
    f.id > roots::MOBILE && f.parent != roots::TAGS
}

/// The folders among the first `n` of `fs` that get a directory, each as its
/// depth and its index in `fs`.
pub open spec fn keyed_folders(tree: Map<i64, i64>, fs: Seq<Folder>, n: int) -> Seq<(i64, usize)>
    decreases n,
{
    if n <= 0 {
        Seq::empty()
    } else {
        keyed_folders(tree, fs, n - 1) + if gets_directory(fs[n - 1]) {
            seq![(folder_depth_of(tree, fs[n - 1]) as i64, (n - 1) as usize)]
        } else {
            Seq::empty()
        }
    }
}

/// The indices in `fs` of the folders that get a directory, shallowest
/// first, so that every parent directory is made before its children.
pub open spec fn creation_indices(tree: Map<i64, i64>, fs: Seq<Folder>) -> Seq<usize> {
    sort_by_key(keyed_folders(tree, fs, fs.len() as int)).map_values(|p: (i64, usize)| p.1)
}

proof fn lemma_keyed_folders(tree: Map<i64, i64>, fs: Seq<Folder>, n: int)
    requires
        0 <= n <= fs.len(),
        fs.len() <= usize::MAX,
    ensures
        forall|k: int|
            0 <= k < keyed_folders(tree, fs, n).len() ==> (#[trigger] keyed_folders(tree, fs, n)[k]).1
                < n && gets_directory(fs[keyed_folders(tree, fs, n)[k].1 as int]),
    decreases n,
{
    if n > 0 {
        lemma_keyed_folders(tree, fs, n - 1);
        let prev = keyed_folders(tree, fs, n - 1);
        let cur = keyed_folders(tree, fs, n);
        assert forall|k: int| 0 <= k < cur.len() implies (#[trigger] cur[k]).1 < n && gets_directory(
            fs[cur[k].1 as int],
        ) by {
            if k < prev.len() {
                assert(cur[k] == prev[k]);
            } else {
                assert(cur[k].1 == (n - 1) as usize);
                assert((n - 1) as usize as int == n - 1);
            }
        }
    }
}

/// The folders made in order are folders of the list that get a directory.
pub proof fn lemma_creation_indices(tree: Map<i64, i64>, fs: Seq<Folder>)
    requires
        fs.len() <= usize::MAX,
    ensures
        forall|k: int|
            0 <= k < creation_indices(tree, fs).len() ==> (#[trigger] creation_indices(tree, fs)[k])
                < fs.len() && gets_directory(fs[creation_indices(tree, fs)[k] as int]),
{
    let kf = keyed_folders(tree, fs, fs.len() as int);
    lemma_keyed_folders(tree, fs, fs.len() as int);
    crate::order::lemma_sort_by_key(kf);
    let s = sort_by_key(kf);
    kf.to_multiset_ensures();
    s.to_multiset_ensures();
    let ci = creation_indices(tree, fs);
    assert forall|k: int| 0 <= k < ci.len() implies (#[trigger] ci[k]) < fs.len() && gets_directory(
        fs[ci[k] as int],
    ) by {
        assert(ci[k] == s[k].1);
        assert(s.contains(s[k]));
        assert(s.to_multiset().count(s[k]) > 0);
        assert(kf.to_multiset().count(s[k]) > 0);
        assert(kf.contains(s[k]));
        let j = choose|j: int| 0 <= j < kf.len() && kf[j] == s[k];
        assert(kf[j].1 < fs.len());
    }
}

/// The order in which folder directories are created: the indices into
/// `folders` of those that get a directory, sorted by depth (stably).
pub fn creation_order(folders: &[Folder], folder_tree: &HashMap<i64, i64>) -> (r: Vec<usize>)
    requires
        forall|i: int|
            0 <= i < folders@.len() && gets_directory(#[trigger] folders@[i]) ==> reaches_top(
                folder_tree@,
                folders@[i].parent,
            ) && folder_depth_of(folder_tree@, folders@[i]) <= i64::MAX && folder_depth_of(
                folder_tree@,
                folders@[i],
            ) <= usize::MAX,
    ensures
        r@ == creation_indices(folder_tree@, folders@),
{
    let mut keyed: Vec<(i64, usize)> = Vec::new();
    let mut i: usize = 0;
    while i < folders.len()
        invariant
            i <= folders@.len(),
            keyed@ == keyed_folders(folder_tree@, folders@, i as int),
            forall|i: int|
                0 <= i < folders@.len() && gets_directory(#[trigger] folders@[i]) ==> reaches_top(
                    folder_tree@,
                    folders@[i].parent,
                ) && folder_depth_of(folder_tree@, folders@[i]) <= i64::MAX && folder_depth_of(
                    folder_tree@,
                    folders@[i],
                ) <= usize::MAX,
        decreases folders@.len() - i,
    {
        let f = &folders[i];
        if f.id > roots::MOBILE && f.parent != roots::TAGS {
            let d = folder_depth(f, folder_tree);
            keyed.push((d as i64, i));
        }
        i = i + 1;
        assert(keyed@ =~= keyed_folders(folder_tree@, folders@, i as int));
    }
    let sorted = sort_by_key_stable(keyed);
    let mut out: Vec<usize> = Vec::new();
    let mut j: usize = 0;
    while j < sorted.len()
        invariant
            j <= sorted@.len(),
            out@ == sorted@.take(j as int).map_values(|p: (i64, usize)| p.1),
        decreases sorted@.len() - j,
    {
        out.push(sorted[j].1);
        j = j + 1;
        assert(out@ =~= sorted@.take(j as int).map_values(|p: (i64, usize)| p.1));
    }
    assert(sorted@.take(sorted@.len() as int) =~= sorted@);
    out
}

} // verus!
