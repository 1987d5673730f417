//! What is computed from the bookmark database's rows.
use vstd::prelude::*;
use std::collections::HashMap;
use crate::ffbm::roots;
use crate::ffbm::types::{DbSeparator, Folder, Separator};
use crate::text::{
    chars_of, find_char_or_len, index_of_or_len, lemma_take_until, push_char, slice_range,
    starts_with, take_until,
};

verus! {

broadcast use vstd::std_specs::hash::group_hash_axioms;

/// Each folder's parent, by folder ID; of folders with one ID the last wins.
pub open spec fn parent_map(folders: Seq<Folder>) -> Map<i64, i64>
    decreases folders.len(),
{
    if folders.len() == 0 {
        Map::empty()
    } else {
        parent_map(folders.drop_last()).insert(folders.last().id, folders.last().parent)
    }
}

/// Each folder's title, by folder ID; of folders with one ID the last wins.
pub open spec fn title_map(folders: Seq<Folder>) -> Map<i64, Seq<char>>
    decreases folders.len(),
{
    if folders.len() == 0 {
        Map::empty()
    } else {
        title_map(folders.drop_last()).insert(folders.last().id, folders.last().title@)
    }
}

/// Whether the walk up the folder tree from `cur` stops within `n` steps: it
/// stops at a folder with no recorded parent, or at a root folder.
pub open spec fn walk_stops(tree: Map<i64, i64>, cur: i64, n: nat) -> bool
    decreases n,
{
    !tree.contains_key(cur) || cur <= roots::MOBILE || (n > 0 && walk_stops(
        tree,
        tree[cur],
        (n - 1) as nat,
    ))
}

/// Whether the walk up from `cur` stops at all (the tree has no cycle above it).
pub open spec fn reaches_top(tree: Map<i64, i64>, cur: i64) -> bool {
    exists|n: nat| walk_stops(tree, cur, n)
}

/// The titles met on the walk up from `cur`, within `n` steps, outermost
/// first; a folder without a recorded title adds nothing.
pub open spec fn path_within(
    tree: Map<i64, i64>,
    titles: Map<i64, Seq<char>>,
    cur: i64,
    n: nat,
) -> Seq<Seq<char>>
    decreases n,
{
    if !tree.contains_key(cur) || cur <= roots::MOBILE || n == 0 {
        Seq::empty()
    } else {
        path_within(tree, titles, tree[cur], (n - 1) as nat) + if titles.contains_key(cur) {
            seq![titles[cur]]
        } else {
            Seq::empty()
        }
    }
}

/// The path of titles from a root folder down to `id`.
pub open spec fn folder_path(tree: Map<i64, i64>, titles: Map<i64, Seq<char>>, id: i64) -> Seq<
    Seq<char>,
> {
    path_within(tree, titles, id, choose|n: nat| walk_stops(tree, id, n))
}

/// Once the walk stops, more steps change nothing.
pub proof fn lemma_path_within_stable(
    tree: Map<i64, i64>,
    titles: Map<i64, Seq<char>>,
    cur: i64,
    n: nat,
    m: nat,
)
    requires
        walk_stops(tree, cur, n),
        n <= m,
    ensures
        walk_stops(tree, cur, m),
        path_within(tree, titles, cur, n) == path_within(tree, titles, cur, m),
    decreases n,
{
    if tree.contains_key(cur) && cur > roots::MOBILE {
        lemma_path_within_stable(tree, titles, tree[cur], (n - 1) as nat, (m - 1) as nat);
    }
}

/// The path does not depend on which bound of the walk was chosen.
pub proof fn lemma_folder_path(tree: Map<i64, i64>, titles: Map<i64, Seq<char>>, id: i64, n: nat)
    requires
        walk_stops(tree, id, n),
    ensures
        folder_path(tree, titles, id) == path_within(tree, titles, id, n),
{
    let k = choose|k: nat| walk_stops(tree, id, k);
    if k <= n {
        lemma_path_within_stable(tree, titles, id, k, n);
    } else {
        lemma_path_within_stable(tree, titles, id, n, k);
    }
}

/// Build a folder ID to parent ID map.
pub fn build_folder_tree(folders: &[Folder]) -> (r: HashMap<i64, i64>)
    ensures
        r@ == parent_map(folders@),
{
    let mut m: HashMap<i64, i64> = HashMap::new();
    let mut i: usize = 0;
    while i < folders.len()
        invariant
            i <= folders@.len(),
            m@ == parent_map(folders@.take(i as int)),
        decreases folders@.len() - i,
    {
        assert(folders@.take(i + 1).drop_last() == folders@.take(i as int));
        m.insert(folders[i].id, folders[i].parent);
        i = i + 1;
    }
    assert(folders@.take(folders@.len() as int) == folders@);
    m
}

/// Build a folder ID to title map.
pub fn build_folder_titles(folders: &[Folder]) -> (r: HashMap<i64, String>)
    ensures
        r@.dom() == title_map(folders@).dom(),
        forall|k: i64| #[trigger] r@.contains_key(k) ==> r@[k]@ == title_map(folders@)[k],
{
    let mut m: HashMap<i64, String> = HashMap::new();
    let mut i: usize = 0;
    while i < folders.len()
        invariant
            i <= folders@.len(),
            m@.dom() == title_map(folders@.take(i as int)).dom(),
            forall|k: i64| #[trigger]
                m@.contains_key(k) ==> m@[k]@ == title_map(folders@.take(i as int))[k],
        decreases folders@.len() - i,
    {
        assert(folders@.take(i + 1).drop_last() == folders@.take(i as int));
        let title = folders[i].title.clone();
        m.insert(folders[i].id, title);
        i = i + 1;
    }
    assert(folders@.take(folders@.len() as int) == folders@);
    m
}

/// Convert a database separator to the export Separator type.
pub fn db_separator_to_export(db_sep: &DbSeparator) -> (r: Separator)
    ensures
        r.date_added == db_sep.date_added,
        r.last_modified == db_sep.last_modified,
        r.guid@ == db_sep.guid@,
{
    Separator {
        date_added: db_sep.date_added,
        last_modified: db_sep.last_modified,
        guid: db_sep.guid.clone(),
    }
}

/// The titles of a folder-to-title map, as text.
pub open spec fn title_view(m: Map<i64, String>) -> Map<i64, Seq<char>> {
    m.map_values(|t: String| t@)
}

/// The text of each string of `v`.
pub open spec fn texts(v: Seq<String>) -> Seq<Seq<char>> {
    v.map_values(|t: String| t@)
}

/// Build the path from a folder to a root folder: the titles of the folders
/// above and including `folder_id`, outermost first, stopping below a root
/// folder or at a folder with no recorded parent.
pub fn build_folder_path(
    folder_id: i64,
    folder_tree: &HashMap<i64, i64>,
    folder_titles: &HashMap<i64, String>,
) -> (r: Vec<String>)
    requires
        reaches_top(folder_tree@, folder_id),
    ensures
        texts(r@) == folder_path(folder_tree@, title_view(folder_titles@), folder_id),
{
    let ghost tree = folder_tree@;
    let ghost titles = title_view(folder_titles@);
    let ghost n = choose|n: nat| walk_stops(tree, folder_id, n);
    proof {
        lemma_folder_path(tree, titles, folder_id, n);
    }
    let mut rev: Vec<String> = Vec::new();
    let mut current = folder_id;
    let ghost mut k: nat = n;
    loop
        invariant_except_break
            walk_stops(tree, current, k),
        invariant
            tree == folder_tree@,
            titles == title_view(folder_titles@),
            path_within(tree, titles, folder_id, n) == path_within(tree, titles, current, k)
                + texts(rev@).reverse(),
        ensures
            path_within(tree, titles, folder_id, n) == texts(rev@).reverse(),
        decreases k,
    {
        let next = folder_tree.get(&current);
        match next {
            None => {
                break;
            },
            Some(parent) => {
                if current <= roots::MOBILE {
                    break;
                }
                let parent = *parent;
                let ghost before = texts(rev@);
                let t = folder_titles.get(&current);
                match t {
                    Some(title) => {
                        rev.push(title.clone());
                        proof {
                            assert(texts(rev@) =~= before.push(titles[current]));
                            assert(texts(rev@).reverse() =~= seq![titles[current]] + before.reverse());
                        }
                    },
                    None => {},
                }
                current = parent;
                proof {
                    k = (k - 1) as nat;
                }
            },
        }
    }
    let mut out: Vec<String> = Vec::new();
    let mut j: usize = rev.len();
    while j > 0
        invariant
            j <= rev@.len(),
            texts(out@) == texts(rev@).reverse().take(rev@.len() - j),
        decreases j,
    {
        j = j - 1;
        let ghost before = texts(out@);
        let item = rev[j].clone();
        assert(item@ == rev@[j as int]@);
        out.push(item);
        proof {
            let rv = texts(rev@).reverse();
            assert(rv[rev@.len() - 1 - j] == rev@[j as int]@);
            assert(texts(out@) =~= before.push(item@));
            assert(texts(out@) =~= rv.take(rev@.len() - j));
        }
    }
    assert(texts(rev@).reverse().take(rev@.len() as int) =~= texts(rev@).reverse());
    out
}

/// The GUID alphabet: digits, upper case, lower case, `_` and `-`.
pub open spec fn guid_char(d: nat) -> char {
    if d < 10 {
        (d + 48) as char
    } else if d < 36 {
        (d - 10 + 65) as char
    } else if d < 62 {
        (d - 36 + 97) as char
    } else if d == 62 {
        '_'
    } else {
        '-'
    }
}

/// The `n` base-64 digits of `t`, least significant first, in the GUID alphabet.
pub open spec fn guid_digits(t: nat, n: nat) -> Seq<char>
    decreases n,
{
    if n == 0 {
        Seq::empty()
    } else {
        seq![guid_char(t % 64)] + guid_digits(t / 64, (n - 1) as nat)
    }
}

fn guid_symbol(d: u8) -> (c: char)
    requires
        d < 64,
    ensures
        c == guid_char(d as nat),
{
    if d < 10 {
        (d + 48) as char
    } else if d < 36 {
        (d - 10 + 65) as char
    } else if d < 62 {
        (d - 36 + 97) as char
    } else if d == 62 {
        '_'
    } else {
        '-'
    }
}

/// The Firefox-style GUID (12 characters, base64-ish) made from a timestamp.
pub fn guid_from_timestamp(timestamp: u128) -> (r: String)
    ensures
        r@ == guid_digits(timestamp as nat, 12),
{
    let mut guid = String::new();
    let mut val = timestamp;
    let mut k: usize = 0;
    while k < 12
        invariant
            k <= 12,
            guid@ + guid_digits(val as nat, (12 - k) as nat) == guid_digits(timestamp as nat, 12),
        decreases 12 - k,
    {
        let ghost before = guid@;
        push_char(&mut guid, guid_symbol((val % 64) as u8));
        proof {
            assert(guid_digits(val as nat, (12 - k) as nat) == seq![guid_char((val % 64) as nat)]
                + guid_digits((val / 64) as nat, (12 - k - 1) as nat));
            assert(guid@ + guid_digits((val / 64) as nat, (12 - k - 1) as nat) =~= before
                + guid_digits(val as nat, (12 - k) as nat));
        }
        val = val / 64;
        k = k + 1;
    }
    assert(guid_digits(val as nat, 0) =~= Seq::<char>::empty());
    assert(guid@ + Seq::<char>::empty() =~= guid@);
    guid
}

/// The time since the Unix epoch in nanoseconds (`SystemTime::now`), or 0 if
/// the clock stands before the epoch.
#[verifier::external_body]
fn now_nanos() -> (t: u128) {
    std::time::SystemTime::now()
        .duration_since(std::time::UNIX_EPOCH)
        .map(|d| d.as_nanos())
        .unwrap_or(0)
}

/// Generate a Firefox-style GUID from the current time.
pub fn generate_guid() -> (r: String)
    ensures
        exists|t: nat| r@ == guid_digits(t, 12),
{
    let t = now_nanos();
    guid_from_timestamp(t)
}

/// The host of an `http` or `https` URL, reversed, with a trailing dot; empty
/// for any other URL.
pub open spec fn reversed_host(url: Seq<char>) -> Seq<char> {
    let rest = if url.len() >= 8 && url.take(8) == "https://"@ {
        Some(url.skip(8))
    } else if url.len() >= 7 && url.take(7) == "http://"@ {
        Some(url.skip(7))
    } else {
        None
    };
    match rest {
        Some(r) => take_until(take_until(r, '/'), ':').reverse() + "."@,
        None => Seq::empty(),
    }
}

/// Generate a reverse host string for a URL.
pub fn reverse_host(url: &str) -> (r: String)
    ensures
        r@ == reversed_host(url@),
{
    let u = chars_of(url);
    let https = chars_of("https://");
    let http = chars_of("http://");
    proof {
        reveal_strlit("https://");
        reveal_strlit("http://");
    }
    let start: usize = if starts_with(&u, &https) {
        8
    } else if starts_with(&u, &http) {
        7
    } else {
        return String::new();
    };
    let rest = slice_range(&u, start, u.len());
    let slash = find_char_or_len(&rest, '/');
    proof {
        lemma_take_until(rest@, '/');
    }
    let host = slice_range(&rest, 0, slash);
    let colon = find_char_or_len(&host, ':');
    proof {
        lemma_take_until(host@, ':');
    }
    let ghost h = host@.take(colon as int);
    let mut out = String::new();
    let mut j: usize = colon;
    while j > 0
        invariant
            j <= colon <= host@.len(),
            h == host@.take(colon as int),
            out@ == h.reverse().take(colon - j),
        decreases j,
    {
        j = j - 1;
        push_char(&mut out, host[j]);
        assert(out@ =~= h.reverse().take(colon - j));
    }
    push_char(&mut out, '.');
    proof {
        reveal_strlit(".");
        assert(h.reverse().take(colon as int) =~= h.reverse());
        assert(rest@ =~= url@.skip(start as int));
        assert(host@ =~= take_until(rest@, '/'));
        assert(out@ =~= h.reverse() + "."@);
    }
    out
}

} // verus!
