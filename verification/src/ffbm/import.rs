//! What is decided when the file tree is imported back into the database: the
//! order of a folder's entries, and the position each item gets.  Reading the
//! files and writing the database is the program's business.
use vstd::prelude::*;
use crate::ffbm::db::texts;
use crate::ffbm::types::FolderIndex;
use crate::order::{
    keys_ascend, lemma_sort_by_key, sort_by_key, sort_by_key_stable, sort_by_name, sort_by_name_stable,
};
use crate::save_context::{extension, find_ext_dot};
use crate::text::{append_chars, chars_eq, chars_of, ends_with, slice_range, string_of};

verus! {

/// Position assigned to items not listed in the index; they appear after all
/// indexed items.
pub const UNLISTED_POSITION_BASE: i32 = 100000;

/// `s` without one trailing `/` (`strip_suffix('/')`, or `s` itself).
pub open spec fn stripped(s: Seq<char>) -> Seq<char> {
    if s.len() > 0 && s.last() == '/' {
        s.drop_last()
    } else {
        s
    }
}

/// The last index at which `keys` holds `name`.
pub open spec fn last_index(keys: Seq<Seq<char>>, name: Seq<char>) -> Option<int>
    decreases keys.len(),
{
    if keys.len() == 0 {
        None
    } else if keys.last() == name {
        Some(keys.len() - 1)
    } else {
        last_index(keys.drop_last(), name)
    }
}

proof fn lemma_last_index(keys: Seq<Seq<char>>, name: Seq<char>)
    ensures
        last_index(keys, name) matches Some(k) ==> 0 <= k < keys.len() && keys[k] == name,
    decreases keys.len(),
{
    if keys.len() > 0 && keys.last() != name {
        lemma_last_index(keys.drop_last(), name);
    }
}

/// A map from item name to its position in a folder's index: the name at
/// index `i` of `keys` has position `i`; of names listed twice the last wins.
pub struct PositionMap {
    pub keys: Vec<String>,
}

/// The index's names with the trailing `/` of folder names stripped.
pub open spec fn position_keys(index: Option<FolderIndex>) -> Seq<Seq<char>> {
    match index {
        Some(idx) => texts(idx.order@).map_values(|s: Seq<char>| stripped(s)),
        None => Seq::empty(),
    }
}

fn strip_slash(s: &str) -> (r: String)
    ensures
        r@ == stripped(s@),
{
    let cs = chars_of(s);
    if cs.len() > 0 && cs[cs.len() - 1] == '/' {
        string_of(&slice_range(&cs, 0, cs.len() - 1))
    } else {
        string_of(&cs)
    }
}

/// Build a position map from a folder index.
pub fn build_position_map(index: Option<&FolderIndex>) -> (r: PositionMap)
    ensures
        texts(r.keys@) == position_keys(match index {
            Some(i) => Some(*i),
            None => None,
        }),
{
    let mut keys: Vec<String> = Vec::new();
    match index {
        None => {
            assert(texts(keys@) =~= Seq::<Seq<char>>::empty());
        },
        Some(idx) => {
            let mut i: usize = 0;
            while i < idx.order.len()
                invariant
                    i <= idx.order@.len(),
                    texts(keys@) == texts(idx.order@).map_values(|s: Seq<char>| stripped(s)).take(
                        i as int,
                    ),
                decreases idx.order@.len() - i,
            {
                let ghost before = texts(keys@);
                let k = strip_slash(idx.order[i].as_str());
                keys.push(k);
                i = i + 1;
                assert(texts(keys@) =~= before.push(k@));
                assert(texts(keys@) =~= texts(idx.order@).map_values(|s: Seq<char>| stripped(s)).take(
                    i as int,
                ));
            }
            assert(texts(idx.order@).map_values(|s: Seq<char>| stripped(s)).take(
                idx.order@.len() as int,
            ) =~= texts(idx.order@).map_values(|s: Seq<char>| stripped(s)));
        },
    }
    PositionMap { keys }
}

/// Where the last `name` stands in `keys`.
fn find_last(keys: &Vec<String>, name: &[char]) -> (r: Option<usize>)
    ensures
        match last_index(texts(keys@), name@) {
            Some(k) => r == Some(k as usize),
            None => r is None,
        },
{
    let mut j: usize = keys.len();
    assert(texts(keys@).take(j as int) =~= texts(keys@));
    while j > 0
        invariant
            j <= keys@.len(),
            last_index(texts(keys@), name@) == last_index(texts(keys@).take(j as int), name@),
        decreases j,
    {
        assert(texts(keys@).take(j as int).drop_last() =~= texts(keys@).take(j - 1));
        if chars_eq(&chars_of(keys[j - 1].as_str()), name) {
            return Some(j - 1);
        }
        j = j - 1;
    }
    None
}

/// Get the position for an item: its place in the index (as an `i32`, as the
/// map stores it), or else the next unlisted position, which is then used up.
pub fn get_position(name: &str, position_map: &PositionMap, unlisted_counter: &mut i32) -> (r: i32)
    requires
        *old(unlisted_counter) <= i32::MAX - UNLISTED_POSITION_BASE,
    ensures
        match last_index(texts(position_map.keys@), name@) {
            Some(k) => r == k as i32 && *final(unlisted_counter) == *old(unlisted_counter),
            None => r == UNLISTED_POSITION_BASE + *old(unlisted_counter)
                && *final(unlisted_counter) == *old(unlisted_counter) + 1,
        },
{
    let n = chars_of(name);
    proof {
        lemma_last_index(texts(position_map.keys@), name@);
    }
    match find_last(&position_map.keys, &n) {
        Some(k) => {
            let nk = position_map.keys.len();
            assert(k < nk);
            k as i32
        },
        None => {
            let pos = UNLISTED_POSITION_BASE + *unlisted_counter;
            *unlisted_counter = *unlisted_counter + 1;
            pos
        },
    }
}

/// The names an index lists, as used to order a folder's entries: every name
/// for files; for subfolders only the names with a trailing `/`, stripped.
pub open spec fn lookup_keys(order: Seq<Seq<char>>, folders: bool) -> Seq<Option<Seq<char>>> {
    order.map_values(
        |o: Seq<char>|
            if !folders {
                Some(o)
            } else if o.len() > 0 && o.last() == '/' {
                Some(o.drop_last())
            } else {
                None
            },
    )
}

/// The last index at which `keys` lists `name`.
pub open spec fn last_match(keys: Seq<Option<Seq<char>>>, name: Seq<char>) -> Option<int>
    decreases keys.len(),
{
    if keys.len() == 0 {
        None
    } else if keys.last() == Some(name) {
        Some(keys.len() - 1)
    } else {
        last_match(keys.drop_last(), name)
    }
}

proof fn lemma_last_match(keys: Seq<Option<Seq<char>>>, name: Seq<char>)
    ensures
        last_match(keys, name) matches Some(k) ==> 0 <= k < keys.len(),
    decreases keys.len(),
{
    if keys.len() > 0 && keys.last() != Some(name) {
        lemma_last_match(keys.drop_last(), name);
    }
}

/// The first `n` names that the index lists, each as its index position and
/// its own index.
pub open spec fn listed(names: Seq<Seq<char>>, keys: Seq<Option<Seq<char>>>, n: int) -> Seq<
    (i64, usize),
>
    decreases n,
{
    if n <= 0 {
        Seq::empty()
    } else {
        listed(names, keys, n - 1) + match last_match(keys, names[n - 1]) {
            Some(p) => seq![(p as i64, (n - 1) as usize)],
            None => Seq::empty(),
        }
    }
}

/// The first `n` names that the index does not list, each with its index.
pub open spec fn unlisted(names: Seq<Seq<char>>, keys: Seq<Option<Seq<char>>>, n: int) -> Seq<
    (Seq<char>, usize),
>
    decreases n,
{
    if n <= 0 {
        Seq::empty()
    } else {
        unlisted(names, keys, n - 1) + match last_match(keys, names[n - 1]) {
            Some(p) => Seq::empty(),
            None => seq![(names[n - 1], (n - 1) as usize)],
        }
    }
}

/// The order of a folder's entries, as indices into `names`: without an
/// index, by name; with one, first the listed entries in the index's order,
/// then the others by name.  Sorting is stable throughout.
pub open spec fn entry_order(names: Seq<Seq<char>>, index: Option<Seq<Seq<char>>>, folders: bool) -> Seq<
    usize,
> {
    match index {
        None => sort_by_name(unlisted(names, Seq::empty(), names.len() as int)).map_values(
            |p: (Seq<char>, usize)| p.1,
        ),
        Some(order) => {
            let keys = lookup_keys(order, folders);
            sort_by_key(listed(names, keys, names.len() as int)).map_values(
                |p: (i64, usize)| p.1,
            ) + sort_by_name(unlisted(names, keys, names.len() as int)).map_values(
                |p: (Seq<char>, usize)| p.1,
            )
        },
    }
}

fn find_last_match(keys: &Vec<Option<Vec<char>>>, name: &[char]) -> (r: Option<usize>)
    ensures
        match last_match(key_views(keys@), name@) {
            Some(k) => r == Some(k as usize),
            None => r is None,
        },
        r matches Some(p) ==> last_match(key_views(keys@), name@) == Some(p as int),
{
    let ghost kv = key_views(keys@);
    let mut j: usize = keys.len();
    assert(kv.take(j as int) =~= kv);
    while j > 0
        invariant
            j <= keys@.len(),
            kv == key_views(keys@),
            last_match(kv, name@) == last_match(kv.take(j as int), name@),
        decreases j,
    {
        assert(kv.take(j as int).drop_last() =~= kv.take(j - 1));
        match &keys[j - 1] {
            Some(k) => {
                if chars_eq(k, name) {
                    return Some(j - 1);
                }
            },
            None => {},
        }
        j = j - 1;
    }
    None
}

/// The text of each key.
pub open spec fn key_views(keys: Seq<Option<Vec<char>>>) -> Seq<Option<Seq<char>>> {
    keys.map_values(
        |k: Option<Vec<char>>|
            match k {
                Some(v) => Some(v@),
                None => None,
            },
    )
}

fn sorted_indices_by_name(v: Vec<(Vec<char>, usize)>) -> (r: Vec<usize>)
    ensures
        r@ == sort_by_name(v@.map_values(|p: (Vec<char>, usize)| (p.0@, p.1))).map_values(
            |p: (Seq<char>, usize)| p.1,
        ),
{
    let sorted = sort_by_name_stable(v);
    let ghost sv = sorted@.map_values(|p: (Vec<char>, usize)| (p.0@, p.1));
    let mut out: Vec<usize> = Vec::new();
    let mut j: usize = 0;
    while j < sorted.len()
        invariant
            j <= sorted@.len(),
            sv == sorted@.map_values(|p: (Vec<char>, usize)| (p.0@, p.1)),
            out@ == sv.take(j as int).map_values(|p: (Seq<char>, usize)| p.1),
        decreases sorted@.len() - j,
    {
        out.push(sorted[j].1);
        j = j + 1;
        assert(out@ =~= sv.take(j as int).map_values(|p: (Seq<char>, usize)| p.1));
    }
    assert(sv.take(sorted@.len() as int) =~= sv);
    out
}

/// Orders a folder's entries by its index, if it has one: `names` are the
/// entries' names, in the order they were found; the result lists their
/// indices.  With `folders`, the entries are subfolders, and only the
/// index's names with a trailing `/` count.
pub fn order_names(names: &Vec<String>, index: Option<&FolderIndex>, folders: bool) -> (r: Vec<
    usize,
>)
    requires
        index matches Some(i) ==> i.order@.len() <= i64::MAX,
    ensures
        r@ == entry_order(
            texts(names@),
            match index {
                Some(i) => Some(texts(i.order@)),
                None => None,
            },
            folders,
        ),
{
    let ghost nv = texts(names@);
    let mut keys: Vec<Option<Vec<char>>> = Vec::new();
    match index {
        None => {},
        Some(idx) => {
            let mut i: usize = 0;
            while i < idx.order.len()
                invariant
                    i <= idx.order@.len(),
                    key_views(keys@) == lookup_keys(texts(idx.order@), folders).take(i as int),
                decreases idx.order@.len() - i,
            {
                let o = chars_of(idx.order[i].as_str());
                let k = if !folders {
                    Some(o)
                } else if o.len() > 0 && o[o.len() - 1] == '/' {
                    Some(slice_range(&o, 0, o.len() - 1))
                } else {
                    None
                };
                let ghost before = key_views(keys@);
                let ghost kv = match &k {
                    Some(v) => Some(v@),
                    None => None,
                };
                keys.push(k);
                i = i + 1;
                assert(key_views(keys@) =~= before.push(kv));
                assert(key_views(keys@) =~= lookup_keys(texts(idx.order@), folders).take(i as int));
            }
            assert(lookup_keys(texts(idx.order@), folders).take(idx.order@.len() as int)
                =~= lookup_keys(texts(idx.order@), folders));
        },
    }
    let ghost kv = key_views(keys@);
    assert(index is None ==> kv =~= Seq::<Option<Seq<char>>>::empty());
    let mut ranked: Vec<(i64, usize)> = Vec::new();
    let mut others: Vec<(Vec<char>, usize)> = Vec::new();
    let mut i: usize = 0;
    while i < names.len()
        invariant
            i <= names@.len(),
            nv == texts(names@),
            kv == key_views(keys@),
            index matches Some(x) ==> kv.len() == x.order@.len() && x.order@.len() <= i64::MAX,
            index is None ==> kv.len() == 0,
            ranked@ == listed(nv, kv, i as int),
            others@.map_values(|p: (Vec<char>, usize)| (p.0@, p.1)) == unlisted(nv, kv, i as int),
        decreases names@.len() - i,
    {
        let n = chars_of(names[i].as_str());
        proof {
            lemma_last_match(kv, nv[i as int]);
        }
        let ghost before = others@.map_values(|p: (Vec<char>, usize)| (p.0@, p.1));
        let ghost rbefore = ranked@;
        assert(n@ == nv[i as int]);
        match find_last_match(&keys, &n) {
            Some(p) => {
                ranked.push((p as i64, i));
                assert(ranked@ =~= rbefore.push((p as i64, i)));
                assert(last_match(kv, nv[i as int]) == Some(p as int));
                assert(p < kv.len());
                assert(listed(nv, kv, i + 1) == listed(nv, kv, i as int) + seq![(p as i64, i)]);
                assert(others@.map_values(|p: (Vec<char>, usize)| (p.0@, p.1)) =~= before);
            },
            None => {
                let ghost nn = n@;
                others.push((n, i));
                assert(listed(nv, kv, i + 1) =~= listed(nv, kv, i as int));
                assert(others@.map_values(|p: (Vec<char>, usize)| (p.0@, p.1)) =~= before.push(
                    (nn, i),
                ));
            },
        }
        i = i + 1;
        assert(ranked@ =~= listed(nv, kv, i as int));
    }
    let tail = sorted_indices_by_name(others);
    match index {
        None => tail,
        Some(_) => {
            let sorted = sort_by_key_stable(ranked);
            let mut out: Vec<usize> = Vec::new();
            let mut j: usize = 0;
            while j < sorted.len()
                invariant
                    j <= sorted@.len(),
                    out@ == sorted@.take(j as int).map_values(|p: (i64, usize)| p.1),
                decreases sorted@.len() - j,
            {
                out.push(sorted[j].1);
                j = j + 1;
                assert(out@ =~= sorted@.take(j as int).map_values(|p: (i64, usize)| p.1));
            }
            assert(sorted@.take(sorted@.len() as int) =~= sorted@);
            let mut k: usize = 0;
            let ghost head = out@;
            while k < tail.len()
                invariant
                    k <= tail@.len(),
                    out@ == head + tail@.take(k as int),
                decreases tail@.len() - k,
            {
                out.push(tail[k]);
                k = k + 1;
                assert(out@ =~= head + tail@.take(k as int));
            }
            assert(tail@.take(tail@.len() as int) =~= tail@);
            out
        },
    }
}

/// The path of subdirectory `name` of the folder at `parent` (relative to
/// the root directory).
pub open spec fn child_path(parent: Seq<char>, name: Seq<char>) -> Seq<char> {
    if parent.len() == 0 {
        name
    } else {
        parent + "/"@ + name
    }
}

/// The path of subdirectory `name` of the folder at `parent_path`.
pub fn subdir_path(parent_path: &str, name: &str) -> (r: String)
    ensures
        r@ == child_path(parent_path@, name@),
{
    let p = chars_of(parent_path);
    if p.len() == 0 {
        string_of(&chars_of(name))
    } else {
        let mut t = p;
        append_chars(&mut t, &chars_of("/"));
        append_chars(&mut t, &chars_of(name));
        string_of(&t)
    }
}

/// Statistics from an import operation.
#[derive(Debug)]
pub struct ImportStats {
    /// Number of folders created.
    pub folders_created: usize,
    /// Number of bookmarks imported.
    pub bookmarks_imported: usize,
    /// Number of separators imported.
    pub separators_imported: usize,
}

impl Default for ImportStats {
    fn default() -> (r: Self)
        ensures
            r.folders_created == 0,
            r.bookmarks_imported == 0,
            r.separators_imported == 0,
    {
        ImportStats { folders_created: 0, bookmarks_imported: 0, separators_imported: 0 }
    }
}

/// The code of `c`, an ASCII capital taken as its small letter.
pub open spec fn lower_code(c: char) -> u32 {
    if 'A' <= c <= 'Z' {
        (c as u32 + 32) as u32
    } else {
        c as u32
    }
}

/// `a` and `b` are equal but for the case of ASCII letters
/// (`str::eq_ignore_ascii_case`).
pub open spec fn caseless_eq(a: Seq<char>, b: Seq<char>) -> bool {
    a.len() == b.len() && forall|i: int| 0 <= i < a.len() ==> lower_code(a[i]) == lower_code(b[i])
}

fn lower_code_of(c: char) -> (r: u32)
    ensures
        r == lower_code(c),
{
    if 'A' <= c && c <= 'Z' {
        c as u32 + 32
    } else {
        c as u32
    }
}

/// Whether `a` and `b` are equal but for the case of ASCII letters.
pub fn caseless_equal(a: &[char], b: &[char]) -> (r: bool)
    ensures
        r == caseless_eq(a@, b@),
{
    if a.len() != b.len() {
        return false;
    }
    let mut i: usize = 0;
    while i < a.len()
        invariant
            i <= a@.len(),
            a@.len() == b@.len(),
            forall|k: int| 0 <= k < i ==> lower_code(a@[k]) == lower_code(b@[k]),
        decreases a@.len() - i,
    {
        if lower_code_of(a[i]) != lower_code_of(b[i]) {
            return false;
        }
        i = i + 1;
    }
    true
}

/// `name` without the suffix `suffix` where it ends with it.
pub open spec fn without_suffix(name: Seq<char>, suffix: Seq<char>) -> Seq<char> {
    if name.len() >= suffix.len() && name.skip(name.len() - suffix.len()) == suffix {
        name.take(name.len() - suffix.len())
    } else {
        name
    }
}

fn strip_suffix(name: &[char], suffix: &[char]) -> (r: Vec<char>)
    ensures
        r@ == without_suffix(name@, suffix@),
{
    if ends_with(name, suffix) {
        let r = slice_range(name, 0, name.len() - suffix.len());
        assert(r@ =~= name@.take(name@.len() - suffix@.len()));
        r
    } else {
        let r = slice_range(name, 0, name.len());
        assert(r@ =~= name@);
        r
    }
}

/// What the file `file_name` of a folder's directory holds: a bookmark
/// (`Some((name, true))`) where its extension is `toml` in any case, a
/// separator (`Some((name, false))`) where it is `separator` in any case, the
/// name being the file name without `.toml` or `.separator` where it ends so;
/// nothing for the folder's index file and for other files.
pub open spec fn file_entry(file_name: Seq<char>) -> Option<(Seq<char>, bool)> {
    if file_name == "__index.toml"@ {
        None
    } else {
        match extension(file_name) {
            Some(e) => if caseless_eq(e, "toml"@) {
                Some((without_suffix(file_name, ".toml"@), true))
            } else if caseless_eq(e, "separator"@) {
                Some((without_suffix(file_name, ".separator"@), false))
            } else {
                None
            },
            None => None,
        }
    }
}

/// Read what a file of a folder's directory holds, by its name.
pub fn entry_of_file(file_name: &str) -> (r: Option<(String, bool)>)
    ensures
        match file_entry(file_name@) {
            Some((n, b)) => r matches Some((m, c)) && m@ == n && c == b,
            None => r is None,
        },
{
    let name = chars_of(file_name);
    if chars_eq(&name, &chars_of("__index.toml")) {
        return None;
    }
    let n = name.len();
    assert(n == name@.len());
    let dot = match find_ext_dot(&name) {
        Some(d) => d,
        None => return None,
    };
    let ext = slice_range(&name, dot + 1, n);
    assert(ext@ =~= file_name@.skip(dot + 1));
    assert(extension(file_name@) == Some(ext@));
    if caseless_equal(&ext, &chars_of("toml")) {
        let stem = strip_suffix(&name, &chars_of(".toml"));
        Some((string_of(&stem), true))
    } else if caseless_equal(&ext, &chars_of("separator")) {
        let stem = strip_suffix(&name, &chars_of(".separator"));
        Some((string_of(&stem), false))
    } else {
        None
    }
}

// ---- reading an index back ----
/// The entry names an index lists, the trailing `/` of a subfolder's name
/// dropped where `folders`.
pub open spec fn index_names(order: Seq<Seq<char>>, folders: bool) -> Seq<Seq<char>> {
    lookup_keys(order, folders).map_values(
        |k: Option<Seq<char>>|
            match k {
                Some(x) => x,
                None => Seq::empty(),
            },
    )
}

/// No text occurs twice in `s`.
pub open spec fn distinct_texts(s: Seq<Seq<char>>) -> bool {
    forall|a: int, b: int| 0 <= a < b < s.len() ==> s[a] != s[b]
}

proof fn lemma_last_match_unique(keys: Seq<Option<Seq<char>>>, x: Seq<char>, p: int)
    requires
        0 <= p < keys.len(),
        keys[p] == Some(x),
        forall|q: int| 0 <= q < keys.len() && q != p ==> keys[q] != Some(x),
    ensures
        last_match(keys, x) == Some(p),
    decreases keys.len(),
{
    if keys.last() != Some(x) {
        let init = keys.drop_last();
        assert forall|q: int| 0 <= q < init.len() && q != p implies init[q] != Some(x) by {
            assert(init[q] == keys[q]);
        }
        lemma_last_match_unique(init, x, p);
    }
}

/// Where entry `i` stands in the index.
spec fn index_pos(kn: Seq<Seq<char>>, x: Seq<char>) -> int {
    choose|p: int| 0 <= p < kn.len() && kn[p] == x
}

proof fn lemma_listed_all(names: Seq<Seq<char>>, order: Seq<Seq<char>>, folders: bool, m: int)
    requires
        0 <= m <= names.len(),
        order.len() <= i64::MAX,
        forall|k: int| 0 <= k < order.len() ==> (#[trigger] lookup_keys(order, folders)[k]) is Some,
        distinct_texts(index_names(order, folders)),
        forall|i: int| 0 <= i < names.len() ==> index_names(order, folders).contains(#[trigger] names[i]),
    ensures
        listed(names, lookup_keys(order, folders), m) == Seq::new(
            m as nat,
            |i: int| (index_pos(index_names(order, folders), names[i]) as i64, i as usize),
        ),
        unlisted(names, lookup_keys(order, folders), m) == Seq::<(Seq<char>, usize)>::empty(),
    decreases m,
{
    let keys = lookup_keys(order, folders);
    let kn = index_names(order, folders);
    if m > 0 {
        lemma_listed_all(names, order, folders, m - 1);
        let x = names[m - 1];
        assert(kn.contains(x));
        let p = index_pos(kn, x);
        assert(0 <= p < kn.len() && kn[p] == x);
        assert(keys[p] == Some(kn[p]));
        assert forall|q: int| 0 <= q < keys.len() && q != p implies keys[q] != Some(x) by {
            assert(keys[q] == Some(kn[q]));
            if q < p {
                assert(kn[q] != kn[p]);
            } else {
                assert(kn[p] != kn[q]);
            }
        }
        lemma_last_match_unique(keys, x, p);
        assert(listed(names, keys, m) =~= Seq::new(
            m as nat,
            |i: int| (index_pos(kn, names[i]) as i64, i as usize),
        ));
        assert(unlisted(names, keys, m) =~= Seq::<(Seq<char>, usize)>::empty());
    }
}

proof fn lemma_strict_range_identity(s: Seq<(i64, usize)>)
    requires
        forall|a: int, b: int| 0 <= a < b < s.len() ==> s[a].0 < s[b].0,
        forall|a: int| 0 <= a < s.len() ==> 0 <= #[trigger] s[a].0 < s.len(),
    ensures
        forall|a: int| 0 <= a < s.len() ==> #[trigger] s[a].0 == a,
{
    assert forall|a: int| 0 <= a < s.len() implies #[trigger] s[a].0 >= a by {
        lemma_strict_below(s, a);
    }
    assert forall|a: int| 0 <= a < s.len() implies #[trigger] s[a].0 <= a by {
        lemma_strict_above(s, a);
    }
}

proof fn lemma_strict_below(s: Seq<(i64, usize)>, a: int)
    requires
        0 <= a < s.len(),
        forall|x: int, y: int| 0 <= x < y < s.len() ==> s[x].0 < s[y].0,
        forall|x: int| 0 <= x < s.len() ==> 0 <= #[trigger] s[x].0 < s.len(),
    ensures
        s[a].0 >= a,
    decreases a,
{
    if a > 0 {
        lemma_strict_below(s, a - 1);
    }
}

proof fn lemma_strict_above(s: Seq<(i64, usize)>, a: int)
    requires
        0 <= a < s.len(),
        forall|x: int, y: int| 0 <= x < y < s.len() ==> s[x].0 < s[y].0,
        forall|x: int| 0 <= x < s.len() ==> 0 <= #[trigger] s[x].0 < s.len(),
    ensures
        s[a].0 <= a,
    decreases s.len() - a,
{
    if a < s.len() - 1 {
        lemma_strict_above(s, a + 1);
    }
}

/// An index read back gives the order it was written in: where a folder's
/// entries are named distinctly and its index lists each of them once and
/// nothing else, the entries come out in the order the index lists them.
pub proof fn lemma_index_read_back(names: Seq<Seq<char>>, order: Seq<Seq<char>>, folders: bool)
    requires
        names.len() == order.len(),
        order.len() <= i64::MAX,
        names.len() <= usize::MAX,
        forall|k: int| 0 <= k < order.len() ==> (#[trigger] lookup_keys(order, folders)[k]) is Some,
        distinct_texts(names),
        distinct_texts(index_names(order, folders)),
        forall|i: int| 0 <= i < names.len() ==> index_names(order, folders).contains(#[trigger] names[i]),
    ensures
        entry_order(names, Some(order), folders).len() == names.len(),
        forall|a: int|
            0 <= a < names.len() ==> #[trigger] names[entry_order(names, Some(order), folders)[a] as int]
                == index_names(order, folders)[a],
{
    let keys = lookup_keys(order, folders);
    let kn = index_names(order, folders);
    let n = names.len() as int;
    lemma_listed_all(names, order, folders, n);
    let l = listed(names, keys, n);
    let pos = |i: int| index_pos(kn, names[i]);
    assert forall|i: int| 0 <= i < n implies 0 <= #[trigger] pos(i) < n && kn[pos(i)] == names[i] by {
        assert(kn.contains(names[i]));
    }
    assert(l.no_duplicates()) by {
        assert forall|a: int, b: int| 0 <= a < l.len() && 0 <= b < l.len() && a != b implies l[a] != l[b] by {
            assert(l[a].1 == a as usize);
            assert(l[b].1 == b as usize);
        }
    }
    lemma_sort_by_key(l);
    let srt = sort_by_key(l);
    vstd::seq_lib::to_multiset_len(l);
    vstd::seq_lib::to_multiset_len(srt);
    l.lemma_multiset_has_no_duplicates();
    assert forall|x: (i64, usize)| srt.to_multiset().contains(x) implies srt.to_multiset().count(x) == 1 by {
        assert(l.to_multiset().contains(x));
    }
    srt.lemma_multiset_has_no_duplicates_conv();
    assert forall|a: int| 0 <= a < srt.len() implies exists|i: int| 0 <= i < n && #[trigger] srt[a] == l[i] by {
        vstd::seq_lib::to_multiset_contains(srt, srt[a]);
        vstd::seq_lib::to_multiset_contains(l, srt[a]);
        assert(srt.contains(srt[a]));
    }
    assert forall|a: int, b: int| 0 <= a < b < srt.len() implies srt[a].0 < srt[b].0 by {
        let i = choose|i: int| 0 <= i < n && srt[a] == l[i];
        let j = choose|j: int| 0 <= j < n && srt[b] == l[j];
        assert(srt[a].0 <= srt[b].0);
        if srt[a].0 == srt[b].0 {
            assert(pos(i) == pos(j));
            assert(names[i] == names[j]);
            if i != j {
                if i < j {
                    assert(names[i] != names[j]);
                } else {
                    assert(names[j] != names[i]);
                }
            }
            assert(srt[a] == srt[b]);
        }
    }
    assert forall|a: int| 0 <= a < srt.len() implies 0 <= #[trigger] srt[a].0 < srt.len() by {
        let i = choose|i: int| 0 <= i < n && srt[a] == l[i];
        assert(srt[a].0 == pos(i));
    }
    lemma_strict_range_identity(srt);
    lemma_sort_by_name_empty();
    let eo = entry_order(names, Some(order), folders);
    assert(eo =~= srt.map_values(|p: (i64, usize)| p.1));
    assert forall|a: int| 0 <= a < n implies #[trigger] names[eo[a] as int] == kn[a] by {
        let i = choose|i: int| 0 <= i < n && srt[a] == l[i];
        assert(srt[a].0 == a);
        assert(eo[a] == srt[a].1);
        assert(l[i] == (pos(i) as i64, i as usize));
        assert(srt[a].1 == i as usize);
        assert(eo[a] as int == i);
        assert(pos(i) as i64 == a);
        assert(pos(i) == a);
    }
}

proof fn lemma_sort_by_name_empty()
    ensures
        sort_by_name(Seq::<(Seq<char>, usize)>::empty()) == Seq::<(Seq<char>, usize)>::empty(),
{
}

} // verus!
