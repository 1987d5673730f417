//! The plan of an import: every folder, bookmark and separator of the file
//! tree, in the order they are inserted into the database, each with the
//! folder it goes into and its position there.  Folders made by the import
//! are referred to by the step that makes them; the program carries out the
//! steps and learns their database IDs as it goes.
use vstd::prelude::*;
use crate::ffbm::db::texts;
use crate::ffbm::import::{
    build_position_map, get_position, last_index, position_keys, PositionMap, UNLISTED_POSITION_BASE,
};
use crate::ffbm::types::{dir_name_to_root, root_of_dir, FolderIndex};
use crate::ffbm::import::ImportStats;
use crate::text::{
    append_chars, chars_eq, chars_of, join, join_chars, lemma_split_on_nonempty, split_chars, split_on,
    string_of,
};

verus! {

/// The folder an item goes into: a root folder, or the folder made by the
/// step at that index of the plan.
#[derive(Debug, Clone, Copy, PartialEq, Eq, Structural)]
pub enum ParentRef {
    Root(i64),
    Created(usize),
}

/// An entry of a folder of the file tree: its name (the file name without
/// extension), and whether it is a bookmark (else a separator).
#[derive(Debug)]
pub struct ImportEntry {
    pub name: String,
    pub is_bookmark: bool,
}

/// A folder of the file tree, as read: its path below the root directory
/// (empty for the root directory itself), its index if it has one, and its
/// entries in order.
#[derive(Debug)]
pub struct ImportFolder {
    pub path: String,
    pub index: Option<FolderIndex>,
    pub entries: Vec<ImportEntry>,
}

/// A root directory of the file tree: its name and its folders, parents
/// before children.
#[derive(Debug)]
pub struct RootTree {
    pub name: String,
    pub folders: Vec<ImportFolder>,
}

/// One insertion into the database.
#[derive(Debug)]
pub enum ImportStep {
    /// Make a folder.
    CreateFolder { parent: ParentRef, title: String, position: i32 },
    /// Insert the entry `entry` of folder `folder` of root `root`: a bookmark
    /// or a separator, as the entry says.
    InsertEntry { parent: ParentRef, position: i32, root: usize, folder: usize, entry: usize },
}

/// A step as plain values.
#[verifier::ext_equal]
pub enum StepV {
    CreateFolder { parent: ParentRef, title: Seq<char>, position: i32 },
    InsertEntry { parent: ParentRef, position: i32, root: usize, folder: usize, entry: usize },
}

pub open spec fn step_v(s: ImportStep) -> StepV {
    match s {
        ImportStep::CreateFolder { parent, title, position } => StepV::CreateFolder {
            parent,
            title: title@,
            position,
        },
        ImportStep::InsertEntry { parent, position, root, folder, entry } => StepV::InsertEntry {
            parent,
            position,
            root,
            folder,
            entry,
        },
    }
}

pub open spec fn steps_v(v: Seq<ImportStep>) -> Seq<StepV> {
    v.map_values(|s: ImportStep| step_v(s))
}

/// What the import has planned so far: its steps, the folder each path
/// (root name, or root name, `/` and path) stands for, how many unlisted
/// items each folder of the current root has had, and the counts.
#[verifier::ext_equal]
pub struct PlanState {
    pub steps: Seq<StepV>,
    pub ids: Map<Seq<char>, ParentRef>,
    pub counters: Map<ParentRef, int>,
    pub folders: nat,
    pub bookmarks: nat,
    pub separators: nat,
}

/// The key of the folder at `path` in root `root`.
pub open spec fn full_key(root: Seq<char>, path: Seq<char>) -> Seq<char> {
    if path.len() == 0 {
        root
    } else {
        root + "/"@ + path
    }
}

/// The index names of the last folder of `fs` at `path` (none if no folder
/// is there).
pub open spec fn keys_for(fs: Seq<ImportFolder>, path: Seq<char>) -> Seq<Seq<char>>
    decreases fs.len(),
{
    if fs.len() == 0 {
        Seq::empty()
    } else if fs.last().path@ == path {
        position_keys(fs.last().index)
    } else {
        keys_for(fs.drop_last(), path)
    }
}

/// How many unlisted items `p` has had.
pub open spec fn count_of(counters: Map<ParentRef, int>, p: ParentRef) -> int {
    if counters.contains_key(p) {
        counters[p]
    } else {
        0
    }
}

/// The position of item `name` under `parent` with index names `keys`: its
/// place in the index, or the next unlisted position; and the counters after.
pub open spec fn place(counters: Map<ParentRef, int>, parent: ParentRef, keys: Seq<Seq<char>>, name: Seq<char>) -> (
    int,
    Map<ParentRef, int>,
) {
    let c = count_of(counters, parent);
    match last_index(keys, name) {
        Some(k) => (k, counters.insert(parent, c)),
        None => (UNLISTED_POSITION_BASE + c, counters.insert(parent, c + 1)),
    }
}

/// The first pass over folder `f` of root `root` (ID `rid`): the root
/// directory is noted as the root folder; any other folder is made in its
/// parent folder (the folder noted for its parent path, else the root),
/// positioned by its parent's index.
pub open spec fn folder_step(st: PlanState, root: Seq<char>, rid: i64, fs: Seq<ImportFolder>, f: ImportFolder) -> PlanState {
    let p = f.path@;
    if p.len() == 0 {
        PlanState { ids: st.ids.insert(root, ParentRef::Root(rid)), ..st }
    } else {
        let parts = split_on(p, '/');
        let title = parts.last();
        let parent_rel = if parts.len() == 1 {
            Seq::<char>::empty()
        } else {
            join(parts.drop_last(), "/"@)
        };
        let parent = if parts.len() == 1 {
            ParentRef::Root(rid)
        } else if st.ids.contains_key(full_key(root, parent_rel)) {
            st.ids[full_key(root, parent_rel)]
        } else {
            ParentRef::Root(rid)
        };
        let pl = place(st.counters, parent, keys_for(fs, parent_rel), title);
        PlanState {
            steps: st.steps.push(StepV::CreateFolder { parent, title, position: pl.0 as i32 }),
            ids: st.ids.insert(full_key(root, p), ParentRef::Created(st.steps.len() as usize)),
            counters: pl.1,
            folders: st.folders + 1,
            ..st
        }
    }
}

/// The first pass over the first `n` folders.
pub open spec fn first_pass(st: PlanState, root: Seq<char>, rid: i64, fs: Seq<ImportFolder>, n: int) -> PlanState
    decreases n,
{
    if n <= 0 {
        st
    } else {
        folder_step(first_pass(st, root, rid, fs, n - 1), root, rid, fs, fs[n - 1])
    }
}

/// The folder the entries of the folder at `p` go into.
pub open spec fn entries_parent(st: PlanState, root: Seq<char>, rid: i64, p: Seq<char>) -> ParentRef {
    if p.len() == 0 {
        ParentRef::Root(rid)
    } else if st.ids.contains_key(full_key(root, p)) {
        st.ids[full_key(root, p)]
    } else {
        ParentRef::Root(rid)
    }
}

/// Inserting entry `k` of folder `j` of root `ri` into `parent`, whose index
/// names are `keys`.
pub open spec fn entry_step(
    prev: PlanState,
    ri: usize,
    parent: ParentRef,
    keys: Seq<Seq<char>>,
    fs: Seq<ImportFolder>,
    j: int,
    k: int,
) -> PlanState {
    let e = fs[j].entries@[k];
    let pl = place(prev.counters, parent, keys, e.name@);
    PlanState {
        steps: prev.steps.push(
            StepV::InsertEntry {
                parent,
                position: pl.0 as i32,
                root: ri,
                folder: j as usize,
                entry: k as usize,
            },
        ),
        counters: pl.1,
        bookmarks: prev.bookmarks + if e.is_bookmark {
            1nat
        } else {
            0nat
        },
        separators: prev.separators + if e.is_bookmark {
            0nat
        } else {
            1nat
        },
        ..prev
    }
}

/// Inserting the first `n` entries of folder `j` of root `ri`, all into the
/// folder noted for its path when the entries begin.
pub open spec fn entries_pass(
    st: PlanState,
    ri: usize,
    root: Seq<char>,
    rid: i64,
    fs: Seq<ImportFolder>,
    j: int,
    n: int,
) -> PlanState
    decreases n,
{
    if n <= 0 {
        st
    } else {
        entry_step(
            entries_pass(st, ri, root, rid, fs, j, n - 1),
            ri,
            entries_parent(st, root, rid, fs[j].path@),
            keys_for(fs, fs[j].path@),
            fs,
            j,
            n - 1,
        )
    }
}

/// The second pass over the first `n` folders: each folder's entries.
pub open spec fn second_pass(st: PlanState, ri: usize, root: Seq<char>, rid: i64, fs: Seq<ImportFolder>, n: int) -> PlanState
    decreases n,
{
    if n <= 0 {
        st
    } else {
        let prev = second_pass(st, ri, root, rid, fs, n - 1);
        entries_pass(prev, ri, root, rid, fs, n - 1, fs[n - 1].entries@.len() as int)
    }
}

/// The plan for root `ri`: with fresh unlisted counters, the first pass, then
/// the second; a directory that names no root adds nothing.
pub open spec fn root_plan(st: PlanState, ri: usize, r: RootTree) -> PlanState {
    match root_of_dir(r.name@) {
        None => st,
        Some(rid) => {
            let fs = r.folders@;
            let st0 = PlanState { counters: Map::empty(), ..st };
            let st1 = first_pass(st0, r.name@, rid, fs, fs.len() as int);
            second_pass(st1, ri, r.name@, rid, fs, fs.len() as int)
        },
    }
}

/// The plan for the first `n` roots.
pub open spec fn import_plan(roots: Seq<RootTree>, n: int) -> PlanState
    decreases n,
{
    if n <= 0 {
        PlanState {
            steps: Seq::empty(),
            ids: Map::empty(),
            counters: Map::empty(),
            folders: 0,
            bookmarks: 0,
            separators: 0,
        }
    } else {
        root_plan(import_plan(roots, n - 1), (n - 1) as usize, roots[n - 1])
    }
}

/// The map that a list of (key, value) pairs stands for, later pairs
/// overriding earlier ones.
pub open spec fn amap<K, V>(v: Seq<(K, V)>) -> Map<K, V>
    decreases v.len(),
{
    if v.len() == 0 {
        Map::empty()
    } else {
        amap(v.drop_last()).insert(v.last().0, v.last().1)
    }
}

/// No two pairs share a key.
pub open spec fn unique_keys<K, V>(v: Seq<(K, V)>) -> bool {
    forall|a: int, b: int| 0 <= a < b < v.len() ==> v[a].0 != v[b].0
}

proof fn lemma_amap_index<K, V>(v: Seq<(K, V)>, i: int)
    requires
        unique_keys(v),
        0 <= i < v.len(),
    ensures
        amap(v).contains_key(v[i].0),
        amap(v)[v[i].0] == v[i].1,
    decreases v.len(),
{
    if i < v.len() - 1 {
        lemma_amap_index(v.drop_last(), i);
        assert(v.last().0 != v[i].0);
    }
}

proof fn lemma_amap_absent<K, V>(v: Seq<(K, V)>, k: K)
    requires
        forall|i: int| 0 <= i < v.len() ==> v[i].0 != k,
    ensures
        !amap(v).contains_key(k),
    decreases v.len(),
{
    if v.len() > 0 {
        lemma_amap_absent(v.drop_last(), k);
    }
}

proof fn lemma_amap_update<K, V>(v: Seq<(K, V)>, i: int, x: V)
    requires
        unique_keys(v),
        0 <= i < v.len(),
    ensures
        amap(v.update(i, (v[i].0, x))) == amap(v).insert(v[i].0, x),
    decreases v.len(),
{
    let u = v.update(i, (v[i].0, x));
    if i == v.len() - 1 {
        assert(u.drop_last() =~= v.drop_last());
        assert(amap(u) =~= amap(v).insert(v[i].0, x));
    } else {
        assert(u.drop_last() =~= v.drop_last().update(i, (v[i].0, x)));
        lemma_amap_update(v.drop_last(), i, x);
        assert(v.last().0 != v[i].0);
        assert(amap(u) =~= amap(v).insert(v[i].0, x));
    }
}

/// The folder of each key, as text.
pub open spec fn ids_view(v: Seq<(String, ParentRef)>) -> Seq<(Seq<char>, ParentRef)> {
    v.map_values(|p: (String, ParentRef)| (p.0@, p.1))
}

/// Each folder's count, as integers.
pub open spec fn counters_view(v: Seq<(ParentRef, i32)>) -> Seq<(ParentRef, int)> {
    v.map_values(|p: (ParentRef, i32)| (p.0, p.1 as int))
}

fn ids_get(ids: &Vec<(String, ParentRef)>, key: &[char]) -> (r: Option<ParentRef>)
    requires
        unique_keys(ids_view(ids@)),
    ensures
        amap(ids_view(ids@)).contains_key(key@) ==> r == Some(amap(ids_view(ids@))[key@]),
        !amap(ids_view(ids@)).contains_key(key@) ==> r is None,
{
    let ghost v = ids_view(ids@);
    let mut i: usize = 0;
    while i < ids.len()
        invariant
            i <= ids@.len(),
            v == ids_view(ids@),
            unique_keys(v),
            forall|k: int| 0 <= k < i ==> v[k].0 != key@,
        decreases ids@.len() - i,
    {
        if chars_eq(&chars_of(ids[i].0.as_str()), key) {
            proof {
                lemma_amap_index(v, i as int);
            }
            return Some(ids[i].1);
        }
        i = i + 1;
    }
    proof {
        lemma_amap_absent(v, key@);
    }
    None
}

fn ids_set(ids: &mut Vec<(String, ParentRef)>, key: String, val: ParentRef)
    requires
        unique_keys(ids_view(old(ids)@)),
    ensures
        unique_keys(ids_view(final(ids)@)),
        amap(ids_view(final(ids)@)) == amap(ids_view(old(ids)@)).insert(key@, val),
{
    let ghost v = ids_view(ids@);
    let k = chars_of(key.as_str());
    let mut i: usize = 0;
    while i < ids.len()
        invariant
            i <= ids@.len(),
            v == ids_view(ids@),
            v == ids_view(old(ids)@),
            unique_keys(v),
            k@ == key@,
            forall|j: int| 0 <= j < i ==> v[j].0 != key@,
        decreases ids@.len() - i,
    {
        if chars_eq(&chars_of(ids[i].0.as_str()), &k) {
            ids.set(i, (key, val));
            proof {
                assert(ids_view(ids@) =~= v.update(i as int, (v[i as int].0, val)));
                lemma_amap_update(v, i as int, val);
                assert forall|a: int, b: int| 0 <= a < b < ids_view(ids@).len() implies ids_view(
                    ids@,
                )[a].0 != ids_view(ids@)[b].0 by {
                    assert(v[a].0 != v[b].0);
                }
            }
            return;
        }
        i = i + 1;
    }
    let ghost kv = key@;
    ids.push((key, val));
    proof {
        assert(ids_view(ids@) =~= v.push((kv, val)));
        assert(ids_view(ids@).drop_last() =~= v);
    }
}

fn counter_get(cs: &Vec<(ParentRef, i32)>, p: ParentRef, Ghost(bound): Ghost<int>) -> (r: i32)
    requires
        unique_keys(counters_view(cs@)),
        forall|k: int| 0 <= k < cs@.len() ==> 0 <= #[trigger] cs@[k].1 <= bound,
    ensures
        r as int == count_of(amap(counters_view(cs@)), p),
        0 <= r,
        r == 0 || r <= bound,
{
    let ghost v = counters_view(cs@);
    let mut i: usize = 0;
    while i < cs.len()
        invariant
            i <= cs@.len(),
            v == counters_view(cs@),
            unique_keys(v),
            forall|k: int| 0 <= k < cs@.len() ==> 0 <= #[trigger] cs@[k].1 <= bound,
            forall|k: int| 0 <= k < i ==> v[k].0 != p,
        decreases cs@.len() - i,
    {
        if cs[i].0 == p {
            proof {
                lemma_amap_index(v, i as int);
            }
            return cs[i].1;
        }
        i = i + 1;
    }
    proof {
        lemma_amap_absent(v, p);
    }
    0
}

fn counter_set(cs: &mut Vec<(ParentRef, i32)>, p: ParentRef, c: i32, Ghost(bound): Ghost<int>)
    requires
        unique_keys(counters_view(old(cs)@)),
        forall|k: int| 0 <= k < old(cs)@.len() ==> 0 <= #[trigger] old(cs)@[k].1 <= bound,
        0 <= c <= bound,
    ensures
        unique_keys(counters_view(final(cs)@)),
        amap(counters_view(final(cs)@)) == amap(counters_view(old(cs)@)).insert(p, c as int),
        forall|k: int| 0 <= k < final(cs)@.len() ==> 0 <= #[trigger] final(cs)@[k].1 <= bound,
{
    let ghost v = counters_view(cs@);
    let mut i: usize = 0;
    while i < cs.len()
        invariant
            i <= cs@.len(),
            v == counters_view(cs@),
            v == counters_view(old(cs)@),
            cs@ == old(cs)@,
            unique_keys(v),
            0 <= c <= bound,
            forall|k: int| 0 <= k < cs@.len() ==> 0 <= #[trigger] cs@[k].1 <= bound,
            forall|j: int| 0 <= j < i ==> v[j].0 != p,
        decreases cs@.len() - i,
    {
        if cs[i].0 == p {
            cs.set(i, (p, c));
            proof {
                assert(counters_view(cs@) =~= v.update(i as int, (v[i as int].0, c as int)));
                lemma_amap_update(v, i as int, c as int);
                assert forall|a: int, b: int| 0 <= a < b < counters_view(cs@).len() implies counters_view(
                    cs@,
                )[a].0 != counters_view(cs@)[b].0 by {
                    assert(v[a].0 != v[b].0);
                }
            }
            return;
        }
        i = i + 1;
    }
    cs.push((p, c));
    proof {
        assert(counters_view(cs@) =~= v.push((p, c as int)));
        assert(counters_view(cs@).drop_last() =~= v);
    }
}

fn position_map_for(fs: &Vec<ImportFolder>, path: &[char]) -> (r: PositionMap)
    ensures
        texts(r.keys@) == keys_for(fs@, path@),
{
    let mut j: usize = fs.len();
    assert(fs@.take(j as int) =~= fs@);
    while j > 0
        invariant
            j <= fs@.len(),
            keys_for(fs@, path@) == keys_for(fs@.take(j as int), path@),
        decreases j,
    {
        assert(fs@.take(j as int).drop_last() =~= fs@.take(j - 1));
        assert(fs@.take(j as int).last() == fs@[j - 1]);
        if chars_eq(&chars_of(fs[j - 1].path.as_str()), path) {
            let idx = match &fs[j - 1].index {
                Some(i) => Some(i),
                None => None,
            };
            return build_position_map(idx);
        }
        j = j - 1;
    }
    let r = PositionMap { keys: Vec::new() };
    assert(texts(r.keys@) =~= Seq::<Seq<char>>::empty());
    r
}

fn full_key_exec(root: &str, path: &[char]) -> (r: Vec<char>)
    ensures
        r@ == full_key(root@, path@),
{
    let mut k = chars_of(root);
    if path.len() > 0 {
        append_chars(&mut k, &chars_of("/"));
        append_chars(&mut k, path);
    }
    k
}



/// The most folders, bookmarks and separators that one import is planned
/// for, so that every position fits in an `i32`.
pub const PLAN_LIMIT: usize = 2147383647;

/// How many entries the folders of `fs` hold together.
pub open spec fn entry_total(fs: Seq<ImportFolder>) -> nat
    decreases fs.len(),
{
    if fs.len() == 0 {
        0
    } else {
        entry_total(fs.drop_last()) + fs.last().entries@.len()
    }
}

/// How many folders and entries `fs` holds.
pub open spec fn items(fs: Seq<ImportFolder>) -> nat {
    fs.len() + entry_total(fs)
}

/// How many folders and entries the roots hold.
pub open spec fn all_items(roots: Seq<RootTree>) -> nat
    decreases roots.len(),
{
    if roots.len() == 0 {
        0
    } else {
        all_items(roots.drop_last()) + items(roots.last().folders@)
    }
}

proof fn lemma_entry_total_prefix(fs: Seq<ImportFolder>, j: int)
    requires
        0 <= j <= fs.len(),
    ensures
        entry_total(fs.take(j)) <= entry_total(fs),
        j < fs.len() ==> entry_total(fs.take(j + 1)) == entry_total(fs.take(j))
            + fs[j].entries@.len(),
    decreases fs.len(),
{
    if j < fs.len() {
        assert(fs.take(j + 1).drop_last() =~= fs.take(j));
        assert(fs.take(j) =~= fs.drop_last().take(j));
        lemma_entry_total_prefix(fs.drop_last(), j);
    } else {
        assert(fs.take(j) =~= fs);
    }
}

proof fn lemma_all_items_prefix(roots: Seq<RootTree>, i: int)
    requires
        0 <= i <= roots.len(),
    ensures
        all_items(roots.take(i)) <= all_items(roots),
        i < roots.len() ==> all_items(roots.take(i + 1)) == all_items(roots.take(i))
            + items(roots[i].folders@),
    decreases roots.len(),
{
    if i < roots.len() {
        assert(roots.take(i + 1).drop_last() =~= roots.take(i));
        assert(roots.take(i) =~= roots.drop_last().take(i));
        lemma_all_items_prefix(roots.drop_last(), i);
    } else {
        assert(roots.take(i) =~= roots);
    }
}

/// An import plan being made: its steps, the folder noted for each key, the
/// unlisted counters of the current root, and the counts so far.
struct Planner {
    steps: Vec<ImportStep>,
    ids: Vec<(String, ParentRef)>,
    counters: Vec<(ParentRef, i32)>,
    stats: ImportStats,
}

impl Planner {
    spec fn state(&self) -> PlanState {
        PlanState {
            steps: steps_v(self.steps@),
            ids: amap(ids_view(self.ids@)),
            counters: amap(counters_view(self.counters@)),
            folders: self.stats.folders_created as nat,
            bookmarks: self.stats.bookmarks_imported as nat,
            separators: self.stats.separators_imported as nat,
        }
    }

    spec fn wf(&self) -> bool {
        &&& unique_keys(ids_view(self.ids@))
        &&& unique_keys(counters_view(self.counters@))
        &&& forall|k: int|
            0 <= k < self.counters@.len() ==> 0 <= #[trigger] self.counters@[k].1 <= self.steps@.len()
        &&& self.stats.folders_created + self.stats.bookmarks_imported
            + self.stats.separators_imported == self.steps@.len()
    }

    /// The first pass over folder `j` of `fs`, of the root named `root`.
    fn add_folder(&mut self, root: &String, rid: i64, fs: &Vec<ImportFolder>, j: usize)
        requires
            old(self).wf(),
            j < fs@.len(),
            old(self).steps@.len() < PLAN_LIMIT,
        ensures
            final(self).wf(),
            final(self).state() == folder_step(old(self).state(), root@, rid, fs@, fs@[j as int]),
            final(self).steps@.len() <= old(self).steps@.len() + 1,
    {
        let ghost st = self.state();
        let p = chars_of(fs[j].path.as_str());
        if p.len() == 0 {
            ids_set(&mut self.ids, root.clone(), ParentRef::Root(rid));
            assert(self.state() =~= folder_step(st, root@, rid, fs@, fs@[j as int]));
            return;
        }
        let mut parts = split_chars(&p, '/');
        let ghost pv = split_on(p@, '/');
        proof {
            lemma_split_on_nonempty(p@, '/');
        }
        assert(parts@.map_values(|v: Vec<char>| v@).len() == parts@.len());
        let title = parts.pop().unwrap();
        assert(parts@.map_values(|v: Vec<char>| v@) =~= pv.drop_last());
        let parent_rel = join_chars(&parts, &chars_of("/"));
        let parent = if parts.len() == 0 {
            ParentRef::Root(rid)
        } else {
            let key = full_key_exec(root.as_str(), &parent_rel);
            match ids_get(&self.ids, &key) {
                Some(q) => q,
                None => ParentRef::Root(rid),
            }
        };
        let pm = position_map_for(fs, &parent_rel);
        let ghost n: int = self.steps@.len() as int;
        let c = counter_get(&self.counters, parent, Ghost(n));
        let mut c2 = c;
        let title_s = string_of(&title);
        let position = get_position(title_s.as_str(), &pm, &mut c2);
        counter_set(&mut self.counters, parent, c2, Ghost(n + 1int));
        let idx = self.steps.len();
        let ghost sv = steps_v(self.steps@);
        self.steps.push(ImportStep::CreateFolder { parent, title: title_s, position });
        assert(steps_v(self.steps@) =~= sv.push(
            StepV::CreateFolder { parent, title: title@, position },
        ));
        let key = full_key_exec(root.as_str(), &p);
        ids_set(&mut self.ids, string_of(&key), ParentRef::Created(idx));
        self.stats.folders_created = self.stats.folders_created + 1;
        assert(self.state() =~= folder_step(st, root@, rid, fs@, fs@[j as int]));
    }

    /// Entry `k` of folder `j` of `fs`, inserted into `parent`, whose index
    /// gave `pm`.
    fn add_entry(
        &mut self,
        ri: usize,
        fs: &Vec<ImportFolder>,
        j: usize,
        k: usize,
        parent: ParentRef,
        pm: &PositionMap,
    )
        requires
            old(self).wf(),
            j < fs@.len(),
            k < fs@[j as int].entries@.len(),
            old(self).steps@.len() < PLAN_LIMIT,
        ensures
            final(self).wf(),
            final(self).state() == entry_step(
                old(self).state(),
                ri,
                parent,
                texts(pm.keys@),
                fs@,
                j as int,
                k as int,
            ),
            final(self).steps@.len() == old(self).steps@.len() + 1,
    {
        let ghost st = self.state();
        let e = &fs[j].entries[k];
        let ghost n: int = self.steps@.len() as int;
        let c = counter_get(&self.counters, parent, Ghost(n));
        let mut c2 = c;
        let position = get_position(e.name.as_str(), pm, &mut c2);
        counter_set(&mut self.counters, parent, c2, Ghost(n + 1int));
        let ghost sv = steps_v(self.steps@);
        self.steps.push(ImportStep::InsertEntry { parent, position, root: ri, folder: j, entry: k });
        assert(steps_v(self.steps@) =~= sv.push(
            StepV::InsertEntry { parent, position, root: ri, folder: j, entry: k },
        ));
        if e.is_bookmark {
            self.stats.bookmarks_imported = self.stats.bookmarks_imported + 1;
        } else {
            self.stats.separators_imported = self.stats.separators_imported + 1;
        }
        assert(self.state() =~= entry_step(st, ri, parent, texts(pm.keys@), fs@, j as int, k as int));
    }

    /// Entries of folder `j` of `fs`, of the root named `root`.
    fn add_entries(&mut self, ri: usize, root: &String, rid: i64, fs: &Vec<ImportFolder>, j: usize)
        requires
            old(self).wf(),
            j < fs@.len(),
            old(self).steps@.len() + fs@[j as int].entries@.len() <= PLAN_LIMIT,
        ensures
            final(self).wf(),
            final(self).state() == entries_pass(
                old(self).state(),
                ri,
                root@,
                rid,
                fs@,
                j as int,
                fs@[j as int].entries@.len() as int,
            ),
            final(self).steps@.len() == old(self).steps@.len() + fs@[j as int].entries@.len(),
    {
        let ghost st = self.state();
        let ghost base = self.steps@.len();
        let path = chars_of(fs[j].path.as_str());
        let parent = if path.len() == 0 {
            ParentRef::Root(rid)
        } else {
            let key = full_key_exec(root.as_str(), &path);
            match ids_get(&self.ids, &key) {
                Some(q) => q,
                None => ParentRef::Root(rid),
            }
        };
        assert(parent == entries_parent(st, root@, rid, fs@[j as int].path@));
        let pm = position_map_for(fs, &path);
        let n = fs[j].entries.len();
        let mut k: usize = 0;
        while k < n
            invariant
                self.wf(),
                j < fs@.len(),
                n == fs@[j as int].entries@.len(),
                k <= n,
                base + n <= PLAN_LIMIT,
                self.steps@.len() == base + k,
                parent == entries_parent(st, root@, rid, fs@[j as int].path@),
                texts(pm.keys@) == keys_for(fs@, fs@[j as int].path@),
                self.state() == entries_pass(st, ri, root@, rid, fs@, j as int, k as int),
            decreases n - k,
        {
            self.add_entry(ri, fs, j, k, parent, &pm);
            k = k + 1;
        }
    }

    /// The plan for root `ri`, the tree `r`.
    fn add_root(&mut self, ri: usize, r: &RootTree)
        requires
            old(self).wf(),
            old(self).steps@.len() + items(r.folders@) <= PLAN_LIMIT,
        ensures
            final(self).wf(),
            final(self).state() == root_plan(old(self).state(), ri, *r),
            final(self).steps@.len() <= old(self).steps@.len() + items(r.folders@),
    {
        let ghost st = self.state();
        match dir_name_to_root(r.name.as_str()) {
            None => {},
            Some(rid) => {
                self.counters = Vec::new();
                assert(counters_view(self.counters@) =~= Seq::<(ParentRef, int)>::empty());
                let ghost st0 = self.state();
                assert(st0 =~= PlanState { counters: Map::empty(), ..st });
                let ghost base = self.steps@.len();
                let fs = &r.folders;
                let mut j: usize = 0;
                while j < fs.len()
                    invariant
                        self.wf(),
                        j <= fs@.len(),
                        base + items(fs@) <= PLAN_LIMIT,
                        self.steps@.len() <= base + j,
                        self.state() == first_pass(st0, r.name@, rid, fs@, j as int),
                    decreases fs@.len() - j,
                {
                    self.add_folder(&r.name, rid, fs, j);
                    j = j + 1;
                }
                let ghost st1 = self.state();
                let mut j: usize = 0;
                while j < fs.len()
                    invariant
                        self.wf(),
                        j <= fs@.len(),
                        base + items(fs@) <= PLAN_LIMIT,
                        self.steps@.len() <= base + fs@.len() + entry_total(fs@.take(j as int)),
                        self.state() == second_pass(st1, ri, r.name@, rid, fs@, j as int),
                    decreases fs@.len() - j,
                {
                    proof {
                        lemma_entry_total_prefix(fs@, j as int);
                        lemma_entry_total_prefix(fs@, j + 1);
                    }
                    self.add_entries(ri, &r.name, rid, fs, j);
                    j = j + 1;
                }
                proof {
                    lemma_entry_total_prefix(fs@, fs@.len() as int);
                }
            },
        }
    }
}

/// Plans an import of the file tree `roots`: the folders, bookmarks and
/// separators to insert, in order, each with its parent and position, and
/// how many of each.  Roots whose directory names no root folder are left
/// out.
pub fn import_bookmarks(roots: &Vec<RootTree>) -> (r: (Vec<ImportStep>, ImportStats))
    requires
        all_items(roots@) <= PLAN_LIMIT,
    ensures
        steps_v(r.0@) == import_plan(roots@, roots@.len() as int).steps,
        r.1.folders_created == import_plan(roots@, roots@.len() as int).folders,
        r.1.bookmarks_imported == import_plan(roots@, roots@.len() as int).bookmarks,
        r.1.separators_imported == import_plan(roots@, roots@.len() as int).separators,
{
    let mut pl = Planner {
        steps: Vec::new(),
        ids: Vec::new(),
        counters: Vec::new(),
        stats: ImportStats { folders_created: 0, bookmarks_imported: 0, separators_imported: 0 },
    };
    assert(pl.state() =~= import_plan(roots@, 0));
    let mut i: usize = 0;
    while i < roots.len()
        invariant
            pl.wf(),
            i <= roots@.len(),
            all_items(roots@) <= PLAN_LIMIT,
            pl.steps@.len() <= all_items(roots@.take(i as int)),
            pl.state() == import_plan(roots@, i as int),
        decreases roots@.len() - i,
    {
        proof {
            lemma_all_items_prefix(roots@, i as int);
            lemma_all_items_prefix(roots@, i + 1);
        }
        pl.add_root(i, &roots[i]);
        i = i + 1;
    }
    (pl.steps, pl.stats)
}

/// How many of the folders `fs` are made: all but the root directory.
pub open spec fn made_folders(fs: Seq<ImportFolder>) -> nat
    decreases fs.len(),
{
    if fs.len() == 0 {
        0
    } else {
        made_folders(fs.drop_last()) + if fs.last().path@.len() > 0 {
            1nat
        } else {
            0nat
        }
    }
}

/// How many of the entries `es` are bookmarks (`bookmark`), or separators.
pub open spec fn kind_count(es: Seq<ImportEntry>, bookmark: bool) -> nat
    decreases es.len(),
{
    if es.len() == 0 {
        0
    } else {
        kind_count(es.drop_last(), bookmark) + if es.last().is_bookmark == bookmark {
            1nat
        } else {
            0nat
        }
    }
}

/// How many entries of the folders `fs` are bookmarks (`bookmark`), or
/// separators.
pub open spec fn entries_of_kind(fs: Seq<ImportFolder>, bookmark: bool) -> nat
    decreases fs.len(),
{
    if fs.len() == 0 {
        0
    } else {
        entries_of_kind(fs.drop_last(), bookmark) + kind_count(fs.last().entries@, bookmark)
    }
}

/// The folders made, bookmarks and separators in the roots that name a root
/// folder.
pub open spec fn tree_counts(roots: Seq<RootTree>) -> (nat, nat, nat)
    decreases roots.len(),
{
    if roots.len() == 0 {
        (0, 0, 0)
    } else {
        let c = tree_counts(roots.drop_last());
        let fs = roots.last().folders@;
        match root_of_dir(roots.last().name@) {
            None => c,
            Some(_) => (c.0 + made_folders(fs), c.1 + entries_of_kind(fs, true), c.2 + entries_of_kind(fs, false)),
        }
    }
}

proof fn lemma_first_pass_counts(st: PlanState, root: Seq<char>, rid: i64, fs: Seq<ImportFolder>, n: int)
    requires
        0 <= n <= fs.len(),
    ensures
        first_pass(st, root, rid, fs, n).folders == st.folders + made_folders(fs.take(n)),
        first_pass(st, root, rid, fs, n).bookmarks == st.bookmarks,
        first_pass(st, root, rid, fs, n).separators == st.separators,
        first_pass(st, root, rid, fs, n).steps.len() == st.steps.len() + made_folders(fs.take(n)),
    decreases n,
{
    if n > 0 {
        lemma_first_pass_counts(st, root, rid, fs, n - 1);
        assert(fs.take(n).drop_last() =~= fs.take(n - 1));
        assert(fs.take(n).last() == fs[n - 1]);
    }
}

proof fn lemma_entries_pass_counts(
    st: PlanState,
    ri: usize,
    root: Seq<char>,
    rid: i64,
    fs: Seq<ImportFolder>,
    j: int,
    n: int,
)
    requires
        0 <= j < fs.len(),
        0 <= n <= fs[j].entries@.len(),
    ensures
        entries_pass(st, ri, root, rid, fs, j, n).folders == st.folders,
        entries_pass(st, ri, root, rid, fs, j, n).bookmarks == st.bookmarks + kind_count(fs[j].entries@.take(n), true),
        entries_pass(st, ri, root, rid, fs, j, n).separators == st.separators + kind_count(fs[j].entries@.take(n), false),
        entries_pass(st, ri, root, rid, fs, j, n).steps.len() == st.steps.len() + n,
    decreases n,
{
    if n > 0 {
        lemma_entries_pass_counts(st, ri, root, rid, fs, j, n - 1);
        let es = fs[j].entries@;
        assert(es.take(n).drop_last() =~= es.take(n - 1));
        assert(es.take(n).last() == es[n - 1]);
    }
}

proof fn lemma_kind_counts_add(es: Seq<ImportEntry>)
    ensures
        kind_count(es, true) + kind_count(es, false) == es.len(),
    decreases es.len(),
{
    if es.len() > 0 {
        lemma_kind_counts_add(es.drop_last());
    }
}

proof fn lemma_second_pass_counts(st: PlanState, ri: usize, root: Seq<char>, rid: i64, fs: Seq<ImportFolder>, n: int)
    requires
        0 <= n <= fs.len(),
    ensures
        second_pass(st, ri, root, rid, fs, n).folders == st.folders,
        second_pass(st, ri, root, rid, fs, n).bookmarks == st.bookmarks + entries_of_kind(fs.take(n), true),
        second_pass(st, ri, root, rid, fs, n).separators == st.separators + entries_of_kind(fs.take(n), false),
        second_pass(st, ri, root, rid, fs, n).steps.len() == st.steps.len() + entries_of_kind(fs.take(n), true)
            + entries_of_kind(fs.take(n), false),
    decreases n,
{
    if n > 0 {
        lemma_second_pass_counts(st, ri, root, rid, fs, n - 1);
        let prev = second_pass(st, ri, root, rid, fs, n - 1);
        let es = fs[n - 1].entries@;
        lemma_entries_pass_counts(prev, ri, root, rid, fs, n - 1, es.len() as int);
        assert(es.take(es.len() as int) =~= es);
        lemma_kind_counts_add(es);
        assert(fs.take(n).drop_last() =~= fs.take(n - 1));
        assert(fs.take(n).last() == fs[n - 1]);
    }
}

/// What an import plans, counted directly: it makes every folder of each root
/// directory that names a root folder (all but the root directory itself),
/// inserts every bookmark and separator there, and plans one step for each.
pub proof fn lemma_import_counts(roots: Seq<RootTree>, n: int)
    requires
        0 <= n <= roots.len(),
    ensures
        (import_plan(roots, n).folders, import_plan(roots, n).bookmarks, import_plan(roots, n).separators)
            == tree_counts(roots.take(n)),
        import_plan(roots, n).steps.len() == import_plan(roots, n).folders + import_plan(roots, n).bookmarks
            + import_plan(roots, n).separators,
    decreases n,
{
    if n > 0 {
        lemma_import_counts(roots, n - 1);
        let prev = import_plan(roots, n - 1);
        let r = roots[n - 1];
        assert(roots.take(n).drop_last() =~= roots.take(n - 1));
        assert(roots.take(n).last() == r);
        if let Some(rid) = root_of_dir(r.name@) {
            let fs = r.folders@;
            let st0 = PlanState { counters: Map::empty(), ..prev };
            lemma_first_pass_counts(st0, r.name@, rid, fs, fs.len() as int);
            let st1 = first_pass(st0, r.name@, rid, fs, fs.len() as int);
            lemma_second_pass_counts(st1, (n - 1) as usize, r.name@, rid, fs, fs.len() as int);
            assert(fs.take(fs.len() as int) =~= fs);
        }
    }
}

} // verus!
