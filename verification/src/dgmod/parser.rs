//! Reading a Rust source file into its outline: the `use` trees and the `mod`
//! declarations of each module, inline modules with their own items.  syn
//! parses the text; the outline is read from syn's tree node by node, each
//! node found by its position (item indices through inline modules, then
//! child indices through a `use` tree).
use vstd::prelude::*;
use syn::Item::{Mod as ModItem, Use as UseItem};
use syn::UseTree::{Glob as UGlob, Group as UGroup, Name as UName, Path as UPath, Rename as URename};
use syn::{parse_file as parse_file_of, Expr, ExprLit, Lit, Meta};
use crate::dgmod::use_tree::UseTree;
use crate::text::{chars_of, str_is};

verus! {

/// The message of the error `syn::parse_file` gives for `text`, if it gives one.
pub uninterp spec fn syn_error(text: Seq<char>) -> Option<Seq<char>>;

/// The number of items in the file syn parses from `text`.
pub uninterp spec fn syn_file_len(text: Seq<char>) -> Option<usize>;

/// The item syn parses from `text` at `at.last()` among the items of the
/// inline module that the rest of `at` leads to (through items and inline
/// modules from the file's items): a `use` item `(0, "", 0, None)`, a `mod`
/// item `(1, name, attribute count, Some(item count) if inline)`, any other
/// item `(3, "", 0, None)`.  `None` where `text` does not parse or `at` leads
/// nowhere.
pub uninterp spec fn syn_item(text: Seq<char>, at: Seq<usize>) -> Option<(u8, Seq<char>, usize, Option<usize>)>;

/// The path of attribute `k` of the `mod` item at `at`, where that path is
/// one identifier.
pub uninterp spec fn syn_attr_path(text: Seq<char>, at: Seq<usize>, k: usize) -> Option<Seq<char>>;

/// The value of attribute `k` of the `mod` item at `at`, where it is
/// `= "string literal"`.
pub uninterp spec fn syn_attr_value(text: Seq<char>, at: Seq<usize>, k: usize) -> Option<Seq<char>>;

/// The kind of the node at `tat` (child indices; a path has its one child
/// at any index) of the tree of the `use` item at `at`: a path 0, a name 1, a
/// rename 2, a glob 3, a group 4.
pub uninterp spec fn syn_use(text: Seq<char>, at: Seq<usize>, tat: Seq<usize>) -> Option<u8>;

/// The number of items of the group node at `tat` of the `use` item at `at`.
pub uninterp spec fn syn_use_group_len(text: Seq<char>, at: Seq<usize>, tat: Seq<usize>) -> Option<usize>;

/// The identifier of the path node at `tat` of the `use` item at `at`.
pub uninterp spec fn syn_use_path_ident(text: Seq<char>, at: Seq<usize>, tat: Seq<usize>) -> Option<Seq<char>>;

/// The identifier of the name or rename node at `tat` of the `use` item at
/// `at` (for a rename, the name it renames).
pub uninterp spec fn syn_use_leaf_ident(text: Seq<char>, at: Seq<usize>, tat: Seq<usize>) -> Option<Seq<char>>;

pub open spec fn opt_view(o: Option<String>) -> Option<Seq<char>> {
    match o {
        Some(s) => Some(s@),
        None => None,
    }
}

/// Calls `syn::parse_file` on `text` and gives its error's message.
/// Claimed: that message is `syn_error` of the text (syn parses from its input
/// alone).
#[verifier::external_body]
fn syn_parse_error(text: &str) -> (r: Option<String>)
    ensures
        opt_view(r) == syn_error(text@),
{
    syn::parse_file(text).err().map(|e| e.to_string())
}

/// Parses `text` with `syn::parse_file` and counts the file's items.
/// Claimed: the count is `syn_file_len` of the text.
#[verifier::external_body]
fn syn_items_len(text: &str) -> (r: Option<usize>)
    ensures
        r == syn_file_len(text@),
{
    syn::parse_file(text).ok().map(|f| f.items.len())
}

/// Parses `text` with `syn::parse_file` and describes the item at `at` as
/// `syn_item` says.  Claimed: the result is `syn_item` of the arguments.
#[verifier::external_body]
fn syn_item_at(text: &str, at: &Vec<usize>) -> (r: Option<(u8, String, usize, Option<usize>)>)
    ensures
        r matches Some(x) ==> syn_item(text@, at@) == Some((x.0, x.1@, x.2, x.3)),
        r is None ==> syn_item(text@, at@) is None,
{
    let file = parse_file_of(text).ok()?;
    let (last, outer) = at.split_last()?;
    let items = outer.iter().try_fold(&file.items, |v, &i| match v.get(i)? {
        ModItem(m) => Some(&m.content.as_ref()?.1), _ => None })?;
    Some(match items.get(*last)? {
        UseItem(_) => (0, String::new(), 0, None),
        ModItem(m) => (1, m.ident.to_string(), m.attrs.len(), m.content.as_ref().map(|c| c.1.len())),
        _ => (3, String::new(), 0, None),
    })
}

/// Parses `text` with `syn::parse_file` and gives the path of attribute `k`
/// of the `mod` item at `at` as `syn_attr_path` says (`Path::get_ident`).
/// Claimed: the result is `syn_attr_path` of the arguments.
#[verifier::external_body]
fn syn_mod_attr_path(text: &str, at: &Vec<usize>, k: usize) -> (r: Option<String>)
    ensures
        opt_view(r) == syn_attr_path(text@, at@, k),
{
    let file = parse_file_of(text).ok()?;
    let (last, outer) = at.split_last()?;
    let items = outer.iter().try_fold(&file.items, |v, &i| match v.get(i)? {
        ModItem(m) => Some(&m.content.as_ref()?.1), _ => None })?;
    let ModItem(m) = items.get(*last)? else { return None };
    m.attrs.get(k)?.path().get_ident().map(|i| i.to_string())
}

/// Parses `text` with `syn::parse_file` and gives the string literal that
/// attribute `k` of the `mod` item at `at` is set to, as `syn_attr_value`
/// says (`LitStr::value`).  Claimed: the result is `syn_attr_value` of the
/// arguments.
#[verifier::external_body]
fn syn_mod_attr_value(text: &str, at: &Vec<usize>, k: usize) -> (r: Option<String>)
    ensures
        opt_view(r) == syn_attr_value(text@, at@, k),
{
    let file = parse_file_of(text).ok()?;
    let (last, outer) = at.split_last()?;
    let items = outer.iter().try_fold(&file.items, |v, &i| match v.get(i)? {
        ModItem(m) => Some(&m.content.as_ref()?.1), _ => None })?;
    let ModItem(m) = items.get(*last)? else { return None };
    let Meta::NameValue(nv) = &m.attrs.get(k)?.meta else { return None };
    let Expr::Lit(ExprLit { lit: Lit::Str(s), .. }) = &nv.value else { return None };
    Some(s.value())
}

/// Parses `text` with `syn::parse_file` and gives the kind of the node at
/// `tat` of the `use` item at `at` as `syn_use` says.  Claimed: the result is
/// `syn_use` of the arguments.
#[verifier::external_body]
fn syn_use_kind(text: &str, at: &Vec<usize>, tat: &Vec<usize>) -> (r: Option<u8>)
    ensures
        r == syn_use(text@, at@, tat@),
{
    let file = parse_file_of(text).ok()?;
    let (last, outer) = at.split_last()?;
    let items = outer.iter().try_fold(&file.items, |v, &i| match v.get(i)? {
        ModItem(m) => Some(&m.content.as_ref()?.1), _ => None })?;
    let UseItem(u) = items.get(*last)? else { return None };
    Some(match tat.iter().try_fold(&u.tree, |t, &i| match t {
        UPath(p) => Some(&*p.tree), UGroup(g) => g.items.get(i), _ => None })? {
        UPath(_) => 0, UName(_) => 1, URename(_) => 2, UGlob(_) => 3, _ => 4,
    })
}

/// Parses `text` with `syn::parse_file` and counts the items of the group
/// node at `tat` of the `use` item at `at`.  Claimed: the result is
/// `syn_use_group_len` of the arguments.
#[verifier::external_body]
fn syn_use_len(text: &str, at: &Vec<usize>, tat: &Vec<usize>) -> (r: Option<usize>)
    ensures
        r == syn_use_group_len(text@, at@, tat@),
{
    let file = parse_file_of(text).ok()?;
    let (last, outer) = at.split_last()?;
    let items = outer.iter().try_fold(&file.items, |v, &i| match v.get(i)? {
        ModItem(m) => Some(&m.content.as_ref()?.1), _ => None })?;
    let UseItem(u) = items.get(*last)? else { return None };
    match tat.iter().try_fold(&u.tree, |t, &i| match t {
        UPath(p) => Some(&*p.tree), UGroup(g) => g.items.get(i), _ => None })? {
        UGroup(g) => Some(g.items.len()), _ => None,
    }
}

/// Parses `text` with `syn::parse_file` and gives the identifier of the
/// path node at `tat` of the `use` item at `at`.  Claimed: the result is
/// `syn_use_path_ident` of the arguments.
#[verifier::external_body]
fn syn_use_path_name(text: &str, at: &Vec<usize>, tat: &Vec<usize>) -> (r: Option<String>)
    ensures
        opt_view(r) == syn_use_path_ident(text@, at@, tat@),
{
    let file = parse_file_of(text).ok()?;
    let (last, outer) = at.split_last()?;
    let items = outer.iter().try_fold(&file.items, |v, &i| match v.get(i)? {
        ModItem(m) => Some(&m.content.as_ref()?.1), _ => None })?;
    let UseItem(u) = items.get(*last)? else { return None };
    match tat.iter().try_fold(&u.tree, |t, &i| match t {
        UPath(p) => Some(&*p.tree), UGroup(g) => g.items.get(i), _ => None })? {
        UPath(p) => Some(p.ident.to_string()), _ => None,
    }
}

/// Parses `text` with `syn::parse_file` and gives the identifier of the name
/// or rename node at `tat` of the `use` item at `at` (`UseRename::ident`).
/// Claimed: the result is `syn_use_leaf_ident` of the arguments.
#[verifier::external_body]
fn syn_use_leaf_name(text: &str, at: &Vec<usize>, tat: &Vec<usize>) -> (r: Option<String>)
    ensures
        opt_view(r) == syn_use_leaf_ident(text@, at@, tat@),
{
    let file = parse_file_of(text).ok()?;
    let (last, outer) = at.split_last()?;
    let items = outer.iter().try_fold(&file.items, |v, &i| match v.get(i)? {
        ModItem(m) => Some(&m.content.as_ref()?.1), _ => None })?;
    let UseItem(u) = items.get(*last)? else { return None };
    Some(match tat.iter().try_fold(&u.tree, |t, &i| match t {
        UPath(p) => Some(&*p.tree), UGroup(g) => g.items.get(i), _ => None })? {
        UName(n) => &n.ident, URename(r) => &r.ident, _ => return None,
    }.to_string())
}

/// `t` is the `use` tree syn found at `tat` in the `use` item at `at`, no
/// deeper than `fuel`.
pub open spec fn use_tree_is(text: Seq<char>, at: Seq<usize>, tat: Seq<usize>, fuel: nat, t: UseTree) -> bool
    decreases fuel,
{
    if fuel == 0 {
        false
    } else {
        match syn_use(text, at, tat) {
            None => false,
            Some(k) => match t {
                UseTree::Path { ident, tree } => k == 0 && syn_use_path_ident(text, at, tat) == Some(ident@)
                    && use_tree_is(text, at, tat.push(0), (fuel - 1) as nat, *tree),
                UseTree::Name { ident } => k == 1 && syn_use_leaf_ident(text, at, tat) == Some(ident@),
                UseTree::Rename { ident } => k == 2 && syn_use_leaf_ident(text, at, tat) == Some(ident@),
                UseTree::Glob => k == 3,
                UseTree::Group { items } => k == 4 && syn_use_group_len(text, at, tat) == Some(
                    items@.len() as usize,
                ) && forall|i: int|
                    0 <= i < items@.len() ==> use_tree_is(
                        text,
                        at,
                        tat.push(i as usize),
                        (fuel - 1) as nat,
                        #[trigger] items@[i],
                    ),
            },
        }
    }
}

/// Read the `use` tree at `tat` of the `use` item at `at`, no deeper than
/// `fuel`; `None` where syn's tree has no such node or is deeper.
pub fn read_use_tree(text: &str, at: &Vec<usize>, tat: Vec<usize>, fuel: usize) -> (r: Option<UseTree>)
    ensures
        r matches Some(t) ==> use_tree_is(text@, at@, tat@, fuel as nat, t),
        r is None ==> forall|t: UseTree| !use_tree_is(text@, at@, tat@, fuel as nat, t),
    decreases fuel,
{
    if fuel == 0 {
        return None;
    }
    let k = match syn_use_kind(text, at, &tat) {
        Some(k) => k,
        None => {
            proof {
                assert forall|t: UseTree| !use_tree_is(text@, at@, tat@, fuel as nat, t) by {}
            }
            return None;
        },
    };
    if k == 0 {
        let ident = match syn_use_path_name(text, at, &tat) {
            Some(i) => i,
            None => {
                proof {
                    assert forall|t: UseTree| !use_tree_is(text@, at@, tat@, fuel as nat, t) by {}
                }
                return None;
            },
        };
        let mut child = tat.clone();
        child.push(0);
        assert(child@ == tat@.push(0));
        match read_use_tree(text, at, child, fuel - 1) {
            Some(t) => Some(UseTree::Path { ident, tree: Box::new(t) }),
            None => {
                proof {
                    assert forall|t: UseTree| !use_tree_is(text@, at@, tat@, fuel as nat, t) by {
                        if let UseTree::Path { ident: _, tree } = t {
                            assert(!use_tree_is(text@, at@, tat@.push(0), (fuel - 1) as nat, *tree));
                        }
                    }
                }
                None
            },
        }
    } else if k == 1 || k == 2 {
        match syn_use_leaf_name(text, at, &tat) {
            Some(ident) => if k == 1 {
                Some(UseTree::Name { ident })
            } else {
                Some(UseTree::Rename { ident })
            },
            None => {
                proof {
                    assert forall|t: UseTree| !use_tree_is(text@, at@, tat@, fuel as nat, t) by {}
                }
                None
            },
        }
    } else if k == 3 {
        Some(UseTree::Glob)
    } else if k == 4 {
        let n = match syn_use_len(text, at, &tat) {
            Some(n) => n,
            None => {
                proof {
                    assert forall|t: UseTree| !use_tree_is(text@, at@, tat@, fuel as nat, t) by {}
                }
                return None;
            },
        };
        let mut items: Vec<UseTree> = Vec::new();
        let mut i: usize = 0;
        while i < n
            invariant
                i <= n,
                fuel > 0,
                syn_use(text@, at@, tat@) == Some(4u8),
                syn_use_group_len(text@, at@, tat@) == Some(n),
                items@.len() == i,
                forall|j: int| 0 <= j < i ==> use_tree_is(text@, at@, tat@.push(j as usize), (fuel - 1) as nat, #[trigger] items@[j]),
            decreases n - i,
        {
            let mut child = tat.clone();
            child.push(i);
            assert(child@ == tat@.push(i));
            match read_use_tree(text, at, child, fuel - 1) {
                Some(t) => items.push(t),
                None => {
                    proof {
                        assert forall|t: UseTree| !use_tree_is(text@, at@, tat@, fuel as nat, t) by {
                            if let UseTree::Group { items: its } = t {
                                if use_tree_is(text@, at@, tat@, fuel as nat, t) {
                                    assert(use_tree_is(text@, at@, tat@.push(i), (fuel - 1) as nat, its@[i as int]));
                                }
                            }
                        }
                    }
                    return None;
                },
            }
            i = i + 1;
        }
        Some(UseTree::Group { items })
    } else {
        proof {
            assert forall|t: UseTree| !use_tree_is(text@, at@, tat@, fuel as nat, t) by {}
        }
        None
    }
}

/// The value of the first `#[path = "..."]` attribute among attributes
/// `k..n` of the `mod` item at `at`.
pub open spec fn path_attr_from(text: Seq<char>, at: Seq<usize>, k: nat, n: nat) -> Option<Seq<char>>
    decreases n - k,
{
    if k >= n {
        None
    } else {
        match (syn_attr_path(text, at, k as usize), syn_attr_value(text, at, k as usize)) {
            (Some(p), Some(v)) => if p == "path"@ {
                Some(v)
            } else {
                path_attr_from(text, at, k + 1, n)
            },
            _ => path_attr_from(text, at, k + 1, n),
        }
    }
}

/// The `#[path = "..."]` attribute of the `mod` item at `at`, which has
/// `count` attributes: the value of the first attribute whose path is `path`
/// and whose value is a string literal.
pub fn get_path_attribute(text: &str, at: &Vec<usize>, count: usize) -> (r: Option<String>)
    ensures
        opt_view(r) == path_attr_from(text@, at@, 0, count as nat),
{
    let mut k: usize = 0;
    while k < count
        invariant
            k <= count,
            path_attr_from(text@, at@, 0, count as nat) == path_attr_from(text@, at@, k as nat, count as nat),
        decreases count - k,
    {
        proof {
            reveal_strlit("path");
        }
        if let Some(p) = syn_mod_attr_path(text, at, k) {
            if str_is(p.as_str(), "path") {
                if let Some(v) = syn_mod_attr_value(text, at, k) {
                    return Some(v);
                }
            }
        }
        k = k + 1;
    }
    None
}

/// An item of a module, as far as the module graph needs it.
#[derive(Debug)]
pub enum OutlineItem {
    /// A `use` item and its tree.
    Use(UseTree),
    /// A `mod` item: its name, its `#[path]` attribute, and, for an inline
    /// module, its items.
    Mod { name: String, path: Option<String>, content: Option<Vec<OutlineItem>> },
    /// Any other item.
    Other,
}

/// `it` is the item syn found at `at`, no deeper than `fuel`.
pub open spec fn item_is(text: Seq<char>, at: Seq<usize>, fuel: nat, it: OutlineItem) -> bool
    decreases fuel, 0nat,
{
    match syn_item(text, at) {
        None => false,
        Some((k, id, na, c)) => match it {
            OutlineItem::Use(t) => k == 0 && use_tree_is(text, at, seq![], fuel, t),
            OutlineItem::Mod { name, path, content } => k == 1 && name@ == id && opt_view(path)
                == path_attr_from(text, at, 0, na as nat) && match c {
                None => content is None,
                Some(n) => fuel > 0 && match content {
                    Some(v) => items_are(text, at, (fuel - 1) as nat, n, v@),
                    None => false,
                },
            },
            OutlineItem::Other => k == 3,
        },
    }
}

/// `v` are the `n` items syn found in the module at `at`, no deeper than
/// `fuel`.
pub open spec fn items_are(text: Seq<char>, at: Seq<usize>, fuel: nat, n: usize, v: Seq<OutlineItem>) -> bool
    decreases fuel, 1nat,
{
    v.len() == n && forall|i: int| 0 <= i < n ==> item_is(text, at.push(i as usize), fuel, #[trigger] v[i])
}

fn read_item(text: &str, at: Vec<usize>, fuel: usize) -> (r: Option<OutlineItem>)
    ensures
        r matches Some(it) ==> item_is(text@, at@, fuel as nat, it),
        r is None ==> forall|it: OutlineItem| !item_is(text@, at@, fuel as nat, it),
    decreases fuel, 0nat,
{
    let (k, name, na, c) = match syn_item_at(text, &at) {
        Some(x) => x,
        None => {
            proof {
                assert forall|it: OutlineItem| !item_is(text@, at@, fuel as nat, it) by {}
            }
            return None;
        },
    };
    if k == 0 {
        let root: Vec<usize> = Vec::new();
        assert(root@ =~= seq![]);
        match read_use_tree(text, &at, root, fuel) {
            Some(t) => Some(OutlineItem::Use(t)),
            None => {
                proof {
                    assert forall|it: OutlineItem| !item_is(text@, at@, fuel as nat, it) by {}
                }
                None
            },
        }
    } else if k == 1 {
        let path = get_path_attribute(text, &at, na);
        match c {
            None => Some(OutlineItem::Mod { name, path, content: None }),
            Some(n) => {
                if fuel == 0 {
                    proof {
                        assert forall|it: OutlineItem| !item_is(text@, at@, fuel as nat, it) by {}
                    }
                    return None;
                }
                match read_items(text, &at, n, fuel - 1) {
                    Some(v) => Some(OutlineItem::Mod { name, path, content: Some(v) }),
                    None => {
                        proof {
                            assert forall|it: OutlineItem| !item_is(text@, at@, fuel as nat, it) by {
                                if let OutlineItem::Mod { name: _, path: _, content: Some(v) } = it {
                                    assert(!items_are(text@, at@, (fuel - 1) as nat, n, v@));
                                }
                            }
                        }
                        None
                    },
                }
            },
        }
    } else if k == 3 {
        Some(OutlineItem::Other)
    } else {
        proof {
            assert forall|it: OutlineItem| !item_is(text@, at@, fuel as nat, it) by {}
        }
        None
    }
}

fn read_items(text: &str, at: &Vec<usize>, n: usize, fuel: usize) -> (r: Option<Vec<OutlineItem>>)
    ensures
        r matches Some(v) ==> items_are(text@, at@, fuel as nat, n, v@),
        r is None ==> forall|v: Seq<OutlineItem>| !items_are(text@, at@, fuel as nat, n, v),
    decreases fuel, 1nat,
{
    let mut items: Vec<OutlineItem> = Vec::new();
    let mut i: usize = 0;
    while i < n
        invariant
            i <= n,
            items@.len() == i,
            forall|j: int| 0 <= j < i ==> item_is(text@, at@.push(j as usize), fuel as nat, #[trigger] items@[j]),
        decreases n - i,
    {
        let mut child = at.clone();
        child.push(i);
        assert(child@ == at@.push(i));
        match read_item(text, child, fuel) {
            Some(it) => items.push(it),
            None => {
                proof {
                    assert forall|v: Seq<OutlineItem>| !items_are(text@, at@, fuel as nat, n, v) by {
                        if items_are(text@, at@, fuel as nat, n, v) {
                            assert(item_is(text@, at@.push(i), fuel as nat, v[i as int]));
                        }
                    }
                }
                return None;
            },
        }
        i = i + 1;
    }
    Some(items)
}

/// The items of the file `text`, read no deeper than `fuel`.
pub open spec fn file_is(text: Seq<char>, fuel: nat, v: Seq<OutlineItem>) -> bool {
    syn_file_len(text) matches Some(n) && items_are(text, seq![], fuel, n, v)
}

/// Parse the Rust source `text` into its outline.  It fails with syn's message
/// where syn cannot parse the text, and otherwise where syn's tree cannot be
/// read as an outline; modules and `use` trees nest no deeper than the text is
/// long, which bounds the reading.
pub fn parse_file(text: &str) -> (r: Result<Vec<OutlineItem>, String>)
    ensures
        syn_error(text@) matches Some(e) ==> r matches Err(m) && m@ == e,
        syn_error(text@) is None ==> (r matches Ok(v) ==> file_is(text@, text@.len(), v@)),
        syn_error(text@) is None ==> (r is Err <==> forall|v: Seq<OutlineItem>| !file_is(text@, text@.len(), v)),
{
    if let Some(e) = syn_parse_error(text) {
        return Err(e);
    }
    let fuel = chars_of(text).len();
    let root: Vec<usize> = Vec::new();
    assert(root@ =~= seq![]);
    match syn_items_len(text) {
        Some(n) => {
            match read_items(text, &root, n, fuel) {
                Some(v) => {
                    assert(file_is(text@, text@.len(), v@));
                    Ok(v)
                },
                None => {
                    proof {
                        assert forall|v: Seq<OutlineItem>| !file_is(text@, text@.len(), v) by {
                            assert(!items_are(text@, root@, fuel as nat, n, v));
                        }
                    }
                    Err(String::from_str("the syntax tree could not be read"))
                },
            }
        },
        None => {
            proof {
                assert forall|v: Seq<OutlineItem>| !file_is(text@, text@.len(), v) by {}
            }
            Err(String::from_str("the syntax tree could not be read"))
        },
    }
}

} // verus!
