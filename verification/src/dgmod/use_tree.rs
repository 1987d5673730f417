//! `use` trees and the import paths they hold.
use vstd::prelude::*;
use crate::ffbm::db::texts;

verus! {

/// A `use` tree, as the parser finds it.
#[derive(Debug)]
pub enum UseTree {
    /// `ident::tree`
    Path { ident: String, tree: Box<UseTree> },
    /// `ident`
    Name { ident: String },
    /// `ident as other`
    Rename { ident: String },
    /// `*`
    Glob,
    /// `{a, b, ...}`
    Group { items: Vec<UseTree> },
}

/// The import paths of `t` below `prefix`, each as its segments: a name or a
/// renamed name adds itself to the prefix, a glob imports the prefix itself,
/// and a group imports what each of its items does, in order.
pub open spec fn paths_in(t: UseTree, prefix: Seq<Seq<char>>) -> Seq<Seq<Seq<char>>>
    decreases t,
{
    match t {
        UseTree::Path { ident, tree } => paths_in(*tree, prefix.push(ident@)),
        UseTree::Name { ident } => seq![prefix.push(ident@)],
        UseTree::Rename { ident } => seq![prefix.push(ident@)],
        UseTree::Glob => seq![prefix],
        UseTree::Group { items } => paths_in_list(items@, prefix),
    }
}

/// The import paths of each tree of `items` below `prefix`, in order.
pub open spec fn paths_in_list(items: Seq<UseTree>, prefix: Seq<Seq<char>>) -> Seq<Seq<Seq<char>>>
    decreases items,
{
    if items.len() == 0 {
        Seq::empty()
    } else {
        paths_in_list(items.drop_last(), prefix) + paths_in(items.last(), prefix)
    }
}

/// The segments of each path.
pub open spec fn path_texts(v: Seq<Vec<String>>) -> Seq<Seq<Seq<char>>> {
    v.map_values(|p: Vec<String>| texts(p@))
}

fn copy_segments(v: &Vec<String>) -> (r: Vec<String>)
    ensures
        texts(r@) == texts(v@),
{
    let mut r: Vec<String> = Vec::new();
    let mut i: usize = 0;
    while i < v.len()
        invariant
            i <= v@.len(),
            texts(r@) == texts(v@).take(i as int),
        decreases v@.len() - i,
    {
        let s = v[i].clone();
        let ghost before = texts(r@);
        r.push(s);
        i = i + 1;
        assert(texts(r@) =~= before.push(s@));
        assert(texts(r@) =~= texts(v@).take(i as int));
    }
    assert(texts(v@).take(v@.len() as int) =~= texts(v@));
    r
}

/// Walk a use tree and collect all its import paths as vectors of segments;
/// `current_path` is the prefix, and is left as it was.
pub fn walk_use_tree(tree: &UseTree, current_path: &mut Vec<String>, results: &mut Vec<Vec<String>>)
    ensures
        texts(final(current_path)@) == texts(old(current_path)@),
        path_texts(final(results)@) == path_texts(old(results)@) + paths_in(
            *tree,
            texts(old(current_path)@),
        ),
    decreases tree,
{
    let ghost prefix = texts(current_path@);
    let ghost before = path_texts(results@);
    match tree {
        UseTree::Path { ident, tree: sub } => {
            current_path.push(ident.clone());
            assert(texts(current_path@) =~= prefix.push(ident@));
            walk_use_tree(sub, current_path, results);
            let ghost mid = current_path@;
            assert(texts(mid.drop_last()) =~= texts(mid).drop_last());
            current_path.pop();
            assert(texts(current_path@) =~= prefix);
        },
        UseTree::Name { ident } => {
            current_path.push(ident.clone());
            assert(texts(current_path@) =~= prefix.push(ident@));
            let p = copy_segments(current_path);
            results.push(p);
            assert(path_texts(results@) =~= before.push(prefix.push(ident@)));
            current_path.pop();
            assert(texts(current_path@) =~= prefix);
        },
        UseTree::Rename { ident } => {
            current_path.push(ident.clone());
            assert(texts(current_path@) =~= prefix.push(ident@));
            let p = copy_segments(current_path);
            results.push(p);
            assert(path_texts(results@) =~= before.push(prefix.push(ident@)));
            current_path.pop();
            assert(texts(current_path@) =~= prefix);
        },
        UseTree::Glob => {
            let p = copy_segments(current_path);
            results.push(p);
            assert(path_texts(results@) =~= before.push(prefix));
        },
        UseTree::Group { items } => {
            walk_use_list(items, current_path, results);
        },
    }
}

fn walk_use_list(items: &Vec<UseTree>, current_path: &mut Vec<String>, results: &mut Vec<Vec<String>>)
    ensures
        texts(final(current_path)@) == texts(old(current_path)@),
        path_texts(final(results)@) == path_texts(old(results)@) + paths_in_list(
            items@,
            texts(old(current_path)@),
        ),
    decreases items@,
{
    let ghost prefix = texts(current_path@);
    let ghost before = path_texts(results@);
    let mut i: usize = 0;
    assert(items@.take(0) =~= Seq::<UseTree>::empty());
    assert(before + paths_in_list(items@.take(0), prefix) =~= before);
    while i < items.len()
        invariant
            i <= items@.len(),
            texts(current_path@) == prefix,
            path_texts(results@) == before + paths_in_list(items@.take(i as int), prefix),
        decreases items@.len() - i,
    {
        proof {
            assert(decreases_to!(items@ => items@[i as int]));
        }
        walk_use_tree(&items[i], current_path, results);
        proof {
            let t = items@.take(i + 1);
            assert(t.drop_last() =~= items@.take(i as int));
            assert(t.last() == items@[i as int]);
        }
        i = i + 1;
    }
    assert(items@.take(items@.len() as int) =~= items@);
}

/// Extract all import paths from a use statement's tree.
pub fn extract_use_paths(tree: &UseTree) -> (r: Vec<Vec<String>>)
    ensures
        path_texts(r@) == paths_in(*tree, Seq::empty()),
{
    let mut results: Vec<Vec<String>> = Vec::new();
    let mut path: Vec<String> = Vec::new();
    assert(texts(path@) =~= Seq::<Seq<char>>::empty());
    assert(path_texts(results@) =~= Seq::<Seq<Seq<char>>>::empty());
    walk_use_tree(tree, &mut path, &mut results);
    assert(path_texts(results@) =~= paths_in(*tree, Seq::empty()));
    results
}

} // verus!
