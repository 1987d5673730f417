//! The topology of local Git branches, and its rendering as a tree.
//!
//! Every node is a commit; branches pointing at a commit add metadata to its
//! node.  Running `git` and `gh` is the program's business; what is decided
//! from their output is here.
use vstd::prelude::*;
use crate::text::{
    append_chars, chars_of, chars_eq, join, join_chars, slice_range, split_on, str_is, string_of,
};
use crate::numbers::{is_digit, parse_int, parse_u32};
use crate::save_context::{find_from, occurs_at};
use crate::order::{char_views, lex_order, sort_strings};
use crate::ffbm::db::texts;

verus! {

/// A node in the topology tree.
#[derive(Debug)]
pub struct Node {
    /// Commit SHA (short, 7 characters).
    pub commit: String,
    /// Branches pointing to this commit (may be empty).
    pub branches: Vec<BranchInfo>,
    pub children: Vec<Node>,
}

/// Branch metadata attached to a node.
#[derive(Debug)]
pub struct BranchInfo {
    pub name: String,
    /// Commits from the parent node to this tip.
    pub ahead: usize,
    /// The number of the branch's open pull request, if it has one.
    pub pr: Option<u32>,
}

/// The topology of all local branches.
#[derive(Debug)]
pub struct Topology {
    /// The trunk branch's name.
    pub trunk: String,
    /// The root node (common ancestor of all branches).
    pub root: Node,
}

/// Decimal text of a number.
pub open spec fn decimal(n: nat) -> Seq<char>
    decreases n,
{
    if n < 10 {
        seq![(n + 48) as char]
    } else {
        decimal(n / 10).push(((n % 10) + 48) as char)
    }
}

pub fn decimal_chars(n: usize) -> (r: Vec<char>)
    ensures
        r@ == decimal(n as nat),
    decreases n,
{
    if n < 10 {
        let mut v = Vec::new();
        v.push(((n as u8) + 48) as char);
        v
    } else {
        let mut v = decimal_chars(n / 10);
        v.push((((n % 10) as u8) + 48) as char);
        v
    }
}

/// The decimal digits of `n`.
pub fn decimal_u64(n: u64) -> (r: Vec<char>)
    ensures
        r@ == decimal(n as nat),
    decreases n,
{
    if n < 10 {
        let mut v = Vec::new();
        v.push(((n as u8) + 48) as char);
        v
    } else {
        let mut v = decimal_u64(n / 10);
        v.push((((n % 10) as u8) + 48) as char);
        v
    }
}

/// The names of a node's branches.
pub open spec fn branch_names(bs: Seq<BranchInfo>) -> Seq<Seq<char>> {
    bs.map_values(|b: BranchInfo| b.name@)
}

/// ` (+n)` when `n` is positive, else nothing.
pub open spec fn ahead_suffix(n: usize) -> Seq<char> {
    if n > 0 {
        " (+"@ + decimal(n as nat) + ")"@
    } else {
        Seq::empty()
    }
}

/// How a node is shown: a bare commit in brackets; otherwise its branch names
/// and, once, the first branch's count of commits ahead.
pub open spec fn node_text(n: Node) -> Seq<char> {
    if n.branches@.len() == 0 {
        "["@ + n.commit@ + "]"@
    } else {
        join(branch_names(n.branches@), ", "@) + ahead_suffix(n.branches@[0].ahead)
    }
}

pub open spec fn connector(last: bool) -> Seq<char> {
    if last {
        "└─ "@
    } else {
        "├─ "@
    }
}

pub open spec fn child_prefix(last: bool) -> Seq<char> {
    if last {
        "   "@
    } else {
        "│  "@
    }
}

/// The lines for the nodes `cs` under `prefix`; `last` tells whether the final
/// node of `cs` is the last child of its parent.  Each node's line is followed
/// by the lines of its children, one level deeper.
pub open spec fn child_lines(cs: Seq<Node>, prefix: Seq<char>, last: bool) -> Seq<Seq<char>>
    decreases cs,
{
    if cs.len() == 0 {
        Seq::empty()
    } else {
        let n = cs.last();
        child_lines(cs.drop_last(), prefix, false) + seq![prefix + connector(last) + node_text(n)]
            + if n.children@.len() > 0 {
            child_lines(n.children@, prefix + child_prefix(last), true)
        } else {
            Seq::empty()
        }
    }
}

/// The whole rendering: the root's line, then its descendants, one line each,
/// every line ending in a newline.
pub open spec fn render_text(t: Topology) -> Seq<char> {
    join(seq![node_text(t.root)] + child_lines(t.root.children@, Seq::empty(), true), "\n"@) + "\n"@
}

/// Formats a node for display.
pub fn format_node(node: &Node) -> (r: Vec<char>)
    ensures
        r@ == node_text(*node),
{
    if node.branches.len() == 0 {
        let mut t = chars_of("[");
        append_chars(&mut t, &chars_of(node.commit.as_str()));
        append_chars(&mut t, &chars_of("]"));
        t
    } else {
        let mut names: Vec<Vec<char>> = Vec::new();
        let mut i: usize = 0;
        while i < node.branches.len()
            invariant
                i <= node.branches@.len(),
                names@.map_values(|v: Vec<char>| v@) == branch_names(node.branches@).take(i as int),
            decreases node.branches@.len() - i,
        {
            let ghost before = names@.map_values(|v: Vec<char>| v@);
            names.push(chars_of(node.branches[i].name.as_str()));
            proof {
                assert(names@.map_values(|v: Vec<char>| v@) =~= before.push(node.branches@[i as int].name@));
                assert(branch_names(node.branches@).take(i + 1) =~= branch_names(node.branches@).take(i as int).push(node.branches@[i as int].name@));
            }
            i = i + 1;
        }
        assert(branch_names(node.branches@).take(node.branches@.len() as int) == branch_names(node.branches@));
        let mut t = join_chars(&names, &chars_of(", "));
        let ahead = node.branches[0].ahead;
        if ahead > 0 {
            append_chars(&mut t, &chars_of(" (+"));
            append_chars(&mut t, &decimal_chars(ahead));
            append_chars(&mut t, &chars_of(")"));
        }
        t
    }
}

fn render_children(children: &Vec<Node>, lines: &mut Vec<Vec<char>>, prefix: &Vec<char>)
    ensures
        final(lines)@.map_values(|v: Vec<char>| v@) == old(lines)@.map_values(|v: Vec<char>| v@)
            + child_lines(children@, prefix@, true),
    decreases children@,
{
    let count = children.len();
    let mut i: usize = 0;
    let ghost start = lines@.map_values(|v: Vec<char>| v@);
    while i < count
        invariant
            count == children@.len(),
            i <= count,
            lines@.map_values(|v: Vec<char>| v@) == start + (if i == count {
                child_lines(children@, prefix@, true)
            } else {
                child_lines(children@.take(i as int), prefix@, false)
            }),
        decreases count - i,
    {
        let node = &children[i];
        let is_last = i == count - 1;
        let mut line = slice_range(prefix, 0, prefix.len());
        append_chars(&mut line, &chars_of(if is_last { "└─ " } else { "├─ " }));
        append_chars(&mut line, &format_node(node));
        let ghost before = lines@.map_values(|v: Vec<char>| v@);
        lines.push(line);
        proof {
            assert(prefix@.subrange(0, prefix@.len() as int) == prefix@);
            assert(lines@.map_values(|v: Vec<char>| v@) =~= before.push(
                prefix@ + connector(is_last) + node_text(children@[i as int]),
            ));
        }
        if node.children.len() > 0 {
            let mut deeper = slice_range(prefix, 0, prefix.len());
            append_chars(&mut deeper, &chars_of(if is_last { "   " } else { "│  " }));
            proof {
                assert(decreases_to!(children@ => children@[i as int]));
            }
            render_children(&node.children, lines, &deeper);
        }
        proof {
            let cs = children@.take(i + 1);
            assert(cs.drop_last() =~= children@.take(i as int));
            assert(cs.last() == children@[i as int]);
            if i + 1 == count {
                assert(cs =~= children@);
            }
        }
        i = i + 1;
    }
    proof {
        if count == 0 {
            assert(children@.take(0) =~= children@);
        }
    }
}

/// Renders the branch topology as ASCII art.
pub fn render(topology: &Topology) -> (r: String)
    ensures
        r@ == render_text(*topology),
{
    let mut lines: Vec<Vec<char>> = Vec::new();
    lines.push(format_node(&topology.root));
    assert(lines@.map_values(|v: Vec<char>| v@) =~= seq![node_text(topology.root)]);
    let top: Vec<char> = Vec::new();
    assert(top@ =~= Seq::<char>::empty());
    render_children(&topology.root.children, &mut lines, &top);
    let mut text = join_chars(&lines, &chars_of("\n"));
    append_chars(&mut text, &chars_of("\n"));
    string_of(&text)
}

/// Whether one of the node's branches is named `name`.
pub open spec fn has_branch(n: Node, name: Seq<char>) -> bool {
    exists|k: int| 0 <= k < n.branches@.len() && n.branches@[k].name@ == name
}

/// The first node, in depth-first order from `n`, that holds a branch named
/// `name`.
pub open spec fn find_in(n: Node, name: Seq<char>) -> Option<Node>
    decreases n,
{
    if has_branch(n, name) {
        Some(n)
    } else {
        find_in_list(n.children@, name)
    }
}

pub open spec fn find_in_list(cs: Seq<Node>, name: Seq<char>) -> Option<Node>
    decreases cs,
{
    if cs.len() == 0 {
        None
    } else {
        match find_in_list(cs.drop_last(), name) {
            Some(found) => Some(found),
            None => find_in(cs.last(), name),
        }
    }
}

/// The node that a search for a branch finds holds that branch.
pub proof fn lemma_found_node_holds_branch(n: Node, name: Seq<char>)
    ensures
        find_in(n, name) matches Some(m) ==> has_branch(m, name),
    decreases n,
{
    if !has_branch(n, name) {
        lemma_found_in_list_holds_branch(n.children@, name);
    }
}

proof fn lemma_found_in_list_holds_branch(cs: Seq<Node>, name: Seq<char>)
    ensures
        find_in_list(cs, name) matches Some(m) ==> has_branch(m, name),
    decreases cs,
{
    if cs.len() > 0 {
        lemma_found_in_list_holds_branch(cs.drop_last(), name);
        lemma_found_node_holds_branch(cs.last(), name);
    }
}

/// Finds a node by branch name in the tree.
pub fn find_branch_node<'a>(node: &'a Node, name: &str) -> (r: Option<&'a Node>)
    ensures
        match find_in(*node, name@) {
            Some(n) => r matches Some(m) && *m == n,
            None => r is None,
        },
    decreases node,
{
    let target = chars_of(name);
    let mut k: usize = 0;
    while k < node.branches.len()
        invariant
            k <= node.branches@.len(),
            target@ == name@,
            forall|j: int| 0 <= j < k ==> node.branches@[j].name@ != name@,
        decreases node.branches@.len() - k,
    {
        if chars_eq(&chars_of(node.branches[k].name.as_str()), &target) {
            return Some(node);
        }
        k = k + 1;
    }
    let mut i: usize = 0;
    while i < node.children.len()
        invariant
            i <= node.children@.len(),
            !has_branch(*node, name@),
            find_in_list(node.children@.take(i as int), name@) is None,
        decreases node.children@.len() - i,
    {
        proof {
            assert(decreases_to!(node => node.children@[i as int]));
        }
        let found = find_branch_node(&node.children[i], name);
        proof {
            let cs = node.children@.take(i + 1);
            assert(cs.drop_last() =~= node.children@.take(i as int));
            assert(cs.last() == node.children@[i as int]);
        }
        if found.is_some() {
            proof {
                assert(find_in_list(node.children@, name@) == find_in(node.children@[i as int], name@)) by {
                    lemma_find_in_list_prefix(node.children@, i as int + 1, name@);
                }
            }
            return found;
        }
        i = i + 1;
    }
    assert(node.children@.take(node.children@.len() as int) =~= node.children@);
    None
}

proof fn lemma_find_in_list_prefix(cs: Seq<Node>, k: int, name: Seq<char>)
    requires
        0 <= k <= cs.len(),
        find_in_list(cs.take(k), name) is Some,
    ensures
        find_in_list(cs, name) == find_in_list(cs.take(k), name),
    decreases cs.len() - k,
{
    if k < cs.len() {
        let t = cs.take(k + 1);
        assert(t.drop_last() =~= cs.take(k));
        lemma_find_in_list_prefix(cs, k + 1, name);
    } else {
        assert(cs.take(k) =~= cs);
    }
}

/// The leading ASCII digits of `s`.
pub open spec fn leading_digits(s: Seq<char>) -> Seq<char>
    decreases s.len(),
{
    if s.len() > 0 && is_digit(s[0]) {
        seq![s[0]] + leading_digits(s.skip(1))
    } else {
        Seq::empty()
    }
}

/// The pull request one `{`-separated piece of `gh pr list --json
/// headRefName,number` output names: the branch after `"headRefName":"` up to
/// the next quote, and the number in the digits after `"number":`.
pub open spec fn pr_entry(piece: Seq<char>) -> Option<(Seq<char>, u32)> {
    match find_from(piece, "\"headRefName\":\""@, 0) {
        None => None,
        Some(ns) => {
            let rest = piece.skip(ns + 15);
            match find_from(rest, "\""@, 0) {
                None => None,
                Some(ne) => {
                    let name = rest.take(ne);
                    match find_from(piece, "\"number\":"@, 0) {
                        None => None,
                        Some(us) => match parse_int(
                            leading_digits(piece.skip(us + 9)),
                            0,
                            u32::MAX as int,
                            false,
                        ) {
                            Ok(n) => Some((name, n as u32)),
                            Err(_) => None,
                        },
                    }
                },
            }
        },
    }
}

/// The pull request numbers of the pieces, by branch; a later piece for the
/// same branch wins.
pub open spec fn pr_map_of(pieces: Seq<Seq<char>>) -> Map<Seq<char>, u32>
    decreases pieces.len(),
{
    if pieces.len() == 0 {
        Map::empty()
    } else {
        match pr_entry(pieces.last()) {
            Some(e) => pr_map_of(pieces.drop_last()).insert(e.0, e.1),
            None => pr_map_of(pieces.drop_last()),
        }
    }
}

/// The open pull requests' numbers by branch, read from `gh pr list` output.
pub open spec fn pr_numbers(json: Seq<char>) -> Map<Seq<char>, u32> {
    pr_map_of(split_on(json, '{'))
}

/// The map a list of (branch, number) pairs with distinct branches stands for.
pub open spec fn assoc_map(v: Seq<(Seq<char>, u32)>) -> Map<Seq<char>, u32>
    decreases v.len(),
{
    if v.len() == 0 {
        Map::empty()
    } else {
        assoc_map(v.drop_last()).insert(v.last().0, v.last().1)
    }
}

/// No two pairs share a branch.
pub open spec fn keys_unique(v: Seq<(Seq<char>, u32)>) -> bool {
    forall|i: int, j: int| 0 <= i < j < v.len() ==> v[i].0 != v[j].0
}

proof fn lemma_assoc_map_dom(v: Seq<(Seq<char>, u32)>, k: Seq<char>)
    ensures
        assoc_map(v).contains_key(k) <==> exists|i: int| 0 <= i < v.len() && v[i].0 == k,
    decreases v.len(),
{
    if v.len() > 0 {
        lemma_assoc_map_dom(v.drop_last(), k);
        if assoc_map(v).contains_key(k) && v.last().0 != k {
            let i = choose|i: int| 0 <= i < v.drop_last().len() && v.drop_last()[i].0 == k;
            assert(v[i].0 == k);
        }
        if exists|i: int| 0 <= i < v.len() && v[i].0 == k {
            let i = choose|i: int| 0 <= i < v.len() && v[i].0 == k;
            if i < v.len() - 1 {
                assert(v.drop_last()[i].0 == k);
            }
        }
    }
}

proof fn lemma_assoc_map_update(v: Seq<(Seq<char>, u32)>, i: int, x: u32)
    requires
        keys_unique(v),
        0 <= i < v.len(),
    ensures
        assoc_map(v.update(i, (v[i].0, x))) == assoc_map(v).insert(v[i].0, x),
    decreases v.len(),
{
    let u = v.update(i, (v[i].0, x));
    if i == v.len() - 1 {
        assert(u.drop_last() =~= v.drop_last());
        assert(assoc_map(u) =~= assoc_map(v).insert(v[i].0, x));
    } else {
        assert(u.drop_last() =~= v.drop_last().update(i, (v[i].0, x)));
        lemma_assoc_map_update(v.drop_last(), i, x);
        assert(v.last().0 != v[i].0);
        assert(assoc_map(u) =~= assoc_map(v).insert(v[i].0, x));
    }
}

/// The branch, as text, and number of each pair.
pub open spec fn pr_views(v: Seq<(String, u32)>) -> Seq<(Seq<char>, u32)> {
    v.map_values(|p: (String, u32)| (p.0@, p.1))
}

fn find_text(s: &[char], p: &[char]) -> (r: Option<usize>)
    ensures
        match find_from(s@, p@, 0) {
            Some(k) => r == Some(k as usize),
            None => r is None,
        },
{
    let mut i: usize = 0;
    while i <= s.len() && p.len() <= s.len() - i
        invariant
            find_from(s@, p@, 0) == find_from(s@, p@, i as int),
            i <= s@.len() + 1,
        decreases s@.len() + 1 - i,
    {
        if crate::save_context::occurs_at_exec(s, p, i) {
            return Some(i);
        }
        if i == s.len() {
            return None;
        }
        i = i + 1;
    }
    None
}

fn pr_entry_exec(piece: &[char]) -> (r: Option<(String, u32)>)
    ensures
        match pr_entry(piece@) {
            Some(e) => r matches Some(x) && x.0@ == e.0 && x.1 == e.1,
            None => r is None,
        },
{
    let pl = piece.len();
    assert(pl == piece@.len());
    let key = chars_of("\"headRefName\":\"");
    let quote = chars_of("\"");
    let num_key = chars_of("\"number\":");
    proof {
        reveal_strlit("\"headRefName\":\"");
        reveal_strlit("\"number\":");
        crate::save_context::lemma_find_from_bounds(piece@, key@, 0);
        crate::save_context::lemma_find_from_bounds(piece@, num_key@, 0);
    }
    let ns = match find_text(piece, &key) {
        Some(k) => k,
        None => {
            return None;
        },
    };
    assert(key@.len() == 15);
    assert(find_from(piece@, key@, 0) == Some(ns as int));
    assert(ns + 15 <= piece@.len());
    let rest = slice_range(piece, ns + 15, piece.len());
    assert(rest@ =~= piece@.skip(ns + 15));
    proof {
        crate::save_context::lemma_find_from_bounds(rest@, quote@, 0);
    }
    let rl = rest.len();
    assert(rl == rest@.len());
    let ne = match find_text(&rest, &quote) {
        Some(k) => k,
        None => {
            return None;
        },
    };
    assert(find_from(rest@, quote@, 0) == Some(ne as int));
    let name = slice_range(&rest, 0, ne);
    assert(name@ =~= rest@.take(ne as int));
    let us = match find_text(piece, &num_key) {
        Some(k) => k,
        None => {
            return None;
        },
    };
    assert(num_key@.len() == 9);
    assert(find_from(piece@, num_key@, 0) == Some(us as int));
    assert(us + 9 <= piece@.len());
    let tail = slice_range(piece, us + 9, piece.len());
    assert(tail@ =~= piece@.skip(us + 9));
    let mut digits: Vec<char> = Vec::new();
    let mut i: usize = 0;
    assert(tail@.skip(0) =~= tail@);
    while i < tail.len() && '0' <= tail[i] && tail[i] <= '9'
        invariant
            i <= tail@.len(),
            leading_digits(tail@) == digits@ + leading_digits(tail@.skip(i as int)),
        decreases tail@.len() - i,
    {
        assert(tail@.skip(i as int).skip(1) =~= tail@.skip(i + 1));
        digits.push(tail[i]);
        i = i + 1;
        assert(leading_digits(tail@) =~= digits@ + leading_digits(tail@.skip(i as int)));
    }
    assert(leading_digits(tail@.skip(i as int)) =~= Seq::<char>::empty());
    assert(digits@ + Seq::<char>::empty() =~= digits@);
    match parse_u32(&digits) {
        Ok(n) => Some((string_of(&name), n)),
        Err(_) => None,
    }
}

/// Read the open pull requests' numbers by branch from the output of `gh pr
/// list --json headRefName,number`, scanned piece by piece between `{`s.
pub fn parse_pr_list(json: &str) -> (r: Vec<(String, u32)>)
    ensures
        keys_unique(pr_views(r@)),
        assoc_map(pr_views(r@)) == pr_numbers(json@),
{
    let pieces = crate::text::split_chars(&chars_of(json), '{');
    let ghost pv = pieces@.map_values(|v: Vec<char>| v@);
    let mut out: Vec<(String, u32)> = Vec::new();
    let mut i: usize = 0;
    assert(assoc_map(pr_views(out@)) =~= Map::<Seq<char>, u32>::empty());
    while i < pieces.len()
        invariant
            i <= pieces@.len(),
            pv == pieces@.map_values(|v: Vec<char>| v@),
            pv == split_on(json@, '{'),
            keys_unique(pr_views(out@)),
            assoc_map(pr_views(out@)) == pr_map_of(pv.take(i as int)),
        decreases pieces@.len() - i,
    {
        assert(pv.take(i + 1).drop_last() =~= pv.take(i as int));
        assert(pv.take(i + 1).last() == pieces@[i as int]@);
        match pr_entry_exec(&pieces[i]) {
            None => {},
            Some(entry) => {
                let ghost before = pr_views(out@);
                let mut j: usize = 0;
                let mut at: Option<usize> = None;
                while j < out.len()
                    invariant
                        j <= out@.len(),
                        before == pr_views(out@),
                        match at {
                            Some(k) => k < out@.len() && before[k as int].0 == entry.0@,
                            None => forall|k: int| 0 <= k < j ==> before[k].0 != entry.0@,
                        },
                    decreases out@.len() - j,
                {
                    if at.is_none() && chars_eq(&chars_of(out[j].0.as_str()), &chars_of(entry.0.as_str())) {
                        at = Some(j);
                    }
                    j = j + 1;
                }
                let ghost ev = (entry.0@, entry.1);
                match at {
                    Some(k) => {
                        let name = entry.0;
                        let num = entry.1;
                        out.set(k, (name, num));
                        proof {
                            assert(pr_views(out@) =~= before.update(k as int, (before[k as int].0, num)));
                            lemma_assoc_map_update(before, k as int, num);
                            assert forall|a: int, b: int| 0 <= a < b < pr_views(out@).len() implies
                                pr_views(out@)[a].0 != pr_views(out@)[b].0 by {
                                assert(before[a].0 != before[b].0);
                            }
                        }
                    },
                    None => {
                        out.push(entry);
                        proof {
                            assert(pr_views(out@) =~= before.push(ev));
                            assert(pr_views(out@).drop_last() =~= before);
                        }
                    },
                }
            },
        }
        i = i + 1;
    }
    assert(pv.take(pieces@.len() as int) =~= pv);
    out
}

/// The name marking the commit `HEAD` is at.
pub open spec fn head_marker() -> Seq<char> {
    "[HEAD]"@
}

/// The value the first pair with key `k` holds.
pub open spec fn lookup<V>(v: Seq<(Seq<char>, V)>, k: Seq<char>) -> Option<V>
    decreases v.len(),
{
    if v.len() == 0 {
        None
    } else if v[0].0 == k {
        Some(v[0].1)
    } else {
        lookup(v.skip(1), k)
    }
}

/// The pull request number of branch `n`, if it has an open one.
pub open spec fn pr_of(prs: Seq<(Seq<char>, u32)>, n: Seq<char>) -> Option<u32> {
    lookup(prs, n)
}

/// The names of `names` other than the `HEAD` marker.
pub open spec fn real_names(names: Seq<Seq<char>>) -> Seq<Seq<char>>
    decreases names.len(),
{
    if names.len() == 0 {
        Seq::empty()
    } else if names.last() == head_marker() {
        real_names(names.drop_last())
    } else {
        real_names(names.drop_last()).push(names.last())
    }
}

/// The branches at a commit whose branch names are `names`: the real
/// branches sorted by name, each with the commit's count ahead and its pull
/// request, then the `HEAD` marker (without a pull request) if it is there.
pub open spec fn branch_list(names: Seq<Seq<char>>, ahead: usize, prs: Seq<(Seq<char>, u32)>) -> Seq<
    (Seq<char>, usize, Option<u32>),
> {
    real_names(names).sort_by(lex_order()).map_values(
        |n: Seq<char>| (n, ahead, pr_of(prs, n)),
    ) + if names.contains(head_marker()) {
        seq![(head_marker(), ahead, None::<u32>)]
    } else {
        Seq::empty()
    }
}

/// A branch as plain values.
pub open spec fn branch_view(b: BranchInfo) -> (Seq<char>, usize, Option<u32>) {
    (b.name@, b.ahead, b.pr)
}

/// The text keys and values of pairs.
pub open spec fn keyed_views<V>(v: Seq<(String, V)>) -> Seq<(Seq<char>, V)> {
    v.map_values(|p: (String, V)| (p.0@, p.1))
}

fn lookup_exec<V: Copy>(v: &Vec<(String, V)>, k: &[char]) -> (r: Option<V>)
    ensures
        r == lookup(keyed_views(v@), k@),
{
    let ghost kv = keyed_views(v@);
    let mut i: usize = 0;
    assert(kv.skip(0) =~= kv);
    while i < v.len()
        invariant
            i <= v@.len(),
            kv == keyed_views(v@),
            lookup(kv, k@) == lookup(kv.skip(i as int), k@),
        decreases v@.len() - i,
    {
        assert(kv.skip(i as int)[0] == (v@[i as int].0@, v@[i as int].1));
        if chars_eq(&chars_of(v[i].0.as_str()), k) {
            return Some(v[i].1);
        }
        assert(kv.skip(i as int).skip(1) =~= kv.skip(i + 1));
        i = i + 1;
    }
    None
}

/// The branches of a commit with branch names `names`, `ahead` commits past
/// its parent.
pub fn node_branches(names: &Vec<String>, ahead: usize, prs: &Vec<(String, u32)>) -> (r: Vec<
    BranchInfo,
>)
    ensures
        r@.map_values(|b: BranchInfo| branch_view(b)) == branch_list(
            texts(names@),
            ahead,
            keyed_views(prs@),
        ),
{
    let ghost nv = texts(names@);
    let marker = chars_of("[HEAD]");
    let mut kept: Vec<Vec<char>> = Vec::new();
    let mut has_head = false;
    let mut i: usize = 0;
    while i < names.len()
        invariant
            i <= names@.len(),
            nv == texts(names@),
            marker@ == head_marker(),
            char_views(kept@) == real_names(nv.take(i as int)),
            has_head == nv.take(i as int).contains(head_marker()),
        decreases names@.len() - i,
    {
        let n = chars_of(names[i].as_str());
        let ghost t1 = nv.take(i + 1);
        let ghost t0 = nv.take(i as int);
        assert(t1.drop_last() =~= t0);
        assert(t1.last() == n@);
        let is_head = chars_eq(&n, &marker);
        let ghost before = char_views(kept@);
        if is_head {
            has_head = true;
            assert(t1[i as int] == head_marker());
        } else {
            let ghost n_v = n@;
            kept.push(n);
            assert(char_views(kept@) =~= before.push(n_v));
            if has_head {
                proof {
                    let k = choose|k: int| 0 <= k < t0.len() && t0[k] == head_marker();
                    assert(t1[k] == head_marker());
                }
            } else {
                assert(!t1.contains(head_marker())) by {
                    if t1.contains(head_marker()) {
                        let k = choose|k: int| 0 <= k < t1.len() && t1[k] == head_marker();
                        if k < i {
                            assert(t0[k] == head_marker());
                        }
                    }
                }
            }
        }
        i = i + 1;
    }
    assert(nv.take(names@.len() as int) =~= nv);
    let sorted = sort_strings(kept);
    let ghost sv = char_views(sorted@);
    let mut out: Vec<BranchInfo> = Vec::new();
    let mut j: usize = 0;
    while j < sorted.len()
        invariant
            j <= sorted@.len(),
            sv == char_views(sorted@),
            out@.map_values(|b: BranchInfo| branch_view(b)) == sv.take(j as int).map_values(
                |n: Seq<char>| (n, ahead, pr_of(keyed_views(prs@), n)),
            ),
        decreases sorted@.len() - j,
    {
        let ghost before = out@.map_values(|b: BranchInfo| branch_view(b));
        let pr = lookup_exec(prs, &sorted[j]);
        let b = BranchInfo { name: string_of(&sorted[j]), ahead, pr };
        let ghost bv = branch_view(b);
        out.push(b);
        assert(out@.map_values(|b: BranchInfo| branch_view(b)) =~= before.push(bv));
        j = j + 1;
        assert(out@.map_values(|b: BranchInfo| branch_view(b)) =~= sv.take(j as int).map_values(
            |n: Seq<char>| (n, ahead, pr_of(keyed_views(prs@), n)),
        ));
    }
    assert(sv.take(sorted@.len() as int) =~= sv);
    if has_head {
        let ghost before = out@.map_values(|b: BranchInfo| branch_view(b));
        out.push(BranchInfo { name: String::from_str("[HEAD]"), ahead, pr: None });
        assert(out@.map_values(|b: BranchInfo| branch_view(b)) =~= before.push(
            (head_marker(), ahead, None::<u32>),
        ));
    } else {
        assert(out@.map_values(|b: BranchInfo| branch_view(b)) =~= out@.map_values(
            |b: BranchInfo| branch_view(b),
        ) + Seq::<(Seq<char>, usize, Option<u32>)>::empty());
    }
    out
}

/// Each commit's parent within the commit set, as text.
pub open spec fn parent_views(v: Seq<(String, Option<String>)>) -> Seq<(Seq<char>, Option<Seq<char>>)> {
    v.map_values(
        |p: (String, Option<String>)|
            (
                p.0@,
                match p.1 {
                    Some(s) => Some(s@),
                    None => None,
                },
            ),
    )
}

/// The branch names at each commit, as text.
pub open spec fn names_views(v: Seq<(String, Vec<String>)>) -> Seq<(Seq<char>, Seq<Seq<char>>)> {
    v.map_values(|p: (String, Vec<String>)| (p.0@, texts(p.1@)))
}

/// The commits among the first `n` of `all` whose parent is `commit`.
pub open spec fn with_parent(
    all: Seq<Seq<char>>,
    ps: Seq<(Seq<char>, Option<Seq<char>>)>,
    commit: Seq<char>,
    n: int,
) -> Seq<Seq<char>>
    decreases n,
{
    if n <= 0 {
        Seq::empty()
    } else {
        with_parent(all, ps, commit, n - 1) + if lookup(ps, all[n - 1]) == Some(Some(commit)) {
            seq![all[n - 1]]
        } else {
            Seq::empty()
        }
    }
}

/// The children of `commit`: the commits whose parent it is, in order.
pub open spec fn children_spec(
    all: Seq<Seq<char>>,
    ps: Seq<(Seq<char>, Option<Seq<char>>)>,
    commit: Seq<char>,
) -> Seq<Seq<char>> {
    with_parent(all, ps, commit, all.len() as int).sort_by(lex_order())
}

fn lookup_parent(v: &Vec<(String, Option<String>)>, k: &[char]) -> (r: Option<Option<Vec<char>>>)
    ensures
        match lookup(parent_views(v@), k@) {
            Some(Some(p)) => r matches Some(Some(q)) && q@ == p,
            Some(None) => r == Some(None::<Vec<char>>),
            None => r is None,
        },
{
    let ghost kv = parent_views(v@);
    let mut i: usize = 0;
    assert(kv.skip(0) =~= kv);
    while i < v.len()
        invariant
            i <= v@.len(),
            kv == parent_views(v@),
            lookup(kv, k@) == lookup(kv.skip(i as int), k@),
        decreases v@.len() - i,
    {
        assert(kv.skip(i as int)[0] == kv[i as int]);
        if chars_eq(&chars_of(v[i].0.as_str()), k) {
            return match &v[i].1 {
                Some(p) => Some(Some(chars_of(p.as_str()))),
                None => Some(None),
            };
        }
        assert(kv.skip(i as int).skip(1) =~= kv.skip(i + 1));
        i = i + 1;
    }
    None
}

/// The children of `commit` among `all_commits`, sorted.
pub fn child_commits(commit: &[char], all_commits: &Vec<String>, parents: &Vec<(String, Option<String>)>) -> (r: Vec<
    Vec<char>,
>)
    ensures
        char_views(r@) == children_spec(texts(all_commits@), parent_views(parents@), commit@),
{
    let ghost all = texts(all_commits@);
    let ghost ps = parent_views(parents@);
    let mut found: Vec<Vec<char>> = Vec::new();
    let mut i: usize = 0;
    while i < all_commits.len()
        invariant
            i <= all_commits@.len(),
            all == texts(all_commits@),
            ps == parent_views(parents@),
            char_views(found@) == with_parent(all, ps, commit@, i as int),
        decreases all_commits@.len() - i,
    {
        let c = chars_of(all_commits[i].as_str());
        let ghost before = char_views(found@);
        let is_child = match lookup_parent(parents, &c) {
            Some(Some(p)) => chars_eq(&p, commit),
            _ => false,
        };
        if is_child {
            let ghost cv = c@;
            found.push(c);
            assert(char_views(found@) =~= before.push(cv));
        }
        i = i + 1;
        assert(char_views(found@) =~= with_parent(all, ps, commit@, i as int));
    }
    sort_strings(found)
}

/// How far a commit is ahead of its parent: as given, or 0.
pub open spec fn ahead_of(aheads: Seq<(Seq<char>, usize)>, commit: Seq<char>) -> usize {
    match lookup(aheads, commit) {
        Some(a) => a,
        None => 0,
    }
}

/// The branch names at `commit`, or none.
pub open spec fn names_at(cb: Seq<(Seq<char>, Seq<Seq<char>>)>, commit: Seq<char>) -> Seq<Seq<char>> {
    match lookup(cb, commit) {
        Some(ns) => ns,
        None => Seq::empty(),
    }
}

/// Whether `n` is the node of `commit` in the tree built from the commit
/// set `all`, its parents `ps`, the branch names at each commit `cb`, the
/// pull requests `prs` and how far each commit is ahead of its parent
/// `aheads`, to `fuel` levels: its branches are `branch_list` of its names,
/// and its children are the nodes of its child commits, in order.
pub open spec fn built(
    n: Node,
    commit: Seq<char>,
    all: Seq<Seq<char>>,
    ps: Seq<(Seq<char>, Option<Seq<char>>)>,
    cb: Seq<(Seq<char>, Seq<Seq<char>>)>,
    prs: Seq<(Seq<char>, u32)>,
    aheads: Seq<(Seq<char>, usize)>,
    fuel: nat,
) -> bool
    decreases fuel,
{
    let kids = children_spec(all, ps, commit);
    &&& n.commit@ == commit
    &&& n.branches@.map_values(|b: BranchInfo| branch_view(b)) == branch_list(
        names_at(cb, commit),
        ahead_of(aheads, commit),
        prs,
    )
    &&& fuel == 0 ==> n.children@.len() == 0
    &&& fuel > 0 ==> n.children@.len() == kids.len() && forall|i: int|
        0 <= i < kids.len() ==> built(
            #[trigger] n.children@[i],
            kids[i],
            all,
            ps,
            cb,
            prs,
            aheads,
            (fuel - 1) as nat,
        )
}

fn lookup_names(v: &Vec<(String, Vec<String>)>, k: &[char]) -> (r: Vec<String>)
    ensures
        texts(r@) == names_at(names_views(v@), k@),
{
    let ghost kv = names_views(v@);
    let mut i: usize = 0;
    assert(kv.skip(0) =~= kv);
    while i < v.len()
        invariant
            i <= v@.len(),
            kv == names_views(v@),
            lookup(kv, k@) == lookup(kv.skip(i as int), k@),
        decreases v@.len() - i,
    {
        assert(kv.skip(i as int)[0] == kv[i as int]);
        if chars_eq(&chars_of(v[i].0.as_str()), k) {
            let names = &v[i].1;
            let mut out: Vec<String> = Vec::new();
            let mut j: usize = 0;
            while j < names.len()
                invariant
                    j <= names@.len(),
                    texts(out@) == texts(names@).take(j as int),
                decreases names@.len() - j,
            {
                let ghost before = texts(out@);
                let s = names[j].clone();
                out.push(s);
                assert(texts(out@) =~= before.push(names@[j as int]@));
                j = j + 1;
                assert(texts(out@) =~= texts(names@).take(j as int));
            }
            assert(texts(names@).take(names@.len() as int) =~= texts(names@));
            return out;
        }
        assert(kv.skip(i as int).skip(1) =~= kv.skip(i + 1));
        i = i + 1;
    }
    let out: Vec<String> = Vec::new();
    assert(texts(out@) =~= Seq::<Seq<char>>::empty());
    out
}

/// Recursively build a node and its children, to `fuel` levels (a tree
/// whose parents have no cycle is never deeper than its number of commits).
pub fn build_node(
    commit: &[char],
    all_commits: &Vec<String>,
    parents: &Vec<(String, Option<String>)>,
    commit_to_branches: &Vec<(String, Vec<String>)>,
    prs: &Vec<(String, u32)>,
    aheads: &Vec<(String, usize)>,
    fuel: usize,
) -> (r: Node)
    ensures
        built(
            r,
            commit@,
            texts(all_commits@),
            parent_views(parents@),
            names_views(commit_to_branches@),
            keyed_views(prs@),
            keyed_views(aheads@),
            fuel as nat,
        ),
    decreases fuel,
{
    let ghost all = texts(all_commits@);
    let ghost ps = parent_views(parents@);
    let ghost cb = names_views(commit_to_branches@);
    let ghost pv = keyed_views(prs@);
    let ghost av = keyed_views(aheads@);
    let mut children: Vec<Node> = Vec::new();
    if fuel > 0 {
        let kids = child_commits(commit, all_commits, parents);
        let ghost kv = char_views(kids@);
        let mut i: usize = 0;
        while i < kids.len()
            invariant
                i <= kids@.len(),
                fuel > 0,
                kv == char_views(kids@),
                kv == children_spec(all, ps, commit@),
                all == texts(all_commits@),
                ps == parent_views(parents@),
                cb == names_views(commit_to_branches@),
                pv == keyed_views(prs@),
                av == keyed_views(aheads@),
                children@.len() == i,
                forall|k: int|
                    0 <= k < i ==> built(
                        #[trigger] children@[k],
                        kv[k],
                        all,
                        ps,
                        cb,
                        pv,
                        av,
                        (fuel - 1) as nat,
                    ),
            decreases kids@.len() - i,
        {
            let child = build_node(
                &kids[i],
                all_commits,
                parents,
                commit_to_branches,
                prs,
                aheads,
                fuel - 1,
            );
            children.push(child);
            i = i + 1;
        }
    }
    let ahead = match lookup_exec(aheads, commit) {
        Some(a) => a,
        None => 0,
    };
    let names = lookup_names(commit_to_branches, commit);
    let branches = node_branches(&names, ahead, prs);
    Node { commit: string_of(commit), branches, children }
}

/// The topology of a repository with at most one branch: a root node at the
/// trunk's tip, holding the trunk (with its pull request) and, if `HEAD` is
/// at that tip, the `HEAD` marker.
pub fn single_branch_topology(
    trunk: &str,
    trunk_tip: &str,
    head_commit: Option<&str>,
    trunk_pr: Option<u32>,
) -> (r: Topology)
    ensures
        r.trunk@ == trunk@,
        r.root.commit@ == trunk_tip@,
        r.root.children@.len() == 0,
        r.root.branches@.map_values(|b: BranchInfo| branch_view(b)) == seq![(trunk@, 0usize, trunk_pr)]
            + if head_commit matches Some(h) && h@ == trunk_tip@ {
            seq![(head_marker(), 0usize, None::<u32>)]
        } else {
            Seq::empty()
        },
{
    let mut branches: Vec<BranchInfo> = Vec::new();
    branches.push(BranchInfo { name: String::from_str(trunk), ahead: 0, pr: trunk_pr });
    let at_tip = match head_commit {
        Some(h) => crate::text::str_is(h, trunk_tip),
        None => false,
    };
    let ghost before = branches@.map_values(|b: BranchInfo| branch_view(b));
    if at_tip {
        branches.push(BranchInfo { name: String::from_str("[HEAD]"), ahead: 0, pr: None });
        assert(branches@.map_values(|b: BranchInfo| branch_view(b)) =~= before.push(
            (head_marker(), 0usize, None::<u32>),
        ));
    } else {
        assert(branches@.map_values(|b: BranchInfo| branch_view(b)) =~= before + Seq::<
            (Seq<char>, usize, Option<u32>),
        >::empty());
    }
    Topology {
        trunk: String::from_str(trunk),
        root: Node { commit: String::from_str(trunk_tip), branches, children: Vec::new() },
    }
}

/// The closest ancestor among the first `n` candidates: the first with the
/// least positive distance; a candidate's distance is none when it is not an
/// ancestor.
pub open spec fn closest_among(cands: Seq<(Seq<char>, Option<usize>)>, n: int) -> Option<(Seq<char>, usize)>
    decreases n,
{
    if n <= 0 {
        None
    } else {
        let best = closest_among(cands, n - 1);
        match cands[n - 1].1 {
            Some(d) => if d > 0 && (match best {
                Some(b) => d < b.1,
                None => true,
            }) {
                Some((cands[n - 1].0, d))
            } else {
                best
            },
            None => best,
        }
    }
}

/// The parent of a commit: among the other commits of the set, given with
/// their distance if they are its ancestors, the closest; the first of
/// equally close ones.
pub fn closest_parent(candidates: &Vec<(String, Option<usize>)>) -> (r: Option<String>)
    ensures
        match closest_among(keyed_views(candidates@), candidates@.len() as int) {
            Some(b) => r matches Some(s) && s@ == b.0,
            None => r is None,
        },
{
    let ghost cv = keyed_views(candidates@);
    let mut best: Option<(usize, usize)> = None;
    let mut i: usize = 0;
    while i < candidates.len()
        invariant
            i <= candidates@.len(),
            cv == keyed_views(candidates@),
            match closest_among(cv, i as int) {
                Some(b) => best matches Some(x) && x.0 < i && cv[x.0 as int].0 == b.0 && x.1 == b.1,
                None => best is None,
            },
        decreases candidates@.len() - i,
    {
        match candidates[i].1 {
            Some(d) => {
                let better = d > 0 && match best {
                    Some(x) => d < x.1,
                    None => true,
                };
                if better {
                    best = Some((i, d));
                }
            },
            None => {},
        }
        i = i + 1;
    }
    match best {
        Some(x) => Some(candidates[x.0].0.clone()),
        None => None,
    }
}

/// The commits of the set with `c` added, each commit once.
pub open spec fn with_commit(commits: Seq<Seq<char>>, c: Seq<char>) -> Seq<Seq<char>> {
    if commits.contains(c) {
        commits
    } else {
        commits.push(c)
    }
}

/// Add a commit to the set of commits of the tree, unless it is there.
pub fn add_commit(commits: &mut Vec<String>, c: String)
    ensures
        texts(final(commits)@) == with_commit(texts(old(commits)@), c@),
{
    let ghost cs = texts(commits@);
    let mut i: usize = 0;
    while i < commits.len()
        invariant
            i <= commits@.len(),
            cs == texts(commits@),
            forall|k: int| 0 <= k < i ==> cs[k] != c@,
        decreases commits@.len() - i,
    {
        if str_is(commits[i].as_str(), c.as_str()) {
            assert(cs[i as int] == c@);
            return;
        }
        i = i + 1;
    }
    let ghost cv = c@;
    commits.push(c);
    assert(texts(commits@) =~= cs.push(cv));
}

/// Pairs of strings as text.
pub open spec fn pair_texts(v: Seq<(String, String)>) -> Seq<(Seq<char>, Seq<char>)> {
    v.map_values(|p: (String, String)| (p.0@, p.1@))
}

/// The pairs `(bases[k].0, bases[j].0)` with `k < j` among the first `j`
/// entries whose merge-base equals that of entry `j`, in order of `k`.
pub open spec fn pairs_with(bases: Seq<(Seq<char>, Seq<char>)>, j: int, k: int) -> Seq<
    (Seq<char>, Seq<char>),
>
    decreases k,
{
    if k <= 0 {
        Seq::empty()
    } else {
        pairs_with(bases, j, k - 1) + if bases[k - 1].1 == bases[j].1 {
            seq![(bases[k - 1].0, bases[j].0)]
        } else {
            Seq::empty()
        }
    }
}

/// The pairs of branches among the first `n` (branch, merge-base with trunk)
/// entries that share their merge-base with trunk, each pair once, the
/// earlier branch first.
pub open spec fn shared_base_pairs(bases: Seq<(Seq<char>, Seq<char>)>, n: int) -> Seq<
    (Seq<char>, Seq<char>),
>
    decreases n,
{
    if n <= 0 {
        Seq::empty()
    } else {
        shared_base_pairs(bases, n - 1) + pairs_with(bases, n - 1, n - 1)
    }
}

/// The pairs of branches that share a merge-base with trunk, whose own
/// merge-bases are fork points of the tree too.
pub fn merge_base_pairs(bases: &Vec<(String, String)>) -> (r: Vec<(String, String)>)
    ensures
        pair_texts(r@) == shared_base_pairs(pair_texts(bases@), bases@.len() as int),
{
    let ghost bv = pair_texts(bases@);
    let mut out: Vec<(String, String)> = Vec::new();
    let mut j: usize = 0;
    while j < bases.len()
        invariant
            j <= bases@.len(),
            bv == pair_texts(bases@),
            pair_texts(out@) == shared_base_pairs(bv, j as int),
        decreases bases@.len() - j,
    {
        let ghost start = pair_texts(out@);
        let mut k: usize = 0;
        while k < j
            invariant
                k <= j < bases@.len(),
                bv == pair_texts(bases@),
                pair_texts(out@) == start + pairs_with(bv, j as int, k as int),
            decreases j - k,
        {
            let ghost before = pair_texts(out@);
            assert(bv[k as int] == (bases@[k as int].0@, bases@[k as int].1@));
            assert(bv[j as int] == (bases@[j as int].0@, bases@[j as int].1@));
            if str_is(bases[k].1.as_str(), bases[j].1.as_str()) {
                let a = bases[k].0.clone();
                let b = bases[j].0.clone();
                let ghost pv = (a@, b@);
                out.push((a, b));
                assert(pair_texts(out@) =~= before.push(pv));
            } else {
                assert(pair_texts(out@) =~= before + Seq::<(Seq<char>, Seq<char>)>::empty());
            }
            k = k + 1;
        }
        j = j + 1;
    }
    out
}

/// The root of the tree: the first commit with no parent in the set, else
/// the trunk's tip.
pub open spec fn root_commit(
    commits: Seq<Seq<char>>,
    ps: Seq<(Seq<char>, Option<Seq<char>>)>,
    trunk_tip: Seq<char>,
) -> Seq<char>
    decreases commits.len(),
{
    if commits.len() == 0 {
        trunk_tip
    } else if lookup(ps, commits[0]) == Some(None::<Seq<char>>) {
        commits[0]
    } else {
        root_commit(commits.skip(1), ps, trunk_tip)
    }
}

/// Find the root of the tree.
pub fn find_root(commits: &Vec<String>, parents: &Vec<(String, Option<String>)>, trunk_tip: &str) -> (r:
    String)
    ensures
        r@ == root_commit(texts(commits@), parent_views(parents@), trunk_tip@),
{
    let ghost cs = texts(commits@);
    let ghost ps = parent_views(parents@);
    let mut i: usize = 0;
    assert(cs.skip(0) =~= cs);
    while i < commits.len()
        invariant
            i <= commits@.len(),
            cs == texts(commits@),
            ps == parent_views(parents@),
            root_commit(cs, ps, trunk_tip@) == root_commit(cs.skip(i as int), ps, trunk_tip@),
        decreases commits@.len() - i,
    {
        let c = chars_of(commits[i].as_str());
        assert(cs.skip(i as int)[0] == c@);
        match lookup_parent(parents, &c) {
            Some(None) => {
                return commits[i].clone();
            },
            _ => {},
        }
        assert(cs.skip(i as int).skip(1) =~= cs.skip(i + 1));
        i = i + 1;
    }
    String::from_str(trunk_tip)
}

/// The branches among the first `n` (branch, tip) pairs whose tip is `c`.
pub open spec fn names_with_tip(tips: Seq<(Seq<char>, Seq<char>)>, c: Seq<char>, n: int) -> Seq<
    Seq<char>,
>
    decreases n,
{
    if n <= 0 {
        Seq::empty()
    } else {
        names_with_tip(tips, c, n - 1) + if tips[n - 1].1 == c {
            seq![tips[n - 1].0]
        } else {
            Seq::empty()
        }
    }
}

/// The names at commit `c`: the branches whose tip it is, in order, then the
/// `HEAD` marker if `HEAD` is at it.
pub open spec fn names_for(tips: Seq<(Seq<char>, Seq<char>)>, head: Option<Seq<char>>, c: Seq<char>) -> Seq<
    Seq<char>,
> {
    names_with_tip(tips, c, tips.len() as int) + if head == Some(c) {
        seq![head_marker()]
    } else {
        Seq::empty()
    }
}

/// The commits of a grouping, in order.
pub open spec fn group_keys(v: Seq<(Seq<char>, Seq<Seq<char>>)>) -> Seq<Seq<char>> {
    v.map_values(|p: (Seq<char>, Seq<Seq<char>>)| p.0)
}

proof fn lemma_lookup_unique<V>(v: Seq<(Seq<char>, V)>, k: Seq<char>, i: int)
    requires
        0 <= i < v.len(),
        v[i].0 == k,
        forall|a: int, b: int| 0 <= a < b < v.len() ==> v[a].0 != v[b].0,
    ensures
        lookup(v, k) == Some(v[i].1),
    decreases v.len(),
{
    if i > 0 {
        assert(v[0].0 != k);
        lemma_lookup_unique(v.skip(1), k, i - 1);
    }
}

proof fn lemma_lookup_absent<V>(v: Seq<(Seq<char>, V)>, k: Seq<char>)
    requires
        forall|a: int| 0 <= a < v.len() ==> v[a].0 != k,
    ensures
        lookup(v, k) is None,
    decreases v.len(),
{
    if v.len() > 0 {
        lemma_lookup_absent(v.skip(1), k);
    }
}

/// Group the branches by the commit they point at, the `HEAD` marker going
/// last at `HEAD`'s commit; each commit once, in the order first met.
pub fn group_by_commit(tips: &Vec<(String, String)>, head_commit: Option<&str>) -> (r: Vec<
    (String, Vec<String>),
>)
    ensures
        forall|a: int, b: int| 0 <= a < b < r@.len() ==> r@[a].0@ != r@[b].0@,
        forall|c: Seq<char>| #[trigger] names_at(names_views(r@), c) == names_for(
            tips@.map_values(|p: (String, String)| (p.0@, p.1@)),
            match head_commit {
                Some(h) => Some(h@),
                None => None,
            },
            c,
        ),
{
    let ghost tv = tips@.map_values(|p: (String, String)| (p.0@, p.1@));
    let mut out: Vec<(String, Vec<String>)> = Vec::new();
    let mut i: usize = 0;
    while i < tips.len()
        invariant
            i <= tips@.len(),
            tv == tips@.map_values(|p: (String, String)| (p.0@, p.1@)),
            forall|a: int, b: int| 0 <= a < b < out@.len() ==> out@[a].0@ != out@[b].0@,
            forall|c: Seq<char>| #[trigger] names_at(names_views(out@), c) == names_with_tip(
                tv,
                c,
                i as int,
            ),
        decreases tips@.len() - i,
    {
        let tip = chars_of(tips[i].1.as_str());
        let ghost before = names_views(out@);
        let mut j: usize = 0;
        let mut at: Option<usize> = None;
        while j < out.len()
            invariant
                j <= out@.len(),
                before == names_views(out@),
                match at {
                    Some(k) => k < out@.len() && out@[k as int].0@ == tip@,
                    None => forall|k: int| 0 <= k < j ==> out@[k].0@ != tip@,
                },
            decreases out@.len() - j,
        {
            if at.is_none() && chars_eq(&chars_of(out[j].0.as_str()), &tip) {
                at = Some(j);
            }
            j = j + 1;
        }
        let name = tips[i].0.clone();
        let ghost nv = name@;
        assert(tv[i as int] == (tips@[i as int].0@, tip@));
        match at {
            Some(k) => {
                let ghost old_out = out@;
                let mut entry = out.remove(k);
                let ghost old_names = texts(entry.1@);
                entry.1.push(name);
                let ghost new_names = texts(entry.1@);
                let ghost new_entry = entry;
                assert(new_names =~= old_names.push(nv));
                out.insert(k, entry);
                proof {
                    assert(out@ =~= old_out.update(k as int, new_entry));
                    assert(old_names == before[k as int].1);
                    assert(names_views(out@) =~= before.update(k as int, (tip@, new_names)));
                    assert forall|a: int, b: int| 0 <= a < b < out@.len() implies out@[a].0@
                        != out@[b].0@ by {
                        assert(before[a].0 != before[b].0);
                    }
                    assert forall|c: Seq<char>| #[trigger] names_at(names_views(out@), c)
                        == names_with_tip(tv, c, i + 1) by {
                        assert(names_at(before, c) == names_with_tip(tv, c, i as int));
                        if c == tip@ {
                            assert(names_with_tip(tv, c, i + 1) =~= names_with_tip(tv, c, i as int).push(nv));
                        } else {
                            assert(names_with_tip(tv, c, i + 1) =~= names_with_tip(tv, c, i as int));
                        }
                        if c == tip@ {
                            lemma_lookup_unique(before, c, k as int);
                            lemma_lookup_unique(names_views(out@), c, k as int);
                        } else {
                            assert(lookup(names_views(out@), c) == lookup(before, c)) by {
                                lemma_lookup_same_but(before, k as int, (tip@, new_names), c);
                            }
                        }
                    }
                }
            },
            None => {
                let mut names: Vec<String> = Vec::new();
                names.push(name);
                assert(texts(names@) =~= seq![nv]);
                let ghost entry_v = (tip@, seq![nv]);
                out.push((string_of(&tip), names));
                proof {
                    assert(names_views(out@) =~= before.push(entry_v));
                    assert forall|c: Seq<char>| #[trigger] names_at(names_views(out@), c)
                        == names_with_tip(tv, c, i + 1) by {
                        assert(names_at(before, c) == names_with_tip(tv, c, i as int));
                        if c == tip@ {
                            assert(names_with_tip(tv, c, i + 1) =~= names_with_tip(tv, c, i as int).push(nv));
                        } else {
                            assert(names_with_tip(tv, c, i + 1) =~= names_with_tip(tv, c, i as int));
                        }
                        if c == tip@ {
                            lemma_lookup_absent(before, c);
                            lemma_lookup_unique(names_views(out@), c, before.len() as int);
                            assert(names_with_tip(tv, c, i as int) == names_at(before, c));
                        } else {
                            lemma_lookup_push_other(before, entry_v, c);
                        }
                    }
                }
            },
        }
        i = i + 1;
    }
    let ghost hv = match head_commit {
        Some(h) => Some(h@),
        None => None,
    };
    match head_commit {
        None => {
            assert forall|c: Seq<char>| #[trigger] names_at(names_views(out@), c) == names_for(
                tv,
                hv,
                c,
            ) by {
                assert(names_with_tip(tv, c, tips@.len() as int) + Seq::<Seq<char>>::empty()
                    =~= names_with_tip(tv, c, tips@.len() as int));
            }
            out
        },
        Some(h) => {
            let hc = chars_of(h);
            let ghost before = names_views(out@);
            let mut j: usize = 0;
            let mut at: Option<usize> = None;
            while j < out.len()
                invariant
                    j <= out@.len(),
                    before == names_views(out@),
                    match at {
                        Some(k) => k < out@.len() && out@[k as int].0@ == hc@,
                        None => forall|k: int| 0 <= k < j ==> out@[k].0@ != hc@,
                    },
                decreases out@.len() - j,
            {
                if at.is_none() && chars_eq(&chars_of(out[j].0.as_str()), &hc) {
                    at = Some(j);
                }
                j = j + 1;
            }
            let ghost mv = head_marker();
            match at {
                Some(k) => {
                    let ghost old_out = out@;
                    let mut entry = out.remove(k);
                    let ghost old_names = texts(entry.1@);
                    entry.1.push(String::from_str("[HEAD]"));
                    let ghost new_names = texts(entry.1@);
                    let ghost new_entry = entry;
                    assert(new_names =~= old_names.push(mv));
                    out.insert(k, entry);
                    proof {
                        assert(out@ =~= old_out.update(k as int, new_entry));
                        assert(old_names == before[k as int].1);
                        assert(names_views(out@) =~= before.update(k as int, (hc@, new_names)));
                        assert forall|a: int, b: int| 0 <= a < b < out@.len() implies out@[a].0@
                            != out@[b].0@ by {
                            assert(before[a].0 != before[b].0);
                        }
                        assert forall|c: Seq<char>| #[trigger] names_at(names_views(out@), c)
                            == names_for(tv, hv, c) by {
                            assert(names_at(before, c) == names_with_tip(tv, c, tips@.len() as int));
                            if c == hc@ {
                                assert(names_for(tv, hv, c) =~= names_with_tip(tv, c, tips@.len() as int).push(mv));
                            }
                            if c == hc@ {
                                lemma_lookup_unique(before, c, k as int);
                                lemma_lookup_unique(names_views(out@), c, k as int);
                            } else {
                                lemma_lookup_same_but(before, k as int, (hc@, new_names), c);
                                assert(names_with_tip(tv, c, tips@.len() as int) + Seq::<
                                    Seq<char>,
                                >::empty() =~= names_with_tip(tv, c, tips@.len() as int));
                            }
                        }
                    }
                    out
                },
                None => {
                    let mut names: Vec<String> = Vec::new();
                    names.push(String::from_str("[HEAD]"));
                    assert(texts(names@) =~= seq![mv]);
                    let ghost entry_v = (hc@, seq![mv]);
                    out.push((string_of(&hc), names));
                    proof {
                        assert(names_views(out@) =~= before.push(entry_v));
                        assert forall|c: Seq<char>| #[trigger] names_at(names_views(out@), c)
                            == names_for(tv, hv, c) by {
                            assert(names_at(before, c) == names_with_tip(tv, c, tips@.len() as int));
                            if c == hc@ {
                                assert(names_for(tv, hv, c) =~= names_with_tip(tv, c, tips@.len() as int).push(mv));
                            }
                            if c == hc@ {
                                lemma_lookup_absent(before, c);
                                lemma_lookup_unique(names_views(out@), c, before.len() as int);
                                assert(names_with_tip(tv, c, tips@.len() as int) =~= names_at(before, c));
                            } else {
                                lemma_lookup_push_other(before, entry_v, c);
                                assert(names_with_tip(tv, c, tips@.len() as int) + Seq::<
                                    Seq<char>,
                                >::empty() =~= names_with_tip(tv, c, tips@.len() as int));
                            }
                        }
                    }
                    out
                },
            }
        },
    }
}

proof fn lemma_lookup_same_but<V>(v: Seq<(Seq<char>, V)>, k: int, e: (Seq<char>, V), c: Seq<char>)
    requires
        0 <= k < v.len(),
        v[k].0 == e.0,
        c != e.0,
    ensures
        lookup(v.update(k, e), c) == lookup(v, c),
    decreases v.len(),
{
    if k > 0 {
        assert(v.update(k, e).skip(1) =~= v.skip(1).update(k - 1, e));
        lemma_lookup_same_but(v.skip(1), k - 1, e, c);
    } else {
        assert(v.update(k, e).skip(1) =~= v.skip(1));
    }
}

proof fn lemma_lookup_push_other<V>(v: Seq<(Seq<char>, V)>, e: (Seq<char>, V), c: Seq<char>)
    requires
        c != e.0,
    ensures
        lookup(v.push(e), c) == lookup(v, c),
    decreases v.len(),
{
    let w = v.push(e);
    if v.len() > 0 {
        assert(w[0] == v[0]);
        assert(w.skip(1) =~= v.skip(1).push(e));
        lemma_lookup_push_other(v.skip(1), e, c);
        if v[0].0 != c {
            assert(lookup(w, c) == lookup(w.skip(1), c));
            assert(lookup(v, c) == lookup(v.skip(1), c));
        }
    } else {
        assert(w[0] == e);
        assert(w.skip(1) =~= Seq::<(Seq<char>, V)>::empty());
        assert(lookup(w, c) == lookup(w.skip(1), c));
    }
}

/// A commit that a rebase step refers to.
#[derive(Debug)]
pub enum Tip {
    /// A commit or branch known before the rebase starts.
    Named(String),
    /// The new tip of the branch, as `git rev-parse` reports it right after
    /// that branch was rebased.
    NewTipOf(String),
}

/// One `git` command of a stack rebase.
#[derive(Debug)]
pub enum RebaseStep {
    /// `git rebase <onto> <branch>`, or with an upstream `git rebase --onto
    /// <onto> <upstream> <branch>`.
    Rebase { onto: Tip, upstream: Option<Tip>, branch: String },
    /// `git branch -f <branch> <tip>`.
    Reset { branch: String, tip: Tip },
}

/// A tip as plain values.
pub enum TipView {
    Named(Seq<char>),
    NewTipOf(Seq<char>),
}

/// A step as plain values.
pub enum StepView {
    Rebase { onto: TipView, upstream: Option<TipView>, branch: Seq<char> },
    Reset { branch: Seq<char>, tip: TipView },
}

pub open spec fn tip_view(t: Tip) -> TipView {
    match t {
        Tip::Named(s) => TipView::Named(s@),
        Tip::NewTipOf(s) => TipView::NewTipOf(s@),
    }
}

pub open spec fn step_view(s: RebaseStep) -> StepView {
    match s {
        RebaseStep::Rebase { onto, upstream, branch } => StepView::Rebase {
            onto: tip_view(onto),
            upstream: match upstream {
                Some(u) => Some(tip_view(u)),
                None => None,
            },
            branch: branch@,
        },
        RebaseStep::Reset { branch, tip } => StepView::Reset { branch: branch@, tip: tip_view(tip) },
    }
}

pub open spec fn step_views(v: Seq<RebaseStep>) -> Seq<StepView> {
    v.map_values(|s: RebaseStep| step_view(s))
}

/// The names of the real branches of `bs`: all but the `HEAD` marker.
pub open spec fn rebased_branches(bs: Seq<BranchInfo>) -> Seq<Seq<char>> {
    real_names(bs.map_values(|b: BranchInfo| b.name@))
}

/// Resetting each branch of `names` to `tip`.
pub open spec fn resets(names: Seq<Seq<char>>, tip: TipView) -> Seq<StepView>
    decreases names.len(),
{
    if names.len() == 0 {
        Seq::empty()
    } else {
        resets(names.drop_last(), tip).push(StepView::Reset { branch: names.last(), tip: tip })
    }
}

/// The steps that move the node `n`, whose parent's tip was `old_parent` and
/// is now `new_parent`, and everything above it: a node with branches has its
/// first branch rebased from the old parent onto the new one, its other
/// branches reset to the result, and its children moved after it; a bare
/// commit passes its parent's move on to its children.
pub open spec fn child_plan(n: Node, old_parent: TipView, new_parent: TipView) -> Seq<StepView>
    decreases n,
{
    let bs = rebased_branches(n.branches@);
    if bs.len() > 0 {
        let nt = TipView::NewTipOf(bs[0]);
        seq![StepView::Rebase { onto: new_parent, upstream: Some(old_parent), branch: bs[0] }]
            + resets(bs.skip(1), nt) + children_plan(n.children@, TipView::Named(n.commit@), nt)
    } else {
        children_plan(n.children@, old_parent, new_parent)
    }
}

pub open spec fn children_plan(cs: Seq<Node>, old_parent: TipView, new_parent: TipView) -> Seq<
    StepView,
>
    decreases cs,
{
    if cs.len() == 0 {
        Seq::empty()
    } else {
        children_plan(cs.drop_last(), old_parent, new_parent) + child_plan(
            cs.last(),
            old_parent,
            new_parent,
        )
    }
}

/// The steps that rebase the node `n` and everything above it onto `trunk`:
/// none for a bare commit; else its first branch is rebased onto the trunk,
/// its other branches reset to the result, and its children moved after it.
pub open spec fn stack_plan(trunk: Seq<char>, n: Node) -> Seq<StepView> {
    let bs = rebased_branches(n.branches@);
    if bs.len() > 0 {
        let nt = TipView::NewTipOf(bs[0]);
        seq![StepView::Rebase { onto: TipView::Named(trunk), upstream: None, branch: bs[0] }]
            + resets(bs.skip(1), nt) + children_plan(n.children@, TipView::Named(n.commit@), nt)
    } else {
        Seq::empty()
    }
}

fn real_branch_names(bs: &Vec<BranchInfo>) -> (r: Vec<String>)
    ensures
        texts(r@) == rebased_branches(bs@),
{
    let ghost names = bs@.map_values(|b: BranchInfo| b.name@);
    let mut out: Vec<String> = Vec::new();
    let mut i: usize = 0;
    while i < bs.len()
        invariant
            i <= bs@.len(),
            names == bs@.map_values(|b: BranchInfo| b.name@),
            texts(out@) == real_names(names.take(i as int)),
        decreases bs@.len() - i,
    {
        assert(names.take(i + 1).drop_last() =~= names.take(i as int));
        assert(names.take(i + 1).last() == bs@[i as int].name@);
        if !crate::text::str_is(bs[i].name.as_str(), "[HEAD]") {
            let ghost before = texts(out@);
            let n = bs[i].name.clone();
            out.push(n);
            assert(texts(out@) =~= before.push(bs@[i as int].name@));
        }
        i = i + 1;
    }
    assert(names.take(bs@.len() as int) =~= names);
    out
}

fn copy_tip(t: &Tip) -> (r: Tip)
    ensures
        tip_view(r) == tip_view(*t),
{
    match t {
        Tip::Named(s) => Tip::Named(s.clone()),
        Tip::NewTipOf(s) => Tip::NewTipOf(s.clone()),
    }
}

fn push_resets(steps: &mut Vec<RebaseStep>, names: &Vec<String>, tip: &Tip)
    requires
        names@.len() > 0,
    ensures
        step_views(final(steps)@) == step_views(old(steps)@) + resets(texts(names@).skip(1), tip_view(*tip)),
{
    let ghost start = step_views(steps@);
    let ghost rest = texts(names@).skip(1);
    let mut i: usize = 1;
    assert(rest.take(0) =~= Seq::<Seq<char>>::empty());
    assert(start + resets(Seq::<Seq<char>>::empty(), tip_view(*tip)) =~= start);
    while i < names.len()
        invariant
            1 <= i <= names@.len(),
            rest == texts(names@).skip(1),
            step_views(steps@) == start + resets(rest.take(i - 1), tip_view(*tip)),
        decreases names@.len() - i,
    {
        let ghost before = step_views(steps@);
        let step = RebaseStep::Reset { branch: names[i].clone(), tip: copy_tip(tip) };
        let ghost sv = step_view(step);
        steps.push(step);
        assert(step_views(steps@) =~= before.push(sv));
        assert(rest.take(i as int).drop_last() =~= rest.take(i - 1));
        assert(rest.take(i as int).last() == names@[i as int]@);
        i = i + 1;
    }
    assert(rest.take(names@.len() - 1) =~= rest);
}

fn plan_children(
    cs: &Vec<Node>,
    old_parent: &Tip,
    new_parent: &Tip,
    steps: &mut Vec<RebaseStep>,
)
    ensures
        step_views(final(steps)@) == step_views(old(steps)@) + children_plan(
            cs@,
            tip_view(*old_parent),
            tip_view(*new_parent),
        ),
    decreases cs@,
{
    let ghost start = step_views(steps@);
    let mut i: usize = 0;
    assert(cs@.take(0) =~= Seq::<Node>::empty());
    assert(start + children_plan(Seq::<Node>::empty(), tip_view(*old_parent), tip_view(*new_parent))
        =~= start);
    while i < cs.len()
        invariant
            i <= cs@.len(),
            step_views(steps@) == start + children_plan(
                cs@.take(i as int),
                tip_view(*old_parent),
                tip_view(*new_parent),
            ),
        decreases cs@.len() - i,
    {
        proof {
            assert(decreases_to!(cs@ => cs@[i as int]));
        }
        plan_child(&cs[i], old_parent, new_parent, steps);
        assert(cs@.take(i + 1).drop_last() =~= cs@.take(i as int));
        assert(cs@.take(i + 1).last() == cs@[i as int]);
        i = i + 1;
    }
    assert(cs@.take(cs@.len() as int) =~= cs@);
}

fn plan_child(n: &Node, old_parent: &Tip, new_parent: &Tip, steps: &mut Vec<RebaseStep>)
    ensures
        step_views(final(steps)@) == step_views(old(steps)@) + child_plan(
            *n,
            tip_view(*old_parent),
            tip_view(*new_parent),
        ),
    decreases *n,
{
    let ghost start = step_views(steps@);
    let names = real_branch_names(&n.branches);
    if names.len() > 0 {
        let step = RebaseStep::Rebase {
            onto: copy_tip(new_parent),
            upstream: Some(copy_tip(old_parent)),
            branch: names[0].clone(),
        };
        let ghost sv = step_view(step);
        steps.push(step);
        assert(step_views(steps@) =~= start.push(sv));
        let nt = Tip::NewTipOf(names[0].clone());
        push_resets(steps, &names, &nt);
        let own = Tip::Named(n.commit.clone());
        let ghost mid = step_views(steps@);
        proof {
            assert(decreases_to!(*n => n.children));
        }
        plan_children(&n.children, &own, &nt, steps);
        assert(step_views(steps@) =~= start + child_plan(
            *n,
            tip_view(*old_parent),
            tip_view(*new_parent),
        ));
    } else {
        plan_children(&n.children, old_parent, new_parent, steps);
    }
}

/// Plan the rebase of the stack at `node` onto `trunk`: the `git` commands,
/// in order, with the tips that only the rebase itself reveals named by the
/// branch whose new tip they are.
pub fn rebase_plan(trunk: &str, node: &Node) -> (r: Vec<RebaseStep>)
    ensures
        step_views(r@) == stack_plan(trunk@, *node),
{
    let mut steps: Vec<RebaseStep> = Vec::new();
    let names = real_branch_names(&node.branches);
    if names.len() == 0 {
        assert(step_views(steps@) =~= Seq::<StepView>::empty());
        return steps;
    }
    let step = RebaseStep::Rebase {
        onto: Tip::Named(String::from_str(trunk)),
        upstream: None,
        branch: names[0].clone(),
    };
    let ghost sv = step_view(step);
    steps.push(step);
    assert(step_views(steps@) =~= seq![sv]);
    let nt = Tip::NewTipOf(names[0].clone());
    push_resets(&mut steps, &names, &nt);
    let own = Tip::Named(node.commit.clone());
    plan_children(&node.children, &own, &nt, &mut steps);
    assert(step_views(steps@) =~= stack_plan(trunk@, *node));
    steps
}

} // verus!
