//! Mermaid diagram output of a module graph.
use vstd::prelude::*;
use vstd::relations::{sorted_by, total_ordering};
use vstd::seq_lib::lemma_sorted_unique;
use crate::dgmod::graph::{EdgeKind, ModuleGraph, ModuleKind};
use crate::order::{
    lemma_lex_antisym, lemma_lex_refl, lemma_lex_total, lemma_lex_total_ordering, lemma_lex_trans,
    lex_le, lex_le_chars, lex_order, sort_strings,
};
use crate::text::{append_chars, chars_eq, chars_of, concat, string_of};

verus! {

broadcast use {vstd::multiset::group_multiset_axioms, vstd::seq_lib::group_to_multiset_ensures};

/// `path` with every `::` replaced by `_`, scanning from the left (a Mermaid
/// node ID may not hold `::`).
pub open spec fn sanitized_id(s: Seq<char>) -> Seq<char>
    decreases s.len(),
{
    if s.len() == 0 {
        Seq::empty()
    } else if s.len() >= 2 && s[0] == ':' && s[1] == ':' {
        seq!['_'] + sanitized_id(s.skip(2))
    } else {
        seq![s[0]] + sanitized_id(s.skip(1))
    }
}

/// Sanitize a module path for use as a Mermaid node ID.
pub fn sanitize_id(path: &[char]) -> (r: Vec<char>)
    ensures
        r@ == sanitized_id(path@),
{
    let mut out: Vec<char> = Vec::new();
    let mut i: usize = 0;
    assert(path@.skip(0) =~= path@);
    while i < path.len()
        invariant
            i <= path@.len(),
            sanitized_id(path@) == out@ + sanitized_id(path@.skip(i as int)),
        decreases path@.len() - i,
    {
        let ghost rest = path@.skip(i as int);
        if i + 1 < path.len() && path[i] == ':' && path[i + 1] == ':' {
            assert(rest.skip(2) =~= path@.skip(i + 2));
            out.push('_');
            i = i + 2;
        } else {
            assert(rest.skip(1) =~= path@.skip(i + 1));
            out.push(path[i]);
            i = i + 1;
        }
        assert(sanitized_id(path@) =~= out@ + sanitized_id(path@.skip(i as int)));
    }
    assert(sanitized_id(path@.skip(i as int)) =~= Seq::<char>::empty());
    assert(out@ + Seq::<char>::empty() =~= out@);
    out
}

/// The rank of an edge kind in the order of kinds.
pub open spec fn kind_rank(k: EdgeKind) -> int {
    match k {
        EdgeKind::ModDeclaration => 0,
        EdgeKind::UseImport => 1,
    }
}

/// `a <= b` in the order of edges: by source, then target, then kind.
pub open spec fn edge_le(a: (Seq<char>, Seq<char>, EdgeKind), b: (Seq<char>, Seq<char>, EdgeKind)) -> bool {
    if a.0 != b.0 {
        lex_le(a.0, b.0)
    } else if a.1 != b.1 {
        lex_le(a.1, b.1)
    } else {
        kind_rank(a.2) <= kind_rank(b.2)
    }
}

/// The order of edges as a relation.
pub open spec fn edge_order() -> spec_fn(
    (Seq<char>, Seq<char>, EdgeKind),
    (Seq<char>, Seq<char>, EdgeKind),
) -> bool {
    |a: (Seq<char>, Seq<char>, EdgeKind), b: (Seq<char>, Seq<char>, EdgeKind)| edge_le(a, b)
}

proof fn lemma_edge_le_total(a: (Seq<char>, Seq<char>, EdgeKind), b: (Seq<char>, Seq<char>, EdgeKind))
    ensures
        edge_le(a, b) || edge_le(b, a),
{
    lemma_lex_total(a.0, b.0);
    lemma_lex_total(a.1, b.1);
}

/// The order of edges is total.
pub proof fn lemma_edge_total_ordering()
    ensures
        total_ordering(edge_order()),
{
    let r = edge_order();
    assert forall|x: (Seq<char>, Seq<char>, EdgeKind)| #[trigger] r(x, x) by {}
    assert forall|x: (Seq<char>, Seq<char>, EdgeKind), y: (Seq<char>, Seq<char>, EdgeKind)| #[trigger]
        r(x, y) && #[trigger] r(y, x) implies x == y by {
        if x.0 != y.0 {
            lemma_lex_antisym(x.0, y.0);
        } else if x.1 != y.1 {
            lemma_lex_antisym(x.1, y.1);
        } else {
            assert(x.2 == y.2);
        }
    }
    assert forall|
        x: (Seq<char>, Seq<char>, EdgeKind),
        y: (Seq<char>, Seq<char>, EdgeKind),
        z: (Seq<char>, Seq<char>, EdgeKind),
    | #[trigger] r(x, y) && #[trigger] r(y, z) implies r(x, z) by {
        if x.0 != y.0 && y.0 != z.0 {
            lemma_lex_trans(x.0, y.0, z.0);
            if x.0 == z.0 {
                lemma_lex_antisym(x.0, y.0);
            }
        } else if x.0 == y.0 && y.0 == z.0 {
            if x.1 != y.1 && y.1 != z.1 {
                lemma_lex_trans(x.1, y.1, z.1);
                if x.1 == z.1 {
                    lemma_lex_antisym(x.1, y.1);
                }
            }
        }
    }
    assert forall|x: (Seq<char>, Seq<char>, EdgeKind), y: (Seq<char>, Seq<char>, EdgeKind)| #[trigger]
        r(x, y) || #[trigger] r(y, x) by {
        lemma_edge_le_total(x, y);
    }
}

/// An edge as text keys.
pub type EdgeKey = (Vec<char>, Vec<char>, EdgeKind);

/// An edge key as plain values.
pub open spec fn key_view(k: EdgeKey) -> (Seq<char>, Seq<char>, EdgeKind) {
    (k.0@, k.1@, k.2)
}

fn edge_le_exec(a: &EdgeKey, b: &EdgeKey) -> (r: bool)
    ensures
        r == edge_le(key_view(*a), key_view(*b)),
{
    if !chars_eq(&a.0, &b.0) {
        lex_le_chars(&a.0, &b.0)
    } else if !chars_eq(&a.1, &b.1) {
        lex_le_chars(&a.1, &b.1)
    } else {
        let ra: u8 = match a.2 {
            EdgeKind::ModDeclaration => 0,
            EdgeKind::UseImport => 1,
        };
        let rb: u8 = match b.2 {
            EdgeKind::ModDeclaration => 0,
            EdgeKind::UseImport => 1,
        };
        ra <= rb
    }
}

/// `v` sorted in the order of edges.
pub fn sort_edges(v: Vec<EdgeKey>) -> (r: Vec<EdgeKey>)
    ensures
        r@.map_values(|k: EdgeKey| key_view(k)) == v@.map_values(|k: EdgeKey| key_view(k)).sort_by(
            edge_order(),
        ),
{
    let ghost input = v@.map_values(|k: EdgeKey| key_view(k));
    let mut out: Vec<EdgeKey> = Vec::new();
    let mut src = v;
    proof {
        lemma_edge_total_ordering();
        assert(out@.map_values(|k: EdgeKey| key_view(k)) =~= Seq::<
            (Seq<char>, Seq<char>, EdgeKind),
        >::empty());
    }
    while src.len() > 0
        invariant
            total_ordering(edge_order()),
            input == v@.map_values(|k: EdgeKey| key_view(k)),
            sorted_by(out@.map_values(|k: EdgeKey| key_view(k)), edge_order()),
            out@.map_values(|k: EdgeKey| key_view(k)).to_multiset().add(
                src@.map_values(|k: EdgeKey| key_view(k)).to_multiset(),
            ) == input.to_multiset(),
        decreases src@.len(),
    {
        let ghost before_src = src@.map_values(|k: EdgeKey| key_view(k));
        let x = src.pop().unwrap();
        let ghost xv = key_view(x);
        proof {
            assert(before_src =~= src@.map_values(|k: EdgeKey| key_view(k)).push(xv));
            vstd::seq_lib::lemma_multiset_commutative(
                src@.map_values(|k: EdgeKey| key_view(k)),
                seq![xv],
            );
        }
        let ghost ov = out@.map_values(|k: EdgeKey| key_view(k));
        let mut p: usize = 0;
        while p < out.len() && edge_le_exec(&out[p], &x)
            invariant
                ov == out@.map_values(|k: EdgeKey| key_view(k)),
                xv == key_view(x),
                p <= out@.len(),
                forall|k: int| 0 <= k < p ==> edge_le(#[trigger] ov[k], xv),
            decreases out@.len() - p,
        {
            p = p + 1;
        }
        out.insert(p, x);
        proof {
            let nv = out@.map_values(|k: EdgeKey| key_view(k));
            assert(nv =~= ov.insert(p as int, xv));
            let r = edge_order();
            assert forall|a: int, b: int| 0 <= a < b < nv.len() implies #[trigger] r(
                nv[a],
                nv[b],
            ) by {
                if b < p {
                    assert(r(ov[a], ov[b]));
                } else if b == p {
                    assert(edge_le(ov[a], xv));
                } else if a < p {
                    assert(edge_le(ov[a], xv));
                    assert(!edge_le(ov[p as int], xv));
                    lemma_edge_le_total(ov[p as int], xv);
                    assert(r(xv, ov[p as int]));
                    if p < b - 1 {
                        assert(r(ov[p as int], ov[b - 1]));
                    }
                    assert(r(xv, ov[b - 1]));
                } else if a == p {
                    assert(!edge_le(ov[p as int], xv));
                    lemma_edge_le_total(ov[p as int], xv);
                    assert(r(xv, ov[p as int]));
                    if p < b - 1 {
                        assert(r(ov[p as int], ov[b - 1]));
                    }
                } else {
                    assert(r(ov[a - 1], ov[b - 1]));
                }
            }
            vstd::seq_lib::lemma_multiset_commutative(ov.take(p as int), ov.skip(p as int));
            assert(ov =~= ov.take(p as int) + ov.skip(p as int));
            assert(nv =~= ov.take(p as int) + (seq![xv] + ov.skip(p as int)));
            vstd::seq_lib::lemma_multiset_commutative(ov.take(p as int), seq![xv] + ov.skip(p as int));
            vstd::seq_lib::lemma_multiset_commutative(seq![xv], ov.skip(p as int));
            vstd::seq_lib::lemma_multiset_commutative(ov, seq![xv]);
            assert(nv.to_multiset() =~= ov.to_multiset().add(seq![xv].to_multiset()));
        }
    }
    proof {
        let ov = out@.map_values(|k: EdgeKey| key_view(k));
        assert(src@.map_values(|k: EdgeKey| key_view(k)) =~= Seq::<
            (Seq<char>, Seq<char>, EdgeKind),
        >::empty());
        assert(ov.to_multiset() =~= input.to_multiset());
        input.lemma_sort_by_ensures(edge_order());
        lemma_sorted_unique(ov, input.sort_by(edge_order()), edge_order());
    }
    out
}

/// The node declaration of the module at `path`.
pub open spec fn node_line(path: Seq<char>) -> Seq<char> {
    "    "@ + sanitized_id(path) + "[\""@ + path + "\"]\n"@
}

/// The arrow of an edge: solid for `mod` declarations, dashed for imports.
pub open spec fn arrow(k: EdgeKind) -> Seq<char> {
    match k {
        EdgeKind::ModDeclaration => "-->"@,
        EdgeKind::UseImport => "-.->"@,
    }
}

/// The declaration of an edge.
pub open spec fn edge_line(e: (Seq<char>, Seq<char>, EdgeKind)) -> Seq<char> {
    "    "@ + sanitized_id(e.0) + " "@ + arrow(e.2) + " "@ + sanitized_id(e.1) + "\n"@
}

/// The Mermaid flowchart of a graph with the given module paths and edges:
/// the header, a node per module in the order of paths, a blank line, and an
/// edge per edge in the order of edges.
pub open spec fn mermaid_text(paths: Seq<Seq<char>>, edges: Seq<(Seq<char>, Seq<char>, EdgeKind)>) -> Seq<
    char,
> {
    "flowchart TD\n"@ + concat(paths.sort_by(lex_order()).map_values(|p: Seq<char>| node_line(p)))
        + "\n"@ + concat(
        edges.sort_by(edge_order()).map_values(|e: (Seq<char>, Seq<char>, EdgeKind)| edge_line(e)),
    )
}

/// Appends the node declarations of `paths`, already sorted.
fn emit_nodes(paths: &Vec<Vec<char>>, output: &mut Vec<char>)
    ensures
        final(output)@ == old(output)@ + concat(
            paths@.map_values(|p: Vec<char>| p@).map_values(|p: Seq<char>| node_line(p)),
        ),
{
    let ghost lines = paths@.map_values(|p: Vec<char>| p@).map_values(|p: Seq<char>| node_line(p));
    let mut i: usize = 0;
    while i < paths.len()
        invariant
            i <= paths@.len(),
            lines == paths@.map_values(|p: Vec<char>| p@).map_values(|p: Seq<char>| node_line(p)),
            output@ == old(output)@ + concat(lines.take(i as int)),
        decreases paths@.len() - i,
    {
        let path = &paths[i];
        append_chars(output, &chars_of("    "));
        append_chars(output, &sanitize_id(path));
        append_chars(output, &chars_of("[\""));
        append_chars(output, path);
        append_chars(output, &chars_of("\"]\n"));
        assert(lines.take(i + 1).drop_last() =~= lines.take(i as int));
        assert(lines.take(i + 1).last() == node_line(path@));
        i = i + 1;
    }
    assert(lines.take(paths@.len() as int) =~= lines);
}

/// Appends the declarations of `edges`, already sorted.
fn emit_edges(edges: &Vec<EdgeKey>, output: &mut Vec<char>)
    ensures
        final(output)@ == old(output)@ + concat(
            edges@.map_values(|k: EdgeKey| key_view(k)).map_values(
                |e: (Seq<char>, Seq<char>, EdgeKind)| edge_line(e),
            ),
        ),
{
    let ghost lines = edges@.map_values(|k: EdgeKey| key_view(k)).map_values(
        |e: (Seq<char>, Seq<char>, EdgeKind)| edge_line(e),
    );
    let mut i: usize = 0;
    while i < edges.len()
        invariant
            i <= edges@.len(),
            lines == edges@.map_values(|k: EdgeKey| key_view(k)).map_values(
                |e: (Seq<char>, Seq<char>, EdgeKind)| edge_line(e),
            ),
            output@ == old(output)@ + concat(lines.take(i as int)),
        decreases edges@.len() - i,
    {
        let e = &edges[i];
        append_chars(output, &chars_of("    "));
        append_chars(output, &sanitize_id(&e.0));
        append_chars(output, &chars_of(" "));
        match e.2 {
            EdgeKind::ModDeclaration => append_chars(output, &chars_of("-->")),
            EdgeKind::UseImport => append_chars(output, &chars_of("-.->")),
        }
        append_chars(output, &chars_of(" "));
        append_chars(output, &sanitize_id(&e.1));
        append_chars(output, &chars_of("\n"));
        assert(lines.take(i + 1).drop_last() =~= lines.take(i as int));
        assert(lines.take(i + 1).last() == edge_line(key_view(*e)));
        i = i + 1;
    }
    assert(lines.take(edges@.len() as int) =~= lines);
}

impl ModuleGraph {
    /// The module paths of the graph.
    pub open spec fn path_list(&self) -> Seq<Seq<char>> {
        self.module_list().map_values(|m: (Seq<char>, Seq<char>, ModuleKind)| m.0)
    }

    /// Convert the graph to Mermaid flowchart syntax.
    pub fn to_mermaid(&self) -> (r: String)
        ensures
            r@ == mermaid_text(self.path_list(), self.edge_list()),
    {
        let mods = self.modules();
        let mut paths: Vec<Vec<char>> = Vec::new();
        let mut i: usize = 0;
        while i < mods.len()
            invariant
                i <= mods@.len(),
                mods@.map_values(|m: crate::dgmod::graph::Module| crate::dgmod::graph::module_view(m))
                    == self.module_list(),
                paths@.map_values(|p: Vec<char>| p@) == self.path_list().take(i as int),
            decreases mods@.len() - i,
        {
            let ghost before = paths@.map_values(|p: Vec<char>| p@);
            let p = chars_of(mods[i].path.as_str());
            let ghost pv = p@;
            paths.push(p);
            assert(paths@.map_values(|p: Vec<char>| p@) =~= before.push(pv));
            assert(self.module_list()[i as int].0 == mods@[i as int].path@);
            assert(paths@.map_values(|p: Vec<char>| p@) =~= self.path_list().take(i + 1));
            i = i + 1;
        }
        assert(self.path_list().take(mods@.len() as int) =~= self.path_list());
        let sorted_paths = sort_strings(paths);
        let es = self.edges();
        let mut keys: Vec<EdgeKey> = Vec::new();
        let mut j: usize = 0;
        while j < es.len()
            invariant
                j <= es@.len(),
                es@.map_values(|e: crate::dgmod::graph::Edge| crate::dgmod::graph::edge_view(e))
                    == self.edge_list(),
                keys@.map_values(|k: EdgeKey| key_view(k)) == self.edge_list().take(j as int),
            decreases es@.len() - j,
        {
            let e = &es[j];
            let k: EdgeKey = (chars_of(e.from.as_str()), chars_of(e.to.as_str()), e.kind);
            let ghost kv = key_view(k);
            let ghost before = keys@.map_values(|k: EdgeKey| key_view(k));
            keys.push(k);
            assert(keys@.map_values(|k: EdgeKey| key_view(k)) =~= before.push(kv));
            assert(self.edge_list()[j as int] == crate::dgmod::graph::edge_view(es@[j as int]));
            assert(keys@.map_values(|k: EdgeKey| key_view(k)) =~= self.edge_list().take(j + 1));
            j = j + 1;
        }
        assert(self.edge_list().take(es@.len() as int) =~= self.edge_list());
        let sorted_edges = sort_edges(keys);
        let mut out = chars_of("flowchart TD\n");
        emit_nodes(&sorted_paths, &mut out);
        append_chars(&mut out, &chars_of("\n"));
        emit_edges(&sorted_edges, &mut out);
        string_of(&out)
    }
}

} // verus!
