//! Building a crate's module graph from its module tree.
use vstd::prelude::*;
use crate::dgmod::graph::{
    add_edge_to, add_mod, has_path, module_view, child_of, EdgeKind, Module, ModuleGraph, ModuleKind, ModulePath,
};
use crate::dgmod::resolver::{
    internal, is_internal_path, paths_of, resolve_use_target, use_target,
};
use crate::dgmod::use_tree::{extract_use_paths, path_texts, paths_in, UseTree};
use crate::ffbm::db::texts;

verus! {

/// A module of the crate as read from its source: its name (unused for the
/// root), the file holding it, whether it has a file of its own or is inline,
/// the trees of its `use` items, and its `mod` declarations in order.
#[derive(Debug)]
pub struct SourceModule {
    pub name: String,
    pub source_file: String,
    pub kind: ModuleKind,
    pub uses: Vec<UseTree>,
    pub children: Vec<SourceModule>,
}

/// `ms` with each module of `new` added in turn.
pub open spec fn add_mods(
    ms: Seq<(Seq<char>, Seq<char>, ModuleKind)>,
    new: Seq<(Seq<char>, Seq<char>, ModuleKind)>,
) -> Seq<(Seq<char>, Seq<char>, ModuleKind)>
    decreases new.len(),
{
    if new.len() == 0 {
        ms
    } else {
        add_mod(add_mods(ms, new.drop_last()), new.last())
    }
}

/// `es` with each edge of `new` added in turn.
pub open spec fn add_edges(
    es: Seq<(Seq<char>, Seq<char>, EdgeKind)>,
    new: Seq<(Seq<char>, Seq<char>, EdgeKind)>,
) -> Seq<(Seq<char>, Seq<char>, EdgeKind)>
    decreases new.len(),
{
    if new.len() == 0 {
        es
    } else {
        add_edge_to(add_edges(es, new.drop_last()), new.last())
    }
}

proof fn lemma_add_mods_concat(
    ms: Seq<(Seq<char>, Seq<char>, ModuleKind)>,
    a: Seq<(Seq<char>, Seq<char>, ModuleKind)>,
    b: Seq<(Seq<char>, Seq<char>, ModuleKind)>,
)
    ensures
        add_mods(ms, a + b) == add_mods(add_mods(ms, a), b),
    decreases b.len(),
{
    if b.len() == 0 {
        assert(a + b =~= a);
    } else {
        lemma_add_mods_concat(ms, a, b.drop_last());
        assert((a + b).drop_last() =~= a + b.drop_last());
    }
}

proof fn lemma_add_edges_concat(
    es: Seq<(Seq<char>, Seq<char>, EdgeKind)>,
    a: Seq<(Seq<char>, Seq<char>, EdgeKind)>,
    b: Seq<(Seq<char>, Seq<char>, EdgeKind)>,
)
    ensures
        add_edges(es, a + b) == add_edges(add_edges(es, a), b),
    decreases b.len(),
{
    if b.len() == 0 {
        assert(a + b =~= a);
    } else {
        lemma_add_edges_concat(es, a, b.drop_last());
        assert((a + b).drop_last() =~= a + b.drop_last());
    }
}

/// The modules declared below `m` (at `path`), in the order they are found:
/// each child, then the modules below it.
pub open spec fn decl_mods(m: SourceModule, path: Seq<char>) -> Seq<(Seq<char>, Seq<char>, ModuleKind)>
    decreases m,
{
    decl_mods_list(m.children@, path)
}

pub open spec fn decl_mods_list(cs: Seq<SourceModule>, path: Seq<char>) -> Seq<
    (Seq<char>, Seq<char>, ModuleKind),
>
    decreases cs,
{
    if cs.len() == 0 {
        Seq::empty()
    } else {
        let c = cs.last();
        let cp = child_of(path, c.name@);
        decl_mods_list(cs.drop_last(), path) + seq![(cp, c.source_file@, c.kind)] + decl_mods(c, cp)
    }
}

/// The `mod` declaration edges below `m` (at `path`), in the order found.
pub open spec fn decl_edges(m: SourceModule, path: Seq<char>) -> Seq<(Seq<char>, Seq<char>, EdgeKind)>
    decreases m,
{
    decl_edges_list(m.children@, path)
}

pub open spec fn decl_edges_list(cs: Seq<SourceModule>, path: Seq<char>) -> Seq<
    (Seq<char>, Seq<char>, EdgeKind),
>
    decreases cs,
{
    if cs.len() == 0 {
        Seq::empty()
    } else {
        let c = cs.last();
        let cp = child_of(path, c.name@);
        decl_edges_list(cs.drop_last(), path) + seq![(path, cp, EdgeKind::ModDeclaration)]
            + decl_edges(c, cp)
    }
}

/// The modules below `m` (at `path`) with their paths, each after the modules
/// below it (the order in which their `use` items are read).
pub open spec fn post_order_list(cs: Seq<SourceModule>, path: Seq<char>) -> Seq<
    (Seq<char>, SourceModule),
>
    decreases cs,
{
    if cs.len() == 0 {
        Seq::empty()
    } else {
        let c = cs.last();
        let cp = child_of(path, c.name@);
        post_order_list(cs.drop_last(), path) + post_order_list(c.children@, cp) + seq![(cp, c)]
    }
}

/// The `use` edges one import path list gives the module at `path`.
pub open spec fn path_edges(path: Seq<char>, ps: Seq<Seq<Seq<char>>>, known: Seq<Seq<char>>) -> Seq<
    (Seq<char>, Seq<char>, EdgeKind),
>
    decreases ps.len(),
{
    if ps.len() == 0 {
        Seq::empty()
    } else {
        path_edges(path, ps.drop_last(), known) + if internal(ps.last()) {
            match use_target(ps.last(), path, known) {
                Some(t) => seq![(path, t, EdgeKind::UseImport)],
                None => Seq::empty(),
            }
        } else {
            Seq::empty()
        }
    }
}

/// The `use` edges of the module at `path` with `use` trees `uses`.
pub open spec fn use_edges(path: Seq<char>, uses: Seq<UseTree>, known: Seq<Seq<char>>) -> Seq<
    (Seq<char>, Seq<char>, EdgeKind),
>
    decreases uses.len(),
{
    if uses.len() == 0 {
        Seq::empty()
    } else {
        use_edges(path, uses.drop_last(), known) + path_edges(
            path,
            paths_in(uses.last(), Seq::empty()),
            known,
        )
    }
}

/// The `use` edges of each listed module, in order.
pub open spec fn all_use_edges(ms: Seq<(Seq<char>, SourceModule)>, known: Seq<Seq<char>>) -> Seq<
    (Seq<char>, Seq<char>, EdgeKind),
>
    decreases ms.len(),
{
    if ms.len() == 0 {
        Seq::empty()
    } else {
        all_use_edges(ms.drop_last(), known) + use_edges(
            ms.last().0,
            ms.last().1.uses@,
            known,
        )
    }
}

/// The modules of the crate whose module tree is `root`: the root first, then
/// every declared module in the order found.
pub open spec fn crate_modules(root: SourceModule) -> Seq<(Seq<char>, Seq<char>, ModuleKind)> {
    add_mods(
        Seq::empty(),
        seq![("crate"@, root.source_file@, ModuleKind::Root)] + decl_mods(root, "crate"@),
    )
}

/// The edges of the crate whose module tree is `root`: every `mod`
/// declaration, then the `use` edges of every module, the deepest modules'
/// first and the root's last; each edge once.
pub open spec fn crate_edges(root: SourceModule) -> Seq<(Seq<char>, Seq<char>, EdgeKind)> {
    let known = crate_modules(root).map_values(|m: (Seq<char>, Seq<char>, ModuleKind)| m.0);
    add_edges(
        Seq::empty(),
        decl_edges(root, "crate"@) + all_use_edges(
            post_order_list(root.children@, "crate"@) + seq![("crate"@, root)],
            known,
        ),
    )
}

/// Add edges for the use statements of the module at `current`.
pub fn add_use_edges(
    current: &ModulePath,
    uses: &Vec<UseTree>,
    known_modules: &Vec<ModulePath>,
    graph: &mut ModuleGraph,
)
    requires
        old(graph).wf(),
    ensures
        final(graph).wf(),
        final(graph).name() == old(graph).name(),
        final(graph).module_list() == old(graph).module_list(),
        final(graph).edge_list() == add_edges(
            old(graph).edge_list(),
            use_edges(current@, uses@, paths_of(known_modules@)),
        ),
{
    let ghost known = paths_of(known_modules@);
    let mut u: usize = 0;
    while u < uses.len()
        invariant
            u <= uses@.len(),
            known == paths_of(known_modules@),
            graph.wf(),
            graph.name() == old(graph).name(),
            graph.module_list() == old(graph).module_list(),
            graph.edge_list() == add_edges(
                old(graph).edge_list(),
                use_edges(current@, uses@.take(u as int), known),
            ),
        decreases uses@.len() - u,
    {
        let paths = extract_use_paths(&uses[u]);
        let ghost ps = path_texts(paths@);
        let ghost start = graph.edge_list();
        let mut k: usize = 0;
        while k < paths.len()
            invariant
                k <= paths@.len(),
                ps == path_texts(paths@),
                known == paths_of(known_modules@),
                graph.wf(),
                graph.name() == old(graph).name(),
                graph.module_list() == old(graph).module_list(),
                graph.edge_list() == add_edges(start, path_edges(current@, ps.take(k as int), known)),
            decreases paths@.len() - k,
        {
            let segments = &paths[k];
            assert(ps.take(k + 1).drop_last() =~= ps.take(k as int));
            assert(ps.take(k + 1).last() == texts(segments@));
            let ghost before = path_edges(current@, ps.take(k as int), known);
            if is_internal_path(segments.as_slice()) {
                let target = resolve_use_target(segments.as_slice(), current, known_modules);
                match target {
                    Some(t) => {
                        let ghost tv = t@;
                        graph.add_edge(current.copy(), t, EdgeKind::UseImport);
                        assert(path_edges(current@, ps.take(k + 1), known) =~= before.push(
                            (current@, tv, EdgeKind::UseImport),
                        ));
                        assert(before.push((current@, tv, EdgeKind::UseImport)).drop_last()
                            =~= before);
                    },
                    None => {
                        assert(path_edges(current@, ps.take(k + 1), known) =~= before);
                    },
                }
            } else {
                assert(path_edges(current@, ps.take(k + 1), known) =~= before);
            }
            k = k + 1;
        }
        proof {
            assert(ps.take(paths@.len() as int) =~= ps);
            let t = uses@.take(u + 1);
            assert(t.drop_last() =~= uses@.take(u as int));
            assert(t.last() == uses@[u as int]);
            lemma_add_edges_concat(
                old(graph).edge_list(),
                use_edges(current@, uses@.take(u as int), known),
                path_edges(current@, ps, known),
            );
        }
        u = u + 1;
    }
    assert(uses@.take(uses@.len() as int) =~= uses@);
}

/// The listed modules as paths and module trees.
pub open spec fn parsed_view(v: Seq<(ModulePath, &SourceModule)>) -> Seq<(Seq<char>, SourceModule)> {
    v.map_values(|p: (ModulePath, &SourceModule)| (p.0@, *p.1))
}

/// Adds the modules declared below `m` (at `path`) and their `mod` edges to
/// the graph, and lists them, each after the modules below it.
fn discover_modules<'a>(
    m: &'a SourceModule,
    path: &ModulePath,
    graph: &mut ModuleGraph,
    parsed: &mut Vec<(ModulePath, &'a SourceModule)>,
)
    requires
        old(graph).wf(),
    ensures
        final(graph).wf(),
        final(graph).name() == old(graph).name(),
        final(graph).module_list() == add_mods(old(graph).module_list(), decl_mods(*m, path@)),
        final(graph).edge_list() == add_edges(old(graph).edge_list(), decl_edges(*m, path@)),
        parsed_view(final(parsed)@) == parsed_view(old(parsed)@) + post_order_list(
            m.children@,
            path@,
        ),
    decreases m,
{
    let ghost ms0 = graph.module_list();
    let ghost es0 = graph.edge_list();
    let ghost ps0 = parsed_view(parsed@);
    let mut i: usize = 0;
    while i < m.children.len()
        invariant
            i <= m.children@.len(),
            graph.wf(),
            graph.name() == old(graph).name(),
            ms0 == old(graph).module_list(),
            es0 == old(graph).edge_list(),
            ps0 == parsed_view(old(parsed)@),
            graph.module_list() == add_mods(ms0, decl_mods_list(m.children@.take(i as int), path@)),
            graph.edge_list() == add_edges(es0, decl_edges_list(m.children@.take(i as int), path@)),
            parsed_view(parsed@) == ps0 + post_order_list(m.children@.take(i as int), path@),
        decreases m.children@.len() - i,
    {
        let c = &m.children[i];
        proof {
            assert(decreases_to!(m => m.children@[i as int]));
        }
        let cp = path.child(c.name.as_str());
        let ghost cs = m.children@.take(i + 1);
        let ghost ms1 = decl_mods_list(m.children@.take(i as int), path@);
        let ghost es1 = decl_edges_list(m.children@.take(i as int), path@);
        let ghost mv = (cp@, c.source_file@, c.kind);
        let ghost ev = (path@, cp@, EdgeKind::ModDeclaration);
        proof {
            assert(cs.drop_last() =~= m.children@.take(i as int));
            assert(cs.last() == *c);
        }
        graph.add_edge(path.copy(), cp.copy(), EdgeKind::ModDeclaration);
        let file = c.source_file.clone();
        graph.add_module(Module { path: cp.copy(), source_file: file, kind: c.kind });
        proof {
            assert(ms1.push(mv).drop_last() =~= ms1);
            assert(es1.push(ev).drop_last() =~= es1);
        }
        discover_modules(c, &cp, graph, parsed);
        let ghost cpv = cp@;
        let ghost mid = parsed_view(parsed@);
        parsed.push((cp, c));
        assert(parsed_view(parsed@) =~= mid.push((cpv, *c)));
        proof {
            lemma_add_mods_concat(ms0, ms1.push(mv), decl_mods(*c, cpv));
            lemma_add_edges_concat(es0, es1.push(ev), decl_edges(*c, cpv));
            assert(decl_mods_list(cs, path@) =~= ms1.push(mv) + decl_mods(*c, cpv));
            assert(decl_edges_list(cs, path@) =~= es1.push(ev) + decl_edges(*c, cpv));
            assert(parsed_view(parsed@) =~= ps0 + post_order_list(cs, path@));
        }
        i = i + 1;
    }
    assert(m.children@.take(m.children@.len() as int) =~= m.children@);
}

/// Analyze a crate and build its module dependency graph from its module
/// tree `root`.
pub fn analyze_crate(root: &SourceModule, crate_name: &str) -> (g: ModuleGraph)
    ensures
        g.wf(),
        g.name() == crate_name@,
        g.module_list() == crate_modules(*root),
        g.edge_list() == crate_edges(*root),
{
    let mut graph = ModuleGraph::new(String::from_str(crate_name));
    let mut parsed: Vec<(ModulePath, &SourceModule)> = Vec::new();
    let root_path = ModulePath::crate_root();
    let ghost rv = ("crate"@, root.source_file@, ModuleKind::Root);
    let file = root.source_file.clone();
    assert(file@ == root.source_file@);
    graph.add_module(Module { path: root_path.copy(), source_file: file, kind: ModuleKind::Root });
    proof {
        assert(!has_path(Seq::<(Seq<char>, Seq<char>, ModuleKind)>::empty(), "crate"@));
        assert(graph.module_list() =~= seq![rv]);
        assert(seq![rv].drop_last() =~= Seq::<(Seq<char>, Seq<char>, ModuleKind)>::empty());
        assert(add_mods(Seq::empty(), Seq::empty()) =~= Seq::<(Seq<char>, Seq<char>, ModuleKind)>::empty());
        assert(add_mod(Seq::empty(), rv) =~= seq![rv]);
        assert(add_mods(Seq::empty(), seq![rv]) == graph.module_list());
        assert(parsed_view(parsed@) =~= Seq::<(Seq<char>, SourceModule)>::empty());
    }
    discover_modules(root, &root_path, &mut graph, &mut parsed);
    parsed.push((root_path, root));
    proof {
        lemma_add_mods_concat(Seq::empty(), seq![rv], decl_mods(*root, "crate"@));
        assert(graph.module_list() == crate_modules(*root));
        assert(add_edges(Seq::empty(), Seq::empty()) == Seq::<(Seq<char>, Seq<char>, EdgeKind)>::empty());
    }
    let mut known: Vec<ModulePath> = Vec::new();
    let mut j: usize = 0;
    while j < graph.modules().len()
        invariant
            j <= graph.module_list().len(),
            paths_of(known@) == graph.module_list().take(j as int).map_values(
                |m: (Seq<char>, Seq<char>, ModuleKind)| m.0,
            ),
        decreases graph.module_list().len() - j,
    {
        let mods = graph.modules();
        assert(graph.module_list()[j as int] == module_view(mods@[j as int]));
        let p = mods[j].path.copy();
        let ghost before = paths_of(known@);
        let ghost pv = p@;
        known.push(p);
        assert(paths_of(known@) =~= before.push(pv));
        assert(graph.module_list().take(j + 1) =~= graph.module_list().take(j as int).push(
            graph.module_list()[j as int],
        ));
        j = j + 1;
        assert(paths_of(known@) =~= graph.module_list().take(j as int).map_values(
            |m: (Seq<char>, Seq<char>, ModuleKind)| m.0,
        ));
    }
    let ghost kv = crate_modules(*root).map_values(|m: (Seq<char>, Seq<char>, ModuleKind)| m.0);
    assert(graph.module_list().take(graph.module_list().len() as int) =~= graph.module_list());
    assert(paths_of(known@) == kv);
    let ghost pv = parsed_view(parsed@);
    let ghost es0 = graph.edge_list();
    assert(pv == post_order_list(root.children@, "crate"@) + seq![("crate"@, *root)]);
    let mut k: usize = 0;
    while k < parsed.len()
        invariant
            k <= parsed@.len(),
            pv == parsed_view(parsed@),
            paths_of(known@) == kv,
            graph.wf(),
            graph.name() == crate_name@,
            graph.module_list() == crate_modules(*root),
            graph.edge_list() == add_edges(es0, all_use_edges(pv.take(k as int), kv)),
        decreases parsed@.len() - k,
    {
        let entry = &parsed[k];
        proof {
            assert(pv.take(k + 1).drop_last() =~= pv.take(k as int));
            assert(pv.take(k + 1).last() == (entry.0@, *entry.1));
            lemma_add_edges_concat(
                es0,
                all_use_edges(pv.take(k as int), kv),
                use_edges(entry.0@, entry.1.uses@, kv),
            );
        }
        add_use_edges(&entry.0, &entry.1.uses, &known, &mut graph);
        k = k + 1;
    }
    proof {
        assert(pv.take(parsed@.len() as int) =~= pv);
        lemma_add_edges_concat(Seq::empty(), decl_edges(*root, "crate"@), all_use_edges(pv, kv));
    }
    graph
}

} // verus!
