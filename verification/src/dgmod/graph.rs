//! Module paths and the module graph.
use vstd::prelude::*;
use crate::text::{append_chars, chars_eq, chars_of, str_is, string_of};

verus! {

/// A module's path: `crate` for the crate root, `a` for a top-level module,
/// `a::b` below it.
#[derive(Debug)]
pub struct ModulePath {
    path: String,
}

impl View for ModulePath {
    type V = Seq<char>;

    closed spec fn view(&self) -> Seq<char> {
        self.path@
    }
}

/// The path of module `name` inside the module at `parent`.
pub open spec fn child_of(parent: Seq<char>, name: Seq<char>) -> Seq<char> {
    if parent == "crate"@ {
        name
    } else {
        parent + "::"@ + name
    }
}

impl ModulePath {
    /// The crate root.
    pub fn crate_root() -> (r: ModulePath)
        ensures
            r@ == "crate"@,
    {
        ModulePath { path: String::from_str("crate") }
    }

    /// A module path with the given text.
    pub fn from_text(s: &str) -> (r: ModulePath)
        ensures
            r@ == s@,
    {
        ModulePath { path: String::from_str(s) }
    }

    /// The path of the child module `name`.
    pub fn child(&self, name: &str) -> (r: ModulePath)
        ensures
            r@ == child_of(self@, name@),
    {
        if str_is(self.path.as_str(), "crate") {
            ModulePath { path: String::from_str(name) }
        } else {
            let mut t = chars_of(self.path.as_str());
            append_chars(&mut t, &chars_of("::"));
            append_chars(&mut t, &chars_of(name));
            ModulePath { path: string_of(&t) }
        }
    }

    /// The path as text.
    pub fn as_str(&self) -> (r: &str)
        ensures
            r@ == self@,
    {
        self.path.as_str()
    }

    /// A copy of this path.
    pub fn copy(&self) -> (r: ModulePath)
        ensures
            r@ == self@,
    {
        ModulePath { path: self.path.clone() }
    }

    /// Whether two paths are the same.
    pub fn same(&self, other: &ModulePath) -> (r: bool)
        ensures
            r == (self@ == other@),
    {
        chars_eq(&chars_of(self.path.as_str()), &chars_of(other.path.as_str()))
    }
}

/// How a module's source is held.
#[derive(Debug, Clone, Copy, PartialEq, Eq, Structural)]
pub enum ModuleKind {
    /// The crate root file.
    Root,
    /// A module with a file of its own.
    External,
    /// A module written inline in its parent's file.
    Inline,
}

/// A module of the crate.
#[derive(Debug)]
pub struct Module {
    pub path: ModulePath,
    /// The file that holds the module's source.
    pub source_file: String,
    pub kind: ModuleKind,
}

/// Why one module depends on another.
#[derive(Debug, Clone, Copy, PartialEq, Eq, Structural)]
pub enum EdgeKind {
    /// `mod child;` in the parent.
    ModDeclaration,
    /// A `use` of the target module.
    UseImport,
}

/// A dependency from one module to another.
#[derive(Debug)]
pub struct Edge {
    pub from: ModulePath,
    pub to: ModulePath,
    pub kind: EdgeKind,
}

/// An edge as plain values.
pub open spec fn edge_view(e: Edge) -> (Seq<char>, Seq<char>, EdgeKind) {
    (e.from@, e.to@, e.kind)
}

/// A module as plain values.
pub open spec fn module_view(m: Module) -> (Seq<char>, Seq<char>, ModuleKind) {
    (m.path@, m.source_file@, m.kind)
}

/// The module graph of a crate: its modules, each path once, and its edges,
/// each once.
#[derive(Debug)]
pub struct ModuleGraph {
    crate_name: String,
    modules: Vec<Module>,
    edges: Vec<Edge>,
}

/// Whether some module of `ms` has path `p`.
pub open spec fn has_path(ms: Seq<(Seq<char>, Seq<char>, ModuleKind)>, p: Seq<char>) -> bool {
    exists|i: int| 0 <= i < ms.len() && ms[i].0 == p
}

/// `ms` with `m` added: it replaces the module with the same path, if there
/// is one, and else comes last.
pub open spec fn add_mod(ms: Seq<(Seq<char>, Seq<char>, ModuleKind)>, m: (Seq<char>, Seq<char>, ModuleKind)) -> Seq<
    (Seq<char>, Seq<char>, ModuleKind),
> {
    if has_path(ms, m.0) {
        ms.update(choose|i: int| 0 <= i < ms.len() && ms[i].0 == m.0, m)
    } else {
        ms.push(m)
    }
}

/// `es` with `e` added, unless it is there already.
pub open spec fn add_edge_to(es: Seq<(Seq<char>, Seq<char>, EdgeKind)>, e: (Seq<char>, Seq<char>, EdgeKind)) -> Seq<
    (Seq<char>, Seq<char>, EdgeKind),
> {
    if es.contains(e) {
        es
    } else {
        es.push(e)
    }
}

/// No two modules of `ms` share a path.
pub open spec fn unique_paths(ms: Seq<(Seq<char>, Seq<char>, ModuleKind)>) -> bool {
    forall|i: int, j: int| 0 <= i < j < ms.len() ==> ms[i].0 != ms[j].0
}

/// No edge of `es` occurs twice.
pub open spec fn unique_edges(es: Seq<(Seq<char>, Seq<char>, EdgeKind)>) -> bool {
    forall|i: int, j: int| 0 <= i < j < es.len() ==> es[i] != es[j]
}

impl ModuleGraph {
    /// The modules, in the order they were first added.
    pub closed spec fn module_list(&self) -> Seq<(Seq<char>, Seq<char>, ModuleKind)> {
        self.modules@.map_values(|m: Module| module_view(m))
    }

    /// The edges, in the order they were first added.
    pub closed spec fn edge_list(&self) -> Seq<(Seq<char>, Seq<char>, EdgeKind)> {
        self.edges@.map_values(|e: Edge| edge_view(e))
    }

    /// The crate's name.
    pub closed spec fn name(&self) -> Seq<char> {
        self.crate_name@
    }

    /// No module path and no edge occurs twice.
    pub open spec fn wf(&self) -> bool {
        &&& unique_paths(self.module_list())
        &&& unique_edges(self.edge_list())
    }

    /// An empty graph for the crate `crate_name`.
    pub fn new(crate_name: String) -> (g: ModuleGraph)
        ensures
            g.wf(),
            g.name() == crate_name@,
            g.module_list() == Seq::<(Seq<char>, Seq<char>, ModuleKind)>::empty(),
            g.edge_list() == Seq::<(Seq<char>, Seq<char>, EdgeKind)>::empty(),
    {
        let g = ModuleGraph { crate_name, modules: Vec::new(), edges: Vec::new() };
        assert(g.module_list() =~= Seq::<(Seq<char>, Seq<char>, ModuleKind)>::empty());
        assert(g.edge_list() =~= Seq::<(Seq<char>, Seq<char>, EdgeKind)>::empty());
        g
    }

    /// The crate's name.
    pub fn crate_name(&self) -> (r: &str)
        ensures
            r@ == self.name(),
    {
        self.crate_name.as_str()
    }

    /// The modules.
    pub fn modules(&self) -> (r: &Vec<Module>)
        ensures
            r@.map_values(|m: Module| module_view(m)) == self.module_list(),
    {
        &self.modules
    }

    /// The edges.
    pub fn edges(&self) -> (r: &Vec<Edge>)
        ensures
            r@.map_values(|e: Edge| edge_view(e)) == self.edge_list(),
    {
        &self.edges
    }

    /// Adds a module; a module already there with the same path is replaced.
    pub fn add_module(&mut self, module: Module)
        requires
            old(self).wf(),
        ensures
            final(self).wf(),
            final(self).name() == old(self).name(),
            final(self).edge_list() == old(self).edge_list(),
            final(self).module_list() == add_mod(old(self).module_list(), module_view(module)),
    {
        let ghost mv = module_view(module);
        let ghost before = self.module_list();
        let mut i: usize = 0;
        while i < self.modules.len()
            invariant
                i <= self.modules@.len(),
                mv == module_view(module),
                old(self).wf(),
                self.wf(),
                self.name() == old(self).name(),
                self.edge_list() == old(self).edge_list(),
                before == old(self).module_list(),
                before == self.modules@.map_values(|m: Module| module_view(m)),
                forall|k: int| 0 <= k < i ==> before[k].0 != module.path@,
            decreases self.modules@.len() - i,
        {
            if self.modules[i].path.same(&module.path) {
                self.modules.set(i, module);
                assert(self.module_list() =~= before.update(i as int, mv));
                assert forall|a: int, b: int|
                    0 <= a < b < self.module_list().len() implies self.module_list()[a].0
                    != self.module_list()[b].0 by {
                    assert(before[a].0 != before[b].0);
                }
                assert(before[i as int].0 == module.path@);
                assert(has_path(before, module.path@));
                let ghost c = choose|j: int| 0 <= j < before.len() && before[j].0 == module.path@;
                assert(c == i) by {
                    if c != i {
                        if c < i {
                            assert(before[c].0 != before[i as int].0);
                        } else {
                            assert(before[i as int].0 != before[c].0);
                        }
                    }
                }
                return;
            }
            i = i + 1;
        }
        self.modules.push(module);
        assert(self.module_list() =~= before.push(mv));
        assert(!has_path(before, mv.0));
    }

    /// Adds an edge, unless it is there already.
    pub fn add_edge(&mut self, from: ModulePath, to: ModulePath, kind: EdgeKind)
        requires
            old(self).wf(),
        ensures
            final(self).wf(),
            final(self).name() == old(self).name(),
            final(self).module_list() == old(self).module_list(),
            final(self).edge_list() == add_edge_to(old(self).edge_list(), (from@, to@, kind)),
    {
        let ghost ev = (from@, to@, kind);
        let ghost before = self.edge_list();
        let mut i: usize = 0;
        while i < self.edges.len()
            invariant
                i <= self.edges@.len(),
                ev == (from@, to@, kind),
                self.wf(),
                self.name() == old(self).name(),
                self.module_list() == old(self).module_list(),
                before == old(self).edge_list(),
                before == self.edges@.map_values(|e: Edge| edge_view(e)),
                forall|k: int| 0 <= k < i ==> before[k] != ev,
            decreases self.edges@.len() - i,
        {
            let e = &self.edges[i];
            if e.from.same(&from) && e.to.same(&to) && e.kind == kind {
                assert(before[i as int] == ev);
                assert(before.contains(ev));
                return;
            }
            i = i + 1;
        }
        self.edges.push(Edge { from, to, kind });
        assert(self.edge_list() =~= before.push(ev));
        assert(!before.contains(ev));
    }
}

} // verus!
