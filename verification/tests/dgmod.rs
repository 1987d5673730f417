use rust_kart::dgmod::analyze::{analyze_crate, SourceModule};
use rust_kart::dgmod::graph::{EdgeKind, ModuleKind, ModulePath};
use rust_kart::dgmod::resolver::{
    crate_root_candidates, find_crate_root, get_parent_module, is_internal_path, join,
    module_file_candidates, resolve_module_file, resolve_relative, resolve_use_target,
    ResolveError,
};
use rust_kart::dgmod::parser::{self, OutlineItem};
use rust_kart::dgmod::use_tree::{extract_use_paths, UseTree};

fn strs(v: &[&str]) -> Vec<String> {
    v.iter().map(|s| s.to_string()).collect()
}

fn path(segs: &[&str], leaf: UseTree) -> UseTree {
    segs.iter().rev().fold(leaf, |t, s| UseTree::Path { ident: s.to_string(), tree: Box::new(t) })
}

fn name(s: &str) -> UseTree {
    UseTree::Name { ident: s.to_string() }
}

fn known(v: &[&str]) -> Vec<ModulePath> {
    v.iter().map(|s| ModulePath::from_text(s)).collect()
}

fn module(name: &str, file: &str, kind: ModuleKind, uses: Vec<UseTree>, children: Vec<SourceModule>) -> SourceModule {
    SourceModule { name: name.to_string(), source_file: file.to_string(), kind, uses, children }
}

#[test]
fn use_trees_expand_to_paths() {
    let t = path(
        &["crate", "a"],
        UseTree::Group { items: vec![name("self"), path(&["b"], UseTree::Glob), UseTree::Rename { ident: "X".to_string() }] },
    );
    assert_eq!(
        extract_use_paths(&t),
        vec![strs(&["crate", "a", "self"]), strs(&["crate", "a", "b"]), strs(&["crate", "a", "X"])]
    );
}

#[test]
fn internal_paths_start_with_crate_self_or_super() {
    assert!(is_internal_path(&strs(&["crate", "x"])));
    assert!(is_internal_path(&strs(&["self"])));
    assert!(is_internal_path(&strs(&["super", "y"])));
    assert!(!is_internal_path(&strs(&["std", "io"])));
    assert!(!is_internal_path(&strs(&[])));
}

#[test]
fn parents_of_module_paths() {
    assert!(get_parent_module(&ModulePath::crate_root()).is_none());
    assert_eq!(get_parent_module(&ModulePath::from_text("a")).unwrap().as_str(), "crate");
    assert_eq!(get_parent_module(&ModulePath::from_text("a::b::c")).unwrap().as_str(), "a::b");
    assert_eq!(ModulePath::crate_root().child("x").as_str(), "x");
    assert_eq!(ModulePath::from_text("x").child("y").as_str(), "x::y");
}

#[test]
fn relative_resolution_finds_the_deepest_known_module() {
    let k = known(&["crate", "a", "a::b"]);
    let r = |base: &str, segs: &[&str]| {
        resolve_relative(&ModulePath::from_text(base), &strs(segs), &k).map(|p| p.as_str().to_string())
    };
    assert_eq!(r("crate", &["a", "b", "Thing"]), Some("a::b".to_string()));
    assert_eq!(r("crate", &["a", "Other"]), Some("a".to_string()));
    assert_eq!(r("crate", &["zzz"]), Some("crate".to_string()));
    assert_eq!(r("a", &[]), Some("a".to_string()));
    assert_eq!(r("q", &[]), None);
    assert_eq!(r("q", &["r"]), None);
}

#[test]
fn use_targets() {
    let k = known(&["crate", "a", "a::b", "c"]);
    let t = |segs: &[&str], cur: &str| {
        resolve_use_target(&strs(segs), &ModulePath::from_text(cur), &k).map(|p| p.as_str().to_string())
    };
    assert_eq!(t(&["crate", "a", "b", "f"], "c"), Some("a::b".to_string()));
    assert_eq!(t(&["self", "b"], "a"), Some("a::b".to_string()));
    assert_eq!(t(&["super", "c"], "a"), Some("c".to_string()));
    assert_eq!(t(&["super", "super", "c"], "a::b"), Some("c".to_string()));
    assert_eq!(t(&["super", "x"], "crate"), None);
    assert_eq!(t(&["super", "super", "x"], "a"), None);
    assert_eq!(t(&["std", "io"], "a"), None);
    assert_eq!(t(&[], "a"), None);
}

#[test]
fn crate_roots_and_module_files() {
    assert_eq!(crate_root_candidates("/p"), strs(&["/p/src/lib.rs", "/p/src/main.rs"]));
    assert_eq!(find_crate_root("/p", true, true), Some("/p/src/lib.rs".to_string()));
    assert_eq!(find_crate_root("/p", false, true), Some("/p/src/main.rs".to_string()));
    assert_eq!(find_crate_root("/p", false, false), None);
    assert_eq!(module_file_candidates("/p/src", "m"), strs(&["/p/src/m.rs", "/p/src/m/mod.rs"]));
    assert_eq!(resolve_module_file("/p/src", "m", None, true, true).unwrap(), "/p/src/m.rs");
    assert_eq!(resolve_module_file("/p/src", "m", None, false, true).unwrap(), "/p/src/m/mod.rs");
    assert_eq!(resolve_module_file("/p/src", "m", Some("other.rs"), false, false).unwrap(), "/p/src/other.rs");
    let err = resolve_module_file("/p/src", "m", None, false, false).unwrap_err();
    let ResolveError::ModuleNotFound { module_name, expected_paths } = &err;
    assert_eq!(module_name, "m");
    assert_eq!(expected_paths, &strs(&["/p/src/m.rs", "/p/src/m/mod.rs"]));
    assert_eq!(join("a", "/b"), "/b");
    assert_eq!(join("", "b"), "b");
}

fn sample_crate() -> SourceModule {
    let b = module("b", "src/a.rs", ModuleKind::Inline, vec![], vec![]);
    let a = module("a", "src/a.rs", ModuleKind::External, vec![path(&["super"], name("c"))], vec![b]);
    let c = module(
        "c",
        "src/c.rs",
        ModuleKind::External,
        vec![path(&["crate", "a"], UseTree::Group { items: vec![name("self"), path(&["b"], UseTree::Glob)] })],
        vec![],
    );
    module(
        "",
        "src/lib.rs",
        ModuleKind::Root,
        vec![path(&["crate", "a", "b"], name("Thing")), path(&["std"], name("io"))],
        vec![a, c],
    )
}

#[test]
fn analyze_builds_modules_and_edges() {
    let g = analyze_crate(&sample_crate(), "demo");
    assert_eq!(g.crate_name(), "demo");
    let mods: Vec<(String, String, ModuleKind)> = g
        .modules()
        .iter()
        .map(|m| (m.path.as_str().to_string(), m.source_file.clone(), m.kind))
        .collect();
    assert_eq!(
        mods,
        vec![
            ("crate".to_string(), "src/lib.rs".to_string(), ModuleKind::Root),
            ("a".to_string(), "src/a.rs".to_string(), ModuleKind::External),
            ("a::b".to_string(), "src/a.rs".to_string(), ModuleKind::Inline),
            ("c".to_string(), "src/c.rs".to_string(), ModuleKind::External),
        ]
    );
    let mut edges: Vec<(String, String, EdgeKind)> = g
        .edges()
        .iter()
        .map(|e| (e.from.as_str().to_string(), e.to.as_str().to_string(), e.kind))
        .collect();
    edges.sort_by(|x, y| (x.0.as_str(), x.1.as_str()).cmp(&(y.0.as_str(), y.1.as_str())));
    assert_eq!(
        edges,
        vec![
            ("a".to_string(), "a::b".to_string(), EdgeKind::ModDeclaration),
            ("a".to_string(), "c".to_string(), EdgeKind::UseImport),
            ("c".to_string(), "a".to_string(), EdgeKind::UseImport),
            ("c".to_string(), "a::b".to_string(), EdgeKind::UseImport),
            ("crate".to_string(), "a".to_string(), EdgeKind::ModDeclaration),
            ("crate".to_string(), "a::b".to_string(), EdgeKind::UseImport),
            ("crate".to_string(), "c".to_string(), EdgeKind::ModDeclaration),
        ]
    );
}

#[test]
fn mermaid_lists_sorted_nodes_then_sorted_edges() {
    let g = analyze_crate(&sample_crate(), "demo");
    assert_eq!(
        g.to_mermaid(),
        "flowchart TD\n    a[\"a\"]\n    a_b[\"a::b\"]\n    c[\"c\"]\n    crate[\"crate\"]\n\n    a --> a_b\n    a -.-> c\n    c -.-> a\n    c -.-> a_b\n    crate --> a\n    crate -.-> a_b\n    crate --> c\n"
    );
}

fn describe_tree(t: &UseTree) -> String {
    match t {
        UseTree::Path { ident, tree } => format!("{ident}::{}", describe_tree(tree)),
        UseTree::Name { ident } => ident.clone(),
        UseTree::Rename { ident } => format!("{ident} as _"),
        UseTree::Glob => "*".to_string(),
        UseTree::Group { items } => {
            format!("{{{}}}", items.iter().map(describe_tree).collect::<Vec<_>>().join(","))
        }
    }
}

fn describe(items: &[OutlineItem]) -> Vec<String> {
    items
        .iter()
        .map(|item| match item {
            OutlineItem::Use(t) => format!("use {}", describe_tree(t)),
            OutlineItem::Mod { name, path, content } => format!(
                "mod {name} path={path:?} {}",
                match content {
                    Some(inner) => format!("[{}]", describe(inner).join("; ")),
                    None => "extern".to_string(),
                }
            ),
            OutlineItem::Other => "other".to_string(),
        })
        .collect()
}

#[test]
fn source_text_is_read_into_its_outline() {
    let text = r#"
        use crate::a::{b, c::*, d as e};
        #[path = "x/y.rs"]
        mod outer;
        #[cfg(test)]
        mod inner {
            use super::outer;
            fn f() {}
            mod deeper {}
        }
        pub struct S;
    "#;
    let items = parser::parse_file(text).unwrap();
    assert_eq!(
        describe(&items),
        vec![
            "use crate::a::{b,c::*,d as _}".to_string(),
            "mod outer path=Some(\"x/y.rs\") extern".to_string(),
            "mod inner path=None [use super::outer; other; mod deeper path=None []]".to_string(),
            "other".to_string(),
        ]
    );
}

#[test]
fn only_a_string_path_attribute_counts() {
    let items = parser::parse_file("#[doc = \"x\"] #[path = 3] #[path = \"a.rs\"] mod m;").unwrap();
    assert_eq!(describe(&items), vec!["mod m path=Some(\"a.rs\") extern".to_string()]);
}

#[test]
fn a_syntax_error_carries_syns_message() {
    let err = parser::parse_file("mod {").unwrap_err();
    assert!(!err.is_empty());
    assert!(parser::parse_file("").unwrap().is_empty());
}
