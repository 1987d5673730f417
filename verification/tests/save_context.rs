use rust_kart::save_context::{
    add_disabled, count_words, edit_disabled_array, keep_strings, list_project_servers, list_user_servers,
    merge_server_listings, merge_servers, merge_skills, remove_disabled, resolve_scope, skill_name,
    sort_servers, sort_skills, stem_of, strip_frontmatter, ArrayEntry, McpServer, Scope, ScopeLookup, Skill,
};

fn listed(v: &[McpServer]) -> Vec<(String, bool, Scope)> {
    v.iter().map(|s| (s.name.clone(), s.enabled, s.scope)).collect()
}

fn server(name: &str, scope: Scope) -> McpServer {
    McpServer { name: name.to_string(), enabled: true, scope }
}

fn strs(v: &[&str]) -> Vec<String> {
    v.iter().map(|s| s.to_string()).collect()
}

fn skill(name: &str, tokens: usize, scope: Scope) -> Skill {
    Skill { name: name.to_string(), enabled: true, tokens, scope }
}

#[test]
fn front_matter_is_stripped() {
    assert_eq!(strip_frontmatter("---\ntitle: x\n---\nbody\n"), "body\n");
    assert_eq!(strip_frontmatter("---\ntitle: x\n---"), "");
    assert_eq!(strip_frontmatter("---\ntitle: x\n---more"), "more");
    assert_eq!(strip_frontmatter("no front matter"), "no front matter");
    assert_eq!(strip_frontmatter("---\nunterminated"), "---\nunterminated");
    assert_eq!(strip_frontmatter("--"), "--");
}

#[test]
fn words_are_separated_by_whitespace() {
    assert_eq!(count_words(""), 0);
    assert_eq!(count_words("  a b\tc\n"), 3);
    assert_eq!(count_words("one"), 1);
    assert_eq!(count_words("a\u{00a0}b"), 2);
}

#[test]
fn scope_names() {
    assert_eq!(Scope::User.name(), "user");
    assert_eq!(Scope::Project.name(), "project");
}

#[test]
fn skill_entries_and_names() {
    assert_eq!(skill_name(Scope::User, "review", true, true), Some("review".to_string()));
    assert_eq!(skill_name(Scope::User, "review", true, false), None);
    assert_eq!(skill_name(Scope::Project, "deploy.md", false, false), Some("deploy".to_string()));
    assert_eq!(skill_name(Scope::Project, "notes.txt", false, false), None);
    assert_eq!(skill_name(Scope::User, "x.md", false, false), Some("x.md".to_string()));
    assert_eq!(stem_of("a.b.md"), "a.b");
    assert_eq!(stem_of(".hidden"), ".hidden");
}

#[test]
fn skills_sort_by_name_keeping_ties_in_order() {
    let v = vec![skill("b", 1, Scope::User), skill("a", 2, Scope::User), skill("b", 3, Scope::Project)];
    let sorted = sort_skills(v);
    let names: Vec<(String, usize)> = sorted.iter().map(|s| (s.name.clone(), s.tokens)).collect();
    assert_eq!(names, vec![("a".to_string(), 2), ("b".to_string(), 1), ("b".to_string(), 3)]);
    let merged = merge_skills(vec![skill("z", 1, Scope::Project)], vec![skill("m", 1, Scope::User)]);
    let names: Vec<String> = merged.iter().map(|s| s.name.clone()).collect();
    assert_eq!(names, strs(&["m", "z"]));
}

#[test]
fn servers_are_merged_sorted_and_marked() {
    let names = vec![strs(&["b", "a"]), strs(&["c", "a"])];
    let disabled = vec![strs(&["c"]), strs(&["x"])];
    let servers = merge_servers(&names, &disabled, Scope::Project);
    let v: Vec<(String, bool, Scope)> =
        servers.into_iter().map(|s| (s.name, s.enabled, s.scope)).collect();
    assert_eq!(
        v,
        vec![
            ("a".to_string(), true, Scope::Project),
            ("b".to_string(), true, Scope::Project),
            ("c".to_string(), false, Scope::Project),
        ]
    );
}

#[test]
fn names_resolve_to_a_scope() {
    let items = vec![
        ("a".to_string(), Scope::User),
        ("b".to_string(), Scope::Project),
        ("b".to_string(), Scope::Project),
        ("c".to_string(), Scope::User),
        ("c".to_string(), Scope::Project),
    ];
    assert_eq!(resolve_scope("a", &items), ScopeLookup::Found(Scope::User));
    assert_eq!(resolve_scope("b", &items), ScopeLookup::Found(Scope::Project));
    assert_eq!(resolve_scope("c", &items), ScopeLookup::Ambiguous);
    assert_eq!(resolve_scope("d", &items), ScopeLookup::NotFound);
}

#[test]
fn disabled_lists() {
    assert_eq!(add_disabled(&strs(&["b", "a"]), "c"), strs(&["a", "b", "c"]));
    assert_eq!(add_disabled(&strs(&["b", "a"]), "a"), strs(&["b", "a"]));
    assert_eq!(add_disabled(&strs(&[]), "x"), strs(&["x"]));
    assert_eq!(remove_disabled(&strs(&["a", "b", "a"]), "a"), strs(&["b"]));
    assert_eq!(remove_disabled(&strs(&["a"]), "z"), strs(&["a"]));
}

#[test]
fn a_disabled_name_is_listed_and_enabling_removes_it() {
    let list = add_disabled(&strs(&["m"]), "k");
    assert!(list.contains(&"k".to_string()));
    let list = remove_disabled(&list, "k");
    assert!(!list.contains(&"k".to_string()));
    assert_eq!(list, strs(&["m"]));
}

#[test]
fn strings_are_kept_in_order() {
    let v = vec![Some("b".to_string()), None, Some("a".to_string())];
    assert_eq!(keep_strings(v), strs(&["b", "a"]));
}

#[test]
fn user_servers_come_from_the_user_configuration() {
    let text = r#"{"mcpServers": {"b": {}, "a": {}}, "disabledMcpjsonServers": ["b", 3]}"#;
    let servers = list_user_servers(text).unwrap();
    assert_eq!(
        listed(&servers),
        vec![("a".to_string(), true, Scope::User), ("b".to_string(), false, Scope::User)]
    );
    assert_eq!(listed(&list_user_servers("{}").unwrap()), vec![]);
    let err = list_user_servers("not json").unwrap_err();
    assert_eq!(err, "expected ident at line 1 column 2");
}

#[test]
fn project_servers_gather_every_source() {
    let mcp = r#"{"mcpServers": {"m": {}}}"#;
    let user = r#"{"projects": {"/p/x": {"mcpServers": {"u": {}}, "disabledMcpjsonServers": ["m"]},
                                "/p/y": {"mcpServers": {"other": {}}}}}"#;
    let servers = list_project_servers(
        vec![strs(&["s1"])],
        vec![strs(&["s1"]), vec![]],
        Some(mcp),
        Some(user),
        "/p/x",
    );
    assert_eq!(
        listed(&servers),
        vec![
            ("m".to_string(), false, Scope::Project),
            ("s1".to_string(), false, Scope::Project),
            ("u".to_string(), true, Scope::Project),
        ]
    );
    let servers = list_project_servers(vec![], vec![], Some("{broken"), None, "/p/x");
    assert!(servers.is_empty());
    let listed_by_index = r#"{"projects": [{"mcpServers": {"z": {}}}]}"#;
    assert!(list_project_servers(vec![], vec![], None, Some(listed_by_index), "0").is_empty());
}

#[test]
fn server_listings_merge_sorted_by_name() {
    let merged = merge_server_listings(
        vec![server("b", Scope::Project), server("a", Scope::Project)],
        vec![server("a", Scope::User), server("c", Scope::User)],
    );
    assert_eq!(
        listed(&merged),
        vec![
            ("a".to_string(), true, Scope::Project),
            ("a".to_string(), true, Scope::User),
            ("b".to_string(), true, Scope::Project),
            ("c".to_string(), true, Scope::User),
        ]
    );
    assert_eq!(listed(&sort_servers(vec![server("z", Scope::User), server("y", Scope::User)]))[0].0, "y");
}

#[test]
fn the_disabled_array_is_edited_around_values_that_are_not_strings() {
    let items = vec![Some("b".to_string()), None, Some("a".to_string()), Some("b".to_string())];
    let t = |s: &str| ArrayEntry::Text(s.to_string());
    assert_eq!(edit_disabled_array(&items, "b", true), vec![ArrayEntry::Kept(1), ArrayEntry::Kept(2)]);
    assert_eq!(
        edit_disabled_array(&items, "a", false),
        vec![ArrayEntry::Kept(0), ArrayEntry::Kept(1), ArrayEntry::Kept(2), ArrayEntry::Kept(3)]
    );
    assert_eq!(
        edit_disabled_array(&items, "c", false),
        vec![ArrayEntry::Kept(1), t("a"), t("b"), t("b"), t("c")]
    );
    assert_eq!(edit_disabled_array(&vec![], "x", false), vec![t("x")]);
}
