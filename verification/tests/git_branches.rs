use rust_kart::git_branches::{
    add_commit, build_node, merge_base_pairs, child_commits, closest_parent, find_branch_node, find_root, format_node,
    group_by_commit, node_branches, parse_pr_list, rebase_plan, render, single_branch_topology,
    BranchInfo, Node, RebaseStep, Tip, Topology,
};

fn s(x: &str) -> String {
    x.to_string()
}

fn branch(name: &str, ahead: usize, pr: Option<u32>) -> BranchInfo {
    BranchInfo { name: s(name), ahead, pr }
}

fn node(commit: &str, branches: Vec<BranchInfo>, children: Vec<Node>) -> Node {
    Node { commit: s(commit), branches, children }
}

fn stacked_topology() -> Topology {
    let b = node("ccccccc", vec![branch("feature-b", 1, None)], vec![]);
    let a = node("bbbbbbb", vec![branch("feature-a", 2, Some(12))], vec![b]);
    let bare = node("ddddddd", vec![], vec![]);
    Topology { trunk: s("main"), root: node("aaaaaaa", vec![branch("main", 0, None)], vec![a, bare]) }
}

#[test]
fn render_draws_the_tree_with_connectors() {
    let text = render(&stacked_topology());
    assert_eq!(text, "main\n├─ feature-a (+2)\n│  └─ feature-b (+1)\n└─ [ddddddd]\n");
}

#[test]
fn test_topology_display() {
    let text = render(&stacked_topology());
    assert!(text.contains("main"), "should show main");
    assert!(text.contains("feature-a"), "should show feature-a");
    assert!(text.contains("feature-b"), "should show feature-b");
}

#[test]
fn format_node_shows_names_and_ahead_once() {
    let n = node("1234567", vec![branch("x", 3, None), branch("y", 3, None)], vec![]);
    assert_eq!(format_node(&n).iter().collect::<String>(), "x, y (+3)");
    let n = node("1234567", vec![branch("x", 0, None)], vec![]);
    assert_eq!(format_node(&n).iter().collect::<String>(), "x");
    let n = node("1234567", vec![], vec![]);
    assert_eq!(format_node(&n).iter().collect::<String>(), "[1234567]");
}

#[test]
fn find_branch_node_searches_depth_first() {
    let t = stacked_topology();
    let found = find_branch_node(&t.root, "feature-b").unwrap();
    assert_eq!(found.commit, "ccccccc");
    assert!(find_branch_node(&t.root, "nope").is_none());
    assert_eq!(find_branch_node(&t.root, "main").unwrap().commit, "aaaaaaa");
}

#[test]
fn pr_list_maps_branches_to_numbers() {
    let json = r#"[{"headRefName":"feature-a","number":12},{"headRefName":"fix","number":7}]"#;
    let mut prs = parse_pr_list(json);
    prs.sort();
    assert_eq!(prs, vec![(s("feature-a"), 12), (s("fix"), 7)]);
}

#[test]
fn pr_list_later_entry_wins_and_bad_entries_are_skipped() {
    let json = r#"[{"headRefName":"a","number":1},{"headRefName":"b"},{"headRefName":"a","number":5},{"number":9}]"#;
    let prs = parse_pr_list(json);
    assert_eq!(prs, vec![(s("a"), 5)]);
    assert!(parse_pr_list("not json").is_empty());
}

#[test]
fn node_branches_sorts_names_and_puts_head_last() {
    let names = vec![s("zeta"), s("[HEAD]"), s("alpha")];
    let prs = vec![(s("zeta"), 4)];
    let bs = node_branches(&names, 2, &prs);
    let views: Vec<(String, usize, Option<u32>)> =
        bs.into_iter().map(|b| (b.name, b.ahead, b.pr)).collect();
    assert_eq!(
        views,
        vec![(s("alpha"), 2, None), (s("zeta"), 2, Some(4)), (s("[HEAD]"), 2, None)]
    );
}

#[test]
fn children_are_sorted_commits_whose_parent_is_given() {
    let all = vec![s("c3"), s("c1"), s("c2"), s("root")];
    let parents = vec![
        (s("c3"), Some(s("root"))),
        (s("c1"), Some(s("root"))),
        (s("c2"), Some(s("c1"))),
        (s("root"), None),
    ];
    let kids: Vec<String> = child_commits(&['r', 'o', 'o', 't'], &all, &parents)
        .into_iter()
        .map(|v| v.into_iter().collect())
        .collect();
    assert_eq!(kids, vec![s("c1"), s("c3")]);
}

#[test]
fn build_node_assembles_the_tree() {
    let all = vec![s("c1"), s("c2"), s("root")];
    let parents = vec![(s("c1"), Some(s("root"))), (s("c2"), Some(s("c1"))), (s("root"), None)];
    let by_commit = vec![(s("root"), vec![s("main")]), (s("c2"), vec![s("topic"), s("[HEAD]")])];
    let prs = vec![(s("topic"), 3)];
    let aheads = vec![(s("c1"), 1), (s("c2"), 2)];
    let root: Vec<char> = "root".chars().collect();
    let n = build_node(&root, &all, &parents, &by_commit, &prs, &aheads, 3);
    let t = Topology { trunk: s("main"), root: n };
    assert_eq!(render(&t), "main\n└─ [c1]\n   └─ topic, [HEAD] (+2)\n");
    let topic = find_branch_node(&t.root, "topic").unwrap();
    assert_eq!(topic.branches[0].pr, Some(3));
}

#[test]
fn single_branch_repository_has_one_node() {
    let t = single_branch_topology("main", "abc1234", Some("abc1234"), Some(9));
    assert_eq!(render(&t), "main, [HEAD]\n");
    assert_eq!(t.root.branches[0].pr, Some(9));
    let t = single_branch_topology("main", "abc1234", Some("fff0000"), None);
    assert_eq!(render(&t), "main\n");
}

#[test]
fn closest_parent_takes_the_first_least_positive_distance() {
    let cands = vec![(s("a"), Some(3)), (s("b"), None), (s("c"), Some(1)), (s("d"), Some(1)), (s("e"), Some(0))];
    assert_eq!(closest_parent(&cands), Some(s("c")));
    assert_eq!(closest_parent(&vec![(s("a"), None), (s("b"), Some(0))]), None);
}

#[test]
fn root_is_first_parentless_commit_else_trunk_tip() {
    let commits = vec![s("x"), s("y")];
    let parents = vec![(s("x"), Some(s("y"))), (s("y"), None)];
    assert_eq!(find_root(&commits, &parents, "t"), "y");
    let parents = vec![(s("x"), Some(s("y"))), (s("y"), Some(s("x")))];
    assert_eq!(find_root(&commits, &parents, "t"), "t");
}

#[test]
fn branches_are_grouped_by_tip_with_head_last() {
    let tips = vec![(s("main"), s("c1")), (s("topic"), s("c2")), (s("other"), s("c1"))];
    let groups = group_by_commit(&tips, Some("c1"));
    let find = |c: &str| groups.iter().find(|g| g.0 == c).map(|g| g.1.clone());
    assert_eq!(find("c1"), Some(vec![s("main"), s("other"), s("[HEAD]")]));
    assert_eq!(find("c2"), Some(vec![s("topic")]));
    assert_eq!(groups.len(), 2);
}

fn describe(steps: &[RebaseStep]) -> Vec<String> {
    let tip = |t: &Tip| match t {
        Tip::Named(n) => n.clone(),
        Tip::NewTipOf(b) => format!("new({b})"),
    };
    steps
        .iter()
        .map(|st| match st {
            RebaseStep::Rebase { onto, upstream: None, branch } => {
                format!("rebase {} {}", tip(onto), branch)
            }
            RebaseStep::Rebase { onto, upstream: Some(u), branch } => {
                format!("rebase --onto {} {} {}", tip(onto), tip(u), branch)
            }
            RebaseStep::Reset { branch, tip: t } => format!("branch -f {} {}", branch, tip(t)),
        })
        .collect()
}

#[test]
fn rebase_plan_moves_a_stack_onto_trunk() {
    let c = node("ccccccc", vec![branch("feature-c", 1, None)], vec![]);
    let bare = node("eeeeeee", vec![], vec![c]);
    let b = node("bbbbbbb", vec![branch("feature-b", 1, None), branch("[HEAD]", 1, None)], vec![]);
    let a = node(
        "aaaaaaa",
        vec![branch("feature-a", 2, None), branch("alias", 2, None)],
        vec![b, bare],
    );
    let steps = rebase_plan("main", &a);
    assert_eq!(
        describe(&steps),
        vec![
            s("rebase main feature-a"),
            s("branch -f alias new(feature-a)"),
            s("rebase --onto new(feature-a) aaaaaaa feature-b"),
            s("rebase --onto new(feature-a) aaaaaaa feature-c"),
        ]
    );
}

#[test]
fn rebase_plan_of_a_bare_commit_is_empty() {
    let n = node("aaaaaaa", vec![branch("[HEAD]", 0, None)], vec![node("b", vec![branch("x", 1, None)], vec![])]);
    assert!(rebase_plan("main", &n).is_empty());
}

#[test]
fn commits_are_added_once() {
    let mut commits = vec!["a1".to_string()];
    add_commit(&mut commits, "b2".to_string());
    add_commit(&mut commits, "a1".to_string());
    assert_eq!(commits, vec!["a1".to_string(), "b2".to_string()]);
}

#[test]
fn branches_sharing_a_trunk_merge_base_are_paired() {
    let bases: Vec<(String, String)> = [("x", "m1"), ("y", "m2"), ("z", "m1"), ("w", "m1")]
        .iter()
        .map(|(b, m)| (b.to_string(), m.to_string()))
        .collect();
    let pairs: Vec<(String, String)> = ["x z", "x w", "z w"]
        .iter()
        .map(|p| {
            let (a, b) = p.split_once(' ').unwrap();
            (a.to_string(), b.to_string())
        })
        .collect();
    assert_eq!(merge_base_pairs(&bases), pairs);
    assert!(merge_base_pairs(&bases[..2].to_vec()).is_empty());
}
