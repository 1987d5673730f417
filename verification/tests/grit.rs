use rust_kart::grit::{
    archive_refs, archive_step, delete_refspec, parse_archive_args, split_upstream, ArchiveAction,
    ArchiveError, ArchiveStage, RemovalPolicy,
};

fn args(v: &[&str]) -> Vec<String> {
    v.iter().map(|s| s.to_string()).collect()
}

#[test]
fn flags_set_the_policy_and_the_rest_are_branches() {
    let (policy, branches) = parse_archive_args(&args(&["-d", "foo", "bar"])).unwrap();
    assert_eq!(policy, RemovalPolicy::Local);
    assert_eq!(branches, args(&["foo", "bar"]));
    let (policy, branches) = parse_archive_args(&args(&["x", "-d", "-D"])).unwrap();
    assert_eq!(policy, RemovalPolicy::Remote);
    assert_eq!(branches, args(&["x"]));
    let (policy, _) = parse_archive_args(&args(&["x", "-D", "-d"])).unwrap();
    assert_eq!(policy, RemovalPolicy::Local);
    let (policy, _) = parse_archive_args(&args(&["x"])).unwrap();
    assert_eq!(policy, RemovalPolicy::NoRemoval);
}

#[test]
fn a_branch_name_is_required() {
    assert_eq!(parse_archive_args(&args(&[])).unwrap_err(), ArchiveError::BranchName);
    assert_eq!(parse_archive_args(&args(&["-d", "-D"])).unwrap_err(), ArchiveError::BranchName);
}

#[test]
fn refs_of_an_archived_branch() {
    assert_eq!(
        archive_refs("topic/x"),
        ("refs/heads/topic/x".to_string(), "refs/archive/topic/x".to_string())
    );
}

#[test]
fn upstream_splits_at_the_first_slash() {
    assert_eq!(split_upstream("origin/feature/x"), ("origin".to_string(), "feature/x".to_string()));
    assert_eq!(split_upstream("up/"), ("up".to_string(), String::new()));
    assert_eq!(delete_refspec("feature/x"), ":feature/x");
}

fn run(line: &str, a: &[&str]) -> ArchiveAction {
    ArchiveAction::Run { line: line.to_string(), args: args(a) }
}

#[test]
fn archiving_without_removal_only_saves_the_ref() {
    let (stage, action) = archive_step("feat", RemovalPolicy::NoRemoval, ArchiveStage::Start, None);
    assert_eq!(stage, ArchiveStage::Saved);
    assert_eq!(action, run("mk refs/archive/feat", &["update-ref", "refs/archive/feat", "refs/heads/feat"]));
    let (stage, action) = archive_step("feat", RemovalPolicy::NoRemoval, stage, None);
    assert_eq!((stage, action), (ArchiveStage::Finished, ArchiveAction::Done));
}

#[test]
fn local_removal_deletes_the_branch_by_force() {
    let (stage, _) = archive_step("feat", RemovalPolicy::Local, ArchiveStage::Start, None);
    let (stage, action) = archive_step("feat", RemovalPolicy::Local, stage, None);
    assert_eq!(stage, ArchiveStage::Finished);
    assert_eq!(action, run("rm feat", &["branch", "-D", "feat"]));
    let (_, action) = archive_step("feat", RemovalPolicy::Local, stage, None);
    assert_eq!(action, ArchiveAction::Done);
}

#[test]
fn remote_removal_deletes_the_upstream_before_the_local_branch() {
    let p = RemovalPolicy::Remote;
    let (stage, _) = archive_step("feat", p, ArchiveStage::Start, None);
    let (stage, action) = archive_step("feat", p, stage, None);
    assert_eq!((stage, action), (ArchiveStage::AskedUpstream, ArchiveAction::AskUpstream));
    let (stage, action) = archive_step("feat", p, stage, Some("origin/feat/x"));
    assert_eq!(stage, ArchiveStage::RemoteRemoved);
    assert_eq!(action, run("rm origin/feat/x", &["push", "origin", ":feat/x"]));
    let (stage, action) = archive_step("feat", p, stage, None);
    assert_eq!(stage, ArchiveStage::Finished);
    assert_eq!(action, run("rm feat", &["branch", "-D", "feat"]));
}

#[test]
fn remote_removal_without_an_upstream_removes_only_the_local_branch() {
    let (stage, action) = archive_step("feat", RemovalPolicy::Remote, ArchiveStage::AskedUpstream, None);
    assert_eq!(stage, ArchiveStage::Finished);
    assert_eq!(action, run("rm feat", &["branch", "-D", "feat"]));
}
