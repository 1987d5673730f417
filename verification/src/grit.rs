//! Archiving Git branches: what the command line asks for, the refs a branch
//! is moved between, and which `git` command comes next while a branch is
//! archived.  Running `git` is the program's business.
use vstd::prelude::*;
use crate::ffbm::db::texts;
use crate::text::{append_chars, chars_of, slice_range, str_is, string_of};

verus! {

/// Which branches an archive removes once it has saved a ref to them.
#[derive(Debug, Clone, Copy, PartialEq, Eq, Structural)]
pub enum RemovalPolicy {
    /// Do not remove any branches.
    NoRemoval,
    /// Remove local branches only.
    Local,
    /// Remove both local and remote branches.
    Remote,
}

/// Why an archive cannot run.
#[derive(Debug, PartialEq, Eq, Structural)]
pub enum ArchiveError {
    /// No branch name was given.
    BranchName,
}

/// The policy the arguments set: `-d` removes local branches, `-D` remote
/// ones too; the last such flag wins.
pub open spec fn policy_of(args: Seq<Seq<char>>) -> RemovalPolicy
    decreases args.len(),
{
    if args.len() == 0 {
        RemovalPolicy::NoRemoval
    } else if args.last() == "-d"@ {
        RemovalPolicy::Local
    } else if args.last() == "-D"@ {
        RemovalPolicy::Remote
    } else {
        policy_of(args.drop_last())
    }
}

/// The arguments that are not the flags `-d` and `-D`: the branches.
pub open spec fn branches_of(args: Seq<Seq<char>>) -> Seq<Seq<char>>
    decreases args.len(),
{
    if args.len() == 0 {
        Seq::empty()
    } else if args.last() == "-d"@ || args.last() == "-D"@ {
        branches_of(args.drop_last())
    } else {
        branches_of(args.drop_last()).push(args.last())
    }
}

/// Read the archive command's arguments: the removal policy and the branches
/// to archive; at least one branch is needed.
pub fn parse_archive_args(args: &Vec<String>) -> (r: Result<(RemovalPolicy, Vec<String>), ArchiveError>)
    ensures
        branches_of(texts(args@)).len() == 0 ==> r == Err::<(RemovalPolicy, Vec<String>), ArchiveError>(
            ArchiveError::BranchName,
        ),
        branches_of(texts(args@)).len() > 0 ==> (r matches Ok(x) && x.0 == policy_of(texts(args@))
            && texts(x.1@) == branches_of(texts(args@))),
{
    let ghost av = texts(args@);
    let mut policy = RemovalPolicy::NoRemoval;
    let mut branches: Vec<String> = Vec::new();
    let mut i: usize = 0;
    while i < args.len()
        invariant
            i <= args@.len(),
            av == texts(args@),
            policy == policy_of(av.take(i as int)),
            texts(branches@) == branches_of(av.take(i as int)),
        decreases args@.len() - i,
    {
        assert(av.take(i + 1).drop_last() =~= av.take(i as int));
        assert(av.take(i + 1).last() == args@[i as int]@);
        let a = args[i].as_str();
        if str_is(a, "-d") {
            policy = RemovalPolicy::Local;
        } else if str_is(a, "-D") {
            policy = RemovalPolicy::Remote;
        } else {
            let ghost before = texts(branches@);
            let s = args[i].clone();
            branches.push(s);
            assert(texts(branches@) =~= before.push(args@[i as int]@));
        }
        i = i + 1;
    }
    assert(av.take(args@.len() as int) =~= av);
    if branches.len() == 0 {
        Err(ArchiveError::BranchName)
    } else {
        Ok((policy, branches))
    }
}

/// The ref a branch lives at, and the ref it is archived to.
pub open spec fn archive_refs_of(branch: Seq<char>) -> (Seq<char>, Seq<char>) {
    ("refs/heads/"@ + branch, "refs/archive/"@ + branch)
}

/// The branch's ref and its archive ref.
pub fn archive_refs(branch: &str) -> (r: (String, String))
    ensures
        (r.0@, r.1@) == archive_refs_of(branch@),
{
    let mut old = chars_of("refs/heads/");
    append_chars(&mut old, &chars_of(branch));
    let mut new = chars_of("refs/archive/");
    append_chars(&mut new, &chars_of(branch));
    (string_of(&old), string_of(&new))
}

/// An upstream `remote/name` split at its first `/`.
pub open spec fn upstream_parts(upstream: Seq<char>) -> (Seq<char>, Seq<char>) {
    let k = crate::text::index_of_or_len(upstream, '/');
    (upstream.take(k), upstream.skip(k + 1))
}

/// Split an upstream branch into its remote and its name on the remote.
pub fn split_upstream(upstream: &str) -> (r: (String, String))
    requires
        upstream@.contains('/'),
    ensures
        (r.0@, r.1@) == upstream_parts(upstream@),
{
    let u = chars_of(upstream);
    let k = crate::text::find_char_or_len(&u, '/');
    proof {
        crate::text::lemma_take_until(u@, '/');
        if crate::text::index_of_or_len(u@, '/') == u@.len() {
            let j = choose|j: int| 0 <= j < u@.len() && u@[j] == '/';
            assert(false);
        }
    }
    let remote = slice_range(&u, 0, k);
    let name = slice_range(&u, k + 1, u.len());
    assert(name@ =~= upstream@.skip(k + 1));
    (string_of(&remote), string_of(&name))
}

/// The refspec that deletes branch `name` on its remote: `:name`.
pub fn delete_refspec(name: &str) -> (r: String)
    ensures
        r@ == ":"@ + name@,
{
    let mut t = chars_of(":");
    append_chars(&mut t, &chars_of(name));
    string_of(&t)
}

/// Where the archive of one branch stands.
#[derive(Debug, Clone, Copy, PartialEq, Eq, Structural)]
pub enum ArchiveStage {
    /// Nothing done yet.
    Start,
    /// The archive ref is made.
    Saved,
    /// The branch's upstream was asked for.
    AskedUpstream,
    /// The remote branch is deleted.
    RemoteRemoved,
    /// Nothing is left to do.
    Finished,
}

/// What the program does next for the branch.
#[derive(Debug, PartialEq, Eq)]
pub enum ArchiveAction {
    /// Print `line`, then run `git` with `args`; stop on failure.
    Run { line: String, args: Vec<String> },
    /// Ask `git` for the branch's upstream (`remote/name`), if it has one.
    AskUpstream,
    /// The branch is archived.
    Done,
}

/// An action as plain values.
pub enum ActionView {
    Run(Seq<char>, Seq<Seq<char>>),
    AskUpstream,
    Done,
}

pub open spec fn action_view(a: ArchiveAction) -> ActionView {
    match a {
        ArchiveAction::Run { line, args } => ActionView::Run(line@, texts(args@)),
        ArchiveAction::AskUpstream => ActionView::AskUpstream,
        ArchiveAction::Done => ActionView::Done,
    }
}

/// Deleting the local branch, by force, since its ref is saved.
pub open spec fn delete_local(branch: Seq<char>) -> ActionView {
    ActionView::Run("rm "@ + branch, seq!["branch"@, "-D"@, branch])
}

/// The next stage and action of archiving `branch` under `policy`, from
/// `stage`; `upstream` is the answer to asking for the upstream.  The archive
/// ref is made first; then, under `Remote`, the remote branch is deleted
/// (before the local one, which names the remote); then the local branch.
pub open spec fn archive_next(
    branch: Seq<char>,
    policy: RemovalPolicy,
    stage: ArchiveStage,
    upstream: Option<Seq<char>>,
) -> (ArchiveStage, ActionView) {
    let (old, new) = archive_refs_of(branch);
    match stage {
        ArchiveStage::Start => (
            ArchiveStage::Saved,
            ActionView::Run("mk "@ + new, seq!["update-ref"@, new, old]),
        ),
        ArchiveStage::Saved => match policy {
            RemovalPolicy::NoRemoval => (ArchiveStage::Finished, ActionView::Done),
            RemovalPolicy::Local => (ArchiveStage::Finished, delete_local(branch)),
            RemovalPolicy::Remote => (ArchiveStage::AskedUpstream, ActionView::AskUpstream),
        },
        ArchiveStage::AskedUpstream => match upstream {
            Some(u) => (
                ArchiveStage::RemoteRemoved,
                ActionView::Run(
                    "rm "@ + u,
                    seq!["push"@, upstream_parts(u).0, ":"@ + upstream_parts(u).1],
                ),
            ),
            None => (ArchiveStage::Finished, delete_local(branch)),
        },
        ArchiveStage::RemoteRemoved => (ArchiveStage::Finished, delete_local(branch)),
        ArchiveStage::Finished => (ArchiveStage::Finished, ActionView::Done),
    }
}

fn text_with(prefix: &str, rest: &str) -> (r: String)
    ensures
        r@ == prefix@ + rest@,
{
    let mut t = chars_of(prefix);
    append_chars(&mut t, &chars_of(rest));
    string_of(&t)
}

fn delete_local_action(branch: &str) -> (r: ArchiveAction)
    ensures
        action_view(r) == delete_local(branch@),
{
    let mut args: Vec<String> = Vec::new();
    args.push(String::from_str("branch"));
    args.push(String::from_str("-D"));
    args.push(String::from_str(branch));
    let r = ArchiveAction::Run { line: text_with("rm ", branch), args };
    assert(texts(args@) =~= seq!["branch"@, "-D"@, branch@]);
    r
}

/// The next stage and action of archiving `branch`.
pub fn archive_step(branch: &str, policy: RemovalPolicy, stage: ArchiveStage, upstream: Option<&str>) -> (r: (
    ArchiveStage,
    ArchiveAction,
))
    requires
        stage == ArchiveStage::AskedUpstream ==> (upstream matches Some(u) ==> u@.contains('/')),
    ensures
        (r.0, action_view(r.1)) == archive_next(
            branch@,
            policy,
            stage,
            match upstream {
                Some(u) => Some(u@),
                None => None,
            },
        ),
{
    match stage {
        ArchiveStage::Start => {
            let (old, new) = archive_refs(branch);
            let line = text_with("mk ", new.as_str());
            let mut args: Vec<String> = Vec::new();
            args.push(String::from_str("update-ref"));
            let ghost nv = new@;
            let ghost ov = old@;
            args.push(new);
            args.push(old);
            assert(texts(args@) =~= seq!["update-ref"@, nv, ov]);
            (ArchiveStage::Saved, ArchiveAction::Run { line, args })
        },
        ArchiveStage::Saved => match policy {
            RemovalPolicy::NoRemoval => (ArchiveStage::Finished, ArchiveAction::Done),
            RemovalPolicy::Local => (ArchiveStage::Finished, delete_local_action(branch)),
            RemovalPolicy::Remote => (ArchiveStage::AskedUpstream, ArchiveAction::AskUpstream),
        },
        ArchiveStage::AskedUpstream => match upstream {
            Some(u) => {
                let (remote, name) = split_upstream(u);
                let mut args: Vec<String> = Vec::new();
                args.push(String::from_str("push"));
                let ghost rv = remote@;
                args.push(remote);
                let spec = delete_refspec(name.as_str());
                let ghost sv = spec@;
                args.push(spec);
                assert(texts(args@) =~= seq!["push"@, rv, sv]);
                (ArchiveStage::RemoteRemoved, ArchiveAction::Run { line: text_with("rm ", u), args })
            },
            None => (ArchiveStage::Finished, delete_local_action(branch)),
        },
        ArchiveStage::RemoteRemoved => (ArchiveStage::Finished, delete_local_action(branch)),
        ArchiveStage::Finished => (ArchiveStage::Finished, ArchiveAction::Done),
    }
}

} // verus!
