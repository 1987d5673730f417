//! Module path resolution.
use vstd::prelude::*;
use crate::dgmod::graph::{child_of, ModulePath};
use crate::ffbm::db::texts;
use crate::text::{append_chars, chars_eq, chars_of, str_is, string_of};

verus! {

/// `a` joined with the relative or absolute path `b` (as `Path::join`).
pub open spec fn join_path(a: Seq<char>, b: Seq<char>) -> Seq<char> {
    if b.len() > 0 && b[0] == '/' {
        b
    } else if a.len() == 0 {
        b
    } else if a.last() == '/' {
        a + b
    } else {
        a + "/"@ + b
    }
}

/// `a` joined with `b`.
pub fn join(a: &str, b: &str) -> (r: String)
    ensures
        r@ == join_path(a@, b@),
{
    let x = chars_of(a);
    let y = chars_of(b);
    if y.len() > 0 && y[0] == '/' {
        string_of(&y)
    } else if x.len() == 0 {
        string_of(&y)
    } else if x[x.len() - 1] == '/' {
        let mut t = x;
        append_chars(&mut t, &y);
        string_of(&t)
    } else {
        let mut t = x;
        append_chars(&mut t, &chars_of("/"));
        append_chars(&mut t, &y);
        string_of(&t)
    }
}

/// The two files that may be a crate's root: `src/lib.rs`, then `src/main.rs`.
pub open spec fn root_candidates(crate_dir: Seq<char>) -> Seq<Seq<char>> {
    seq![
        join_path(join_path(crate_dir, "src"@), "lib.rs"@),
        join_path(join_path(crate_dir, "src"@), "main.rs"@),
    ]
}

/// The files that may be the root of the crate in `crate_dir`, in the order
/// they are tried.
pub fn crate_root_candidates(crate_dir: &str) -> (r: Vec<String>)
    ensures
        r@.len() == 2,
        texts(r@) == root_candidates(crate_dir@),
{
    let src = join(crate_dir, "src");
    let mut r: Vec<String> = Vec::new();
    r.push(join(src.as_str(), "lib.rs"));
    r.push(join(src.as_str(), "main.rs"));
    assert(texts(r@) =~= root_candidates(crate_dir@));
    r
}

/// Find the crate root file: `src/lib.rs` if it exists, else `src/main.rs`
/// if that exists.  Whether each exists is found out by the caller.
pub fn find_crate_root(crate_dir: &str, lib_rs_exists: bool, main_rs_exists: bool) -> (r: Option<
    String,
>)
    ensures
        lib_rs_exists ==> (r matches Some(p) && p@ == root_candidates(crate_dir@)[0]),
        !lib_rs_exists && main_rs_exists ==> (r matches Some(p) && p@ == root_candidates(
            crate_dir@,
        )[1]),
        !lib_rs_exists && !main_rs_exists ==> r is None,
{
    let candidates = crate_root_candidates(crate_dir);
    if lib_rs_exists {
        Some(candidates[0].clone())
    } else if main_rs_exists {
        Some(candidates[1].clone())
    } else {
        None
    }
}

/// Errors that can occur during module resolution.
#[derive(Debug)]
pub enum ResolveError {
    /// Module file not found.
    ModuleNotFound { module_name: String, expected_paths: Vec<String> },
}

impl ResolveError {
    /// The error's message.
    pub fn to_string(&self) -> (r: String)
        ensures
            match self {
                ResolveError::ModuleNotFound { module_name, expected_paths } => r@ == "Module '"@
                    + module_name@ + "' not found. Expected:"@ + expected_list(texts(expected_paths@)),
            },
    {
        match self {
            ResolveError::ModuleNotFound { module_name, expected_paths } => {
                let mut t = chars_of("Module '");
                append_chars(&mut t, &chars_of(module_name.as_str()));
                append_chars(&mut t, &chars_of("' not found. Expected:"));
                let ghost head = t@;
                let mut i: usize = 0;
                while i < expected_paths.len()
                    invariant
                        i <= expected_paths@.len(),
                        t@ == head + expected_list(texts(expected_paths@).take(i as int)),
                    decreases expected_paths@.len() - i,
                {
                    append_chars(&mut t, &chars_of("\n  - "));
                    append_chars(&mut t, &chars_of(expected_paths[i].as_str()));
                    assert(texts(expected_paths@).take(i + 1).drop_last() =~= texts(
                        expected_paths@,
                    ).take(i as int));
                    i = i + 1;
                }
                assert(texts(expected_paths@).take(expected_paths@.len() as int) =~= texts(
                    expected_paths@,
                ));
                string_of(&t)
            },
        }
    }
}

/// Each path on a line of its own, as `\n  - path`.
pub open spec fn expected_list(ps: Seq<Seq<char>>) -> Seq<char>
    decreases ps.len(),
{
    if ps.len() == 0 {
        Seq::empty()
    } else {
        expected_list(ps.drop_last()) + "\n  - "@ + ps.last()
    }
}

/// The files a module may be in, tried in order: `name.rs`, then
/// `name/mod.rs`, both beside its parent's file.
pub open spec fn module_candidates(parent_dir: Seq<char>, name: Seq<char>) -> Seq<Seq<char>> {
    seq![
        join_path(parent_dir, name + ".rs"@),
        join_path(join_path(parent_dir, name), "mod.rs"@),
    ]
}

/// The files the module `mod_name` declared beside `parent_dir` may be in.
pub fn module_file_candidates(parent_dir: &str, mod_name: &str) -> (r: Vec<String>)
    ensures
        r@.len() == 2,
        texts(r@) == module_candidates(parent_dir@, mod_name@),
{
    let mut file = chars_of(mod_name);
    append_chars(&mut file, &chars_of(".rs"));
    let direct = join(parent_dir, string_of(&file).as_str());
    let dir = join(parent_dir, mod_name);
    let nested = join(dir.as_str(), "mod.rs");
    let mut r: Vec<String> = Vec::new();
    r.push(direct);
    r.push(nested);
    assert(texts(r@) =~= module_candidates(parent_dir@, mod_name@));
    r
}

/// Resolve the file path for a module declaration: the `#[path]` attribute's
/// file if there is one, else the first candidate that exists (whether each
/// exists is found out by the caller), else an error listing both.
pub fn resolve_module_file(
    parent_dir: &str,
    mod_name: &str,
    path_attribute: Option<&str>,
    direct_exists: bool,
    nested_exists: bool,
) -> (r: Result<String, ResolveError>)
    ensures
        path_attribute matches Some(p) ==> (r matches Ok(f) && f@ == join_path(parent_dir@, p@)),
        path_attribute is None && direct_exists ==> (r matches Ok(f) && f@ == module_candidates(
            parent_dir@,
            mod_name@,
        )[0]),
        path_attribute is None && !direct_exists && nested_exists ==> (r matches Ok(f) && f@
            == module_candidates(parent_dir@, mod_name@)[1]),
        path_attribute is None && !direct_exists && !nested_exists ==> (r matches Err(
            ResolveError::ModuleNotFound { module_name: n, expected_paths: ps },
        ) && n@ == mod_name@ && texts(ps@) == module_candidates(parent_dir@, mod_name@)),
{
    match path_attribute {
        Some(p) => Ok(join(parent_dir, p)),
        None => {
            let candidates = module_file_candidates(parent_dir, mod_name);
            if direct_exists {
                Ok(candidates[0].clone())
            } else if nested_exists {
                Ok(candidates[1].clone())
            } else {
                Err(
                    ResolveError::ModuleNotFound {
                        module_name: String::from_str(mod_name),
                        expected_paths: candidates,
                    },
                )
            }
        },
    }
}

/// Whether a use path is internal: it starts with `crate`, `self` or `super`.
pub open spec fn internal(segments: Seq<Seq<char>>) -> bool {
    segments.len() > 0 && (segments[0] == "crate"@ || segments[0] == "self"@ || segments[0]
        == "super"@)
}

/// Check if a use path is internal (`crate::`, `self::`, `super::`).
pub fn is_internal_path(segments: &[String]) -> (r: bool)
    ensures
        r == internal(texts(segments@)),
{
    if segments.len() == 0 {
        return false;
    }
    let s = segments[0].as_str();
    str_is(s, "crate") || str_is(s, "self") || str_is(s, "super")
}

/// Whether `::` starts at index `p` of `s`.
pub open spec fn sep_at(s: Seq<char>, p: int) -> bool {
    0 <= p && p + 1 < s.len() && s[p] == ':' && s[p + 1] == ':'
}

/// The last index below `k` where `::` starts in `s` (as `str::rfind`).
pub open spec fn last_sep_below(s: Seq<char>, k: int) -> Option<int>
    decreases k,
{
    if k <= 0 {
        None
    } else if sep_at(s, k - 1) {
        Some(k - 1)
    } else {
        last_sep_below(s, k - 1)
    }
}

/// The parent of the module at `m`: none for the crate root; the crate root
/// for a top-level module; else the path before the last `::`.
pub open spec fn parent_of(m: Seq<char>) -> Option<Seq<char>> {
    if m == "crate"@ {
        None
    } else {
        match last_sep_below(m, m.len() as int) {
            Some(p) => Some(child_of("crate"@, m.take(p))),
            None => Some("crate"@),
        }
    }
}

proof fn lemma_last_sep_below(s: Seq<char>, k: int)
    ensures
        last_sep_below(s, k) matches Some(p) ==> 0 <= p < k && p + 1 < s.len(),
    decreases k,
{
    if k > 0 && !sep_at(s, k - 1) {
        lemma_last_sep_below(s, k - 1);
    }
}

/// Get the parent module's path.
pub fn get_parent_module(module: &ModulePath) -> (r: Option<ModulePath>)
    ensures
        match parent_of(module@) {
            Some(p) => r matches Some(q) && q@ == p,
            None => r is None,
        },
{
    let s = chars_of(module.as_str());
    if str_is(module.as_str(), "crate") {
        return None;
    }
    let mut k: usize = s.len();
    while k > 0
        invariant
            k <= s@.len(),
            s@ == module@,
            module@ != "crate"@,
            last_sep_below(s@, s@.len() as int) == last_sep_below(s@, k as int),
        decreases k,
    {
        if k >= 1 && k < s.len() && s[k - 1] == ':' && s[k] == ':' {
            let head = string_of(&crate::text::slice_range(&s, 0, k - 1));
            return Some(ModulePath::crate_root().child(head.as_str()));
        }
        k = k - 1;
    }
    Some(ModulePath::crate_root())
}

/// Where the walk from `base` down `segs` ends.
pub open spec fn walk_end(base: Seq<char>, segs: Seq<Seq<char>>) -> Seq<char>
    decreases segs.len(),
{
    if segs.len() == 0 {
        base
    } else {
        child_of(walk_end(base, segs.drop_last()), segs.last())
    }
}

/// The paths visited on the walk from `base` down `segs`, `base` not included.
pub open spec fn chain(base: Seq<char>, segs: Seq<Seq<char>>) -> Seq<Seq<char>>
    decreases segs.len(),
{
    if segs.len() == 0 {
        Seq::empty()
    } else {
        chain(base, segs.drop_last()).push(walk_end(base, segs))
    }
}

/// The last of `paths` that is known.
pub open spec fn last_known(paths: Seq<Seq<char>>, known: Seq<Seq<char>>) -> Option<Seq<char>>
    decreases paths.len(),
{
    if paths.len() == 0 {
        None
    } else if known.contains(paths.last()) {
        Some(paths.last())
    } else {
        last_known(paths.drop_last(), known)
    }
}

/// The deepest known module on the walk from `base` down `segs`, `base`
/// included.
pub open spec fn resolve_rel(base: Seq<char>, segs: Seq<Seq<char>>, known: Seq<Seq<char>>) -> Option<
    Seq<char>,
> {
    last_known(seq![base] + chain(base, segs), known)
}

/// The paths of a list of modules.
pub open spec fn paths_of(v: Seq<ModulePath>) -> Seq<Seq<char>> {
    v.map_values(|m: ModulePath| m@)
}

/// Whether `known` holds `p`.
pub fn is_known(known: &Vec<ModulePath>, p: &ModulePath) -> (r: bool)
    ensures
        r == paths_of(known@).contains(p@),
{
    let mut i: usize = 0;
    while i < known.len()
        invariant
            i <= known@.len(),
            forall|k: int| 0 <= k < i ==> known@[k]@ != p@,
        decreases known@.len() - i,
    {
        if known[i].same(p) {
            assert(paths_of(known@)[i as int] == p@);
            return true;
        }
        i = i + 1;
    }
    assert forall|k: int| 0 <= k < paths_of(known@).len() implies paths_of(known@)[k] != p@ by {
        assert(paths_of(known@)[k] == known@[k]@);
    }
    false
}

/// Resolve a path relative to a module, finding the deepest matching known
/// module.
pub fn resolve_relative(base: &ModulePath, segments: &[String], known_modules: &Vec<ModulePath>) -> (r:
    Option<ModulePath>)
    ensures
        match resolve_rel(base@, texts(segments@), paths_of(known_modules@)) {
            Some(p) => r matches Some(q) && q@ == p,
            None => r is None,
        },
{
    let ghost segs = texts(segments@);
    let ghost known = paths_of(known_modules@);
    let mut current = base.copy();
    let mut last_found: Option<ModulePath> = if is_known(known_modules, &current) {
        Some(current.copy())
    } else {
        None
    };
    assert(seq![base@] + chain(base@, segs.take(0)) =~= seq![base@]);
    assert(last_known(seq![base@].drop_last(), known) == None::<Seq<char>>);
    let mut i: usize = 0;
    while i < segments.len()
        invariant
            i <= segments@.len(),
            segs == texts(segments@),
            known == paths_of(known_modules@),
            current@ == walk_end(base@, segs.take(i as int)),
            match last_known(seq![base@] + chain(base@, segs.take(i as int)), known) {
                Some(p) => last_found matches Some(q) && q@ == p,
                None => last_found is None,
            },
        decreases segments@.len() - i,
    {
        let ghost prev = seq![base@] + chain(base@, segs.take(i as int));
        current = current.child(segments[i].as_str());
        proof {
            let t = segs.take(i + 1);
            assert(t.drop_last() =~= segs.take(i as int));
            assert(t.last() == segments@[i as int]@);
            assert(seq![base@] + chain(base@, t) =~= prev.push(current@));
            assert((seq![base@] + chain(base@, t)).drop_last() =~= prev);
        }
        if is_known(known_modules, &current) {
            last_found = Some(current.copy());
        }
        i = i + 1;
    }
    assert(segs.take(segments@.len() as int) =~= segs);
    last_found
}

/// The module and path left once the leading `super`s of `segs` are climbed
/// from `m`; none if the climb goes above the crate root.
pub open spec fn climb(m: Seq<char>, segs: Seq<Seq<char>>) -> Option<(Seq<char>, Seq<Seq<char>>)>
    decreases segs.len(),
{
    if segs.len() > 0 && segs[0] == "super"@ {
        match parent_of(m) {
            None => None,
            Some(p) => climb(p, segs.skip(1)),
        }
    } else {
        Some((m, segs))
    }
}

/// The module a `use` path inside `current` refers to: the deepest known
/// module along it, for paths starting with `crate`, `self` or `super`.
pub open spec fn use_target(segs: Seq<Seq<char>>, current: Seq<char>, known: Seq<Seq<char>>) -> Option<
    Seq<char>,
> {
    if segs.len() == 0 {
        None
    } else if segs[0] == "crate"@ {
        resolve_rel("crate"@, segs.skip(1), known)
    } else if segs[0] == "self"@ {
        resolve_rel(current, segs.skip(1), known)
    } else if segs[0] == "super"@ {
        match parent_of(current) {
            None => None,
            Some(p) => match climb(p, segs.skip(1)) {
                None => None,
                Some(c) => resolve_rel(c.0, c.1, known),
            },
        }
    } else {
        None
    }
}

proof fn lemma_last_known_is_known(paths: Seq<Seq<char>>, known: Seq<Seq<char>>)
    ensures
        last_known(paths, known) matches Some(p) ==> known.contains(p),
    decreases paths.len(),
{
    if paths.len() > 0 && !known.contains(paths.last()) {
        lemma_last_known_is_known(paths.drop_last(), known);
    }
}

/// A `use` path resolves only to a module of the crate: whatever module
/// `use_target` names is among the known modules.
pub proof fn lemma_use_targets_are_known(segs: Seq<Seq<char>>, current: Seq<char>, known: Seq<Seq<char>>)
    ensures
        use_target(segs, current, known) matches Some(t) ==> known.contains(t),
{
    if segs.len() > 0 {
        if segs[0] == "crate"@ {
            lemma_last_known_is_known(seq!["crate"@] + chain("crate"@, segs.skip(1)), known);
        } else if segs[0] == "self"@ {
            lemma_last_known_is_known(seq![current] + chain(current, segs.skip(1)), known);
        } else if segs[0] == "super"@ {
            if let Some(p) = parent_of(current) {
                if let Some(c) = climb(p, segs.skip(1)) {
                    lemma_last_known_is_known(seq![c.0] + chain(c.0, c.1), known);
                }
            }
        }
    }
}

/// Resolve a use path to its target module path; none if the path refers to
/// an external crate or cannot be resolved.
pub fn resolve_use_target(
    segments: &[String],
    current_module: &ModulePath,
    known_modules: &Vec<ModulePath>,
) -> (r: Option<ModulePath>)
    ensures
        match use_target(texts(segments@), current_module@, paths_of(known_modules@)) {
            Some(p) => r matches Some(q) && q@ == p,
            None => r is None,
        },
{
    let ghost segs = texts(segments@);
    if segments.len() == 0 {
        return None;
    }
    let first = segments[0].as_str();
    assert(segs.skip(1) =~= texts(segments@.subrange(1, segments@.len() as int)));
    if str_is(first, "crate") {
        resolve_relative(&ModulePath::crate_root(), &segments[1..segments.len()], known_modules)
    } else if str_is(first, "self") {
        resolve_relative(current_module, &segments[1..segments.len()], known_modules)
    } else if str_is(first, "super") {
        let parent = get_parent_module(current_module);
        let mut current = match parent {
            None => {
                return None;
            },
            Some(p) => p,
        };
        let mut i: usize = 1;
        while i < segments.len() && str_is(segments[i].as_str(), "super")
            invariant
                1 <= i <= segments@.len(),
                segs == texts(segments@),
                segs[0] == "super"@,
                segs[0] != "crate"@,
                segs[0] != "self"@,
                parent_of(current_module@) matches Some(p) && climb(p, segs.skip(1)) == climb(
                    current@,
                    segs.skip(i as int),
                ),
            decreases segments@.len() - i,
        {
            assert(segs.skip(i as int)[0] == segments@[i as int]@);
            assert(segs.skip(i as int).skip(1) =~= segs.skip(i + 1));
            match get_parent_module(&current) {
                None => {
                    assert(climb(current@, segs.skip(i as int)) == None::<
                        (Seq<char>, Seq<Seq<char>>),
                    >);
                    return None;
                },
                Some(p) => {
                    current = p;
                },
            }
            i = i + 1;
        }
        proof {
            if i < segments@.len() {
                assert(segs.skip(i as int)[0] == segments@[i as int]@);
            }
            assert(segs.skip(i as int) =~= texts(segments@.subrange(i as int, segments@.len() as int)));
        }
        resolve_relative(&current, &segments[i..segments.len()], known_modules)
    } else {
        None
    }
}

} // verus!
