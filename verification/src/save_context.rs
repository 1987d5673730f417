//! What the context manager decides: a skill's name and its text
//! without front matter, how many words it holds, the merged and sorted
//! listings of skills and MCP servers, which scope a name resolves to, and
//! how a server is added to or taken from a disabled list; and which server
//! names and disabled lists the JSON configuration texts hold, as serde_json
//! reads them.  Files, settings files and printing are the program's business.
use vstd::prelude::*;
use crate::ffbm::db::texts;
use crate::order::{
    char_views, lex_le, sort_by_name, sort_by_name_stable, sorted_unique_strings,
    strictly_ascending,
};
use crate::text::{append_chars, chars_eq, chars_of, is_whitespace, is_ws, slice_range, str_is, string_of};

verus! {

/// Where a skill or MCP server is configured.
#[derive(Debug, Clone, Copy, PartialEq, Eq, Structural)]
pub enum Scope {
    User,
    Project,
}

impl Scope {
    /// The scope's name, as listings show it.
    pub fn name(&self) -> (r: &'static str)
        ensures
            r@ == (match *self {
                Scope::User => "user"@,
                Scope::Project => "project"@,
            }),
    {
        match self {
            Scope::User => "user",
            Scope::Project => "project",
        }
    }
}

/// A skill: its name, whether it is enabled, its estimated token count, and
/// its scope.
#[derive(Debug)]
pub struct Skill {
    pub name: String,
    pub enabled: bool,
    pub tokens: usize,
    pub scope: Scope,
}

/// An MCP server: its name, whether it is enabled, and its scope.
#[derive(Debug)]
pub struct McpServer {
    pub name: String,
    pub enabled: bool,
    pub scope: Scope,
}

/// Whether the words `p` occur in `s` at index `i`.
pub open spec fn occurs_at(s: Seq<char>, p: Seq<char>, i: int) -> bool {
    0 <= i && i + p.len() <= s.len() && s.subrange(i, i + p.len()) == p
}

/// The first index at or after `i` at which `p` occurs in `s` (`str::find`).
pub open spec fn find_from(s: Seq<char>, p: Seq<char>, i: int) -> Option<int>
    decreases s.len() - i,
{
    if i < 0 || i + p.len() > s.len() {
        None
    } else if occurs_at(s, p, i) {
        Some(i)
    } else if i >= s.len() {
        None
    } else {
        find_from(s, p, i + 1)
    }
}

/// The text of a skill file without its YAML front matter: if it starts with
/// `---` and a later line starts with `---`, what follows that marker (and
/// the newline right after it); else the whole text.
pub open spec fn body_text(content: Seq<char>) -> Seq<char> {
    if content.len() >= 3 && content.take(3) == "---"@ {
        let rest = content.skip(3);
        match find_from(rest, "\n---"@, 0) {
            Some(end) => {
                let after = rest.skip(end + 4);
                if after.len() > 0 && after[0] == '\n' {
                    after.skip(1)
                } else {
                    after
                }
            },
            None => content,
        }
    } else {
        content
    }
}

pub proof fn lemma_find_from_bounds(s: Seq<char>, p: Seq<char>, i: int)
    ensures
        find_from(s, p, i) matches Some(k) ==> i <= k && k + p.len() <= s.len() && occurs_at(
            s,
            p,
            k,
        ),
    decreases s.len() - i,
{
    if i >= 0 && i + p.len() <= s.len() && !occurs_at(s, p, i) && i < s.len() {
        lemma_find_from_bounds(s, p, i + 1);
    }
}

pub fn occurs_at_exec(s: &[char], p: &[char], i: usize) -> (r: bool)
    ensures
        r == occurs_at(s@, p@, i as int),
{
    if i > s.len() || p.len() > s.len() - i {
        return false;
    }
    let mut k: usize = 0;
    while k < p.len()
        invariant
            i + p@.len() <= s@.len(),
            i <= s@.len(),
            k <= p@.len(),
            forall|j: int| 0 <= j < k ==> s@[i + j] == p@[j],
        decreases p@.len() - k,
    {
        assert(i + k < s@.len());
        assert(s@.len() == s.len());
        let j: usize = i + k;
        if s[j] != p[k] {
            assert(s@.subrange(i as int, i + p@.len())[k as int] != p@[k as int]);
            return false;
        }
        k = k + 1;
    }
    assert(s@.subrange(i as int, i + p@.len()) =~= p@);
    true
}

/// Strip the YAML front matter from a skill file's text.
pub fn strip_frontmatter(content: &str) -> (r: String)
    ensures
        r@ == body_text(content@),
{
    let c = chars_of(content);
    let dashes = chars_of("---");
    proof {
        reveal_strlit("---");
    }
    if c.len() < 3 {
        return String::from_str(content);
    }
    let head = slice_range(&c, 0, 3);
    assert(head@ =~= content@.take(3));
    if !chars_eq(&head, &dashes) {
        return String::from_str(content);
    }
    let rest = slice_range(&c, 3, c.len());
    assert(rest@ =~= content@.skip(3));
    let marker = chars_of("\n---");
    proof {
        reveal_strlit("\n---");
    }
    let mut i: usize = 0;
    while i < rest.len() && rest.len() - i >= 4
        invariant
            marker@ == "\n---"@,
            marker@.len() == 4,
            i <= rest@.len(),
            content@.len() >= 3,
            content@.take(3) == "---"@,
            rest@ == content@.skip(3),
            find_from(rest@, marker@, 0) == find_from(rest@, marker@, i as int),
        decreases rest@.len() - i,
    {
        if occurs_at_exec(&rest, &marker, i) {
            proof {
                lemma_find_from_bounds(rest@, marker@, 0);
            }
            let after = slice_range(&rest, i + 4, rest.len());
            assert(after@ =~= rest@.skip(i + 4));
            if after.len() > 0 && after[0] == '\n' {
                let t = slice_range(&after, 1, after.len());
                assert(t@ =~= after@.skip(1));
                return string_of(&t);
            } else {
                return string_of(&after);
            }
        }
        i = i + 1;
    }
    String::from_str(content)
}

/// How many words `s` holds (`str::split_whitespace`): the characters that
/// are not whitespace and start a run of such.
pub open spec fn word_starts(s: Seq<char>, n: int) -> nat
    decreases n,
{
    if n <= 0 {
        0
    } else {
        word_starts(s, n - 1) + if !is_ws(s[n - 1]) && (n - 1 == 0 || is_ws(s[n - 2])) {
            1nat
        } else {
            0nat
        }
    }
}

/// The number of words of `s`.
pub open spec fn word_count(s: Seq<char>) -> nat {
    word_starts(s, s.len() as int)
}

/// Count the words of a text.
pub fn count_words(content: &str) -> (r: usize)
    ensures
        r == word_count(content@),
{
    let c = chars_of(content);
    let mut n: usize = 0;
    let mut i: usize = 0;
    while i < c.len()
        invariant
            i <= c@.len(),
            c@ == content@,
            n == word_starts(c@, i as int),
            n <= i,
        decreases c@.len() - i,
    {
        if !is_whitespace(c[i]) && (i == 0 || is_whitespace(c[i - 1])) {
            n = n + 1;
        }
        i = i + 1;
    }
    n
}

/// The last index of `.` in `s`.
pub open spec fn last_dot(s: Seq<char>, k: int) -> Option<int>
    decreases k,
{
    if k <= 0 {
        None
    } else if s[k - 1] == '.' {
        Some(k - 1)
    } else {
        last_dot(s, k - 1)
    }
}

/// Where a file name splits into stem and extension, as `Path` splits it:
/// at its last `.`, unless that is its first character.
pub open spec fn ext_dot(name: Seq<char>) -> Option<int> {
    match last_dot(name, name.len() as int) {
        Some(d) => if d == 0 {
            None
        } else {
            Some(d)
        },
        None => None,
    }
}

/// The stem of a file name (`Path::file_stem`).
pub open spec fn file_stem(name: Seq<char>) -> Seq<char> {
    match ext_dot(name) {
        Some(d) => name.take(d),
        None => name,
    }
}

/// The extension of a file name (`Path::extension`).
pub open spec fn extension(name: Seq<char>) -> Option<Seq<char>> {
    match ext_dot(name) {
        Some(d) => Some(name.skip(d + 1)),
        None => None,
    }
}

proof fn lemma_last_dot(s: Seq<char>, k: int)
    requires
        k <= s.len(),
    ensures
        last_dot(s, k) matches Some(d) ==> 0 <= d < k,
    decreases k,
{
    if k > 0 && s[k - 1] != '.' {
        lemma_last_dot(s, k - 1);
    }
}

/// Where a file name splits into stem and extension (`ext_dot`).
pub fn find_ext_dot(name: &[char]) -> (r: Option<usize>)
    ensures
        match ext_dot(name@) {
            Some(d) => r == Some(d as usize),
            None => r is None,
        },
        r matches Some(d) ==> 0 < d < name@.len() && ext_dot(name@) == Some(d as int),
{
    let mut k: usize = name.len();
    proof {
        lemma_last_dot(name@, name@.len() as int);
    }
    while k > 0
        invariant
            k <= name@.len(),
            last_dot(name@, name@.len() as int) == last_dot(name@, k as int),
        decreases k,
    {
        if name[k - 1] == '.' {
            if k - 1 == 0 {
                return None;
            }
            return Some(k - 1);
        }
        k = k - 1;
    }
    None
}

/// The stem of a file name (`Path::file_stem`).
pub fn stem_of(file_name: &str) -> (r: String)
    ensures
        r@ == file_stem(file_name@),
{
    let name = chars_of(file_name);
    let dot = find_ext_dot(&name);
    let nl = name.len();
    proof {
        lemma_last_dot(name@, name@.len() as int);
        assert(nl == name@.len());
        match ext_dot(name@) {
            Some(d0) => {
                assert(last_dot(name@, name@.len() as int) == Some(d0));
            },
            None => {},
        }
    }
    match dot {
        Some(d) => {
            let stem = slice_range(&name, 0, d);
            assert(stem@ =~= name@.take(d as int));
            string_of(&stem)
        },
        None => String::from_str(file_name),
    }
}

/// The name of the skill an entry of a skill directory holds, if any: a
/// directory holds one if it has a `SKILL.md`; a file if its extension is
/// `md`.  User skills are named by the entry's name, project skills by its
/// stem.
pub open spec fn skill_name_of(scope: Scope, file_name: Seq<char>, is_dir: bool, has_skill_md: bool) -> Option<
    Seq<char>,
> {
    let holds = if is_dir {
        has_skill_md
    } else {
        extension(file_name) == Some("md"@)
    };
    if holds {
        Some(
            match scope {
                Scope::User => file_name,
                Scope::Project => file_stem(file_name),
            },
        )
    } else {
        None
    }
}

/// Decide whether an entry of a skill directory is a skill, and its name.
pub fn skill_name(scope: Scope, file_name: &str, is_dir: bool, has_skill_md: bool) -> (r: Option<
    String,
>)
    ensures
        match skill_name_of(scope, file_name@, is_dir, has_skill_md) {
            Some(n) => r matches Some(s) && s@ == n,
            None => r is None,
        },
{
    let name = chars_of(file_name);
    let dot = find_ext_dot(&name);
    let nl = name.len();
    proof {
        lemma_last_dot(name@, name@.len() as int);
        assert(nl == name@.len());
        match ext_dot(name@) {
            Some(d0) => {
                assert(last_dot(name@, name@.len() as int) == Some(d0));
                assert(0 <= d0 < name@.len());
                assert(dot == Some(d0 as usize));
            },
            None => {},
        }
    }
    let holds = if is_dir {
        has_skill_md
    } else {
        match dot {
            Some(d) => {
                assert(ext_dot(name@) == Some(d as int));
                assert(d < name@.len());
                let ext = slice_range(&name, d + 1, name.len());
                assert(ext@ =~= name@.skip(d + 1));
                chars_eq(&ext, &chars_of("md"))
            },
            None => false,
        }
    };
    if !holds {
        return None;
    }
    proof {
        lemma_last_dot(name@, name@.len() as int);
    }
    match scope {
        Scope::User => Some(String::from_str(file_name)),
        Scope::Project => match dot {
            Some(d) => {
                let stem = slice_range(&name, 0, d);
                assert(stem@ =~= name@.take(d as int));
                Some(string_of(&stem))
            },
            None => Some(String::from_str(file_name)),
        },
    }
}

/// Skills sorted by name, stably (as the listings sort them).
pub open spec fn skills_by_name(v: Seq<Skill>) -> Seq<Skill> {
    sort_by_name(v.map_values(|k: Skill| (k.name@, k))).map_values(|p: (Seq<char>, Skill)| p.1)
}

/// Sorts skills by name; skills with equal names keep their order.
pub fn sort_skills(v: Vec<Skill>) -> (r: Vec<Skill>)
    ensures
        r@ == skills_by_name(v@),
{
    let ghost orig = v@;
    let mut v = v;
    let mut pairs: Vec<(Vec<char>, Skill)> = Vec::new();
    while v.len() > 0
        invariant
            v@.len() <= orig.len(),
            v@ == orig.take(v@.len() as int),
            pairs@.map_values(|p: (Vec<char>, Skill)| (p.0@, p.1)) == orig.skip(
                v@.len() as int,
            ).map_values(|k: Skill| (k.name@, k)),
        decreases v@.len(),
    {
        let ghost n = v@.len();
        let ghost before = pairs@.map_values(|p: (Vec<char>, Skill)| (p.0@, p.1));
        let k = v.pop().unwrap();
        let name = chars_of(k.name.as_str());
        let ghost pv = (name@, k);
        pairs.insert(0, (name, k));
        assert(pairs@.map_values(|p: (Vec<char>, Skill)| (p.0@, p.1)) =~= seq![pv] + before);
        assert(orig.skip(n - 1) =~= seq![orig[n - 1]] + orig.skip(n as int));
        assert(v@ =~= orig.take(v@.len() as int));
        assert(pairs@.map_values(|p: (Vec<char>, Skill)| (p.0@, p.1)) =~= orig.skip(
            v@.len() as int,
        ).map_values(|k: Skill| (k.name@, k)));
    }
    assert(orig.skip(0) =~= orig);
    let sorted = sort_by_name_stable(pairs);
    let ghost sv = sorted@.map_values(|p: (Vec<char>, Skill)| (p.0@, p.1));
    let mut sorted = sorted;
    let mut out: Vec<Skill> = Vec::new();
    while sorted.len() > 0
        invariant
            sorted@.len() <= sv.len(),
            sorted@.map_values(|p: (Vec<char>, Skill)| (p.0@, p.1)) == sv.take(sorted@.len() as int),
            out@ == sv.skip(sorted@.len() as int).map_values(|p: (Seq<char>, Skill)| p.1),
        decreases sorted@.len(),
    {
        let ghost n = sorted@.len();
        let ghost sb = sorted@.map_values(|p: (Vec<char>, Skill)| (p.0@, p.1));
        let p = sorted.pop().unwrap();
        assert(sb[n - 1] == (p.0@, p.1));
        assert(sv[n - 1] == (p.0@, p.1));
        out.insert(0, p.1);
        assert(sv.skip(n - 1) =~= seq![sv[n - 1]] + sv.skip(n as int));
        assert(out@ =~= sv.skip(sorted@.len() as int).map_values(|p: (Seq<char>, Skill)| p.1));
        assert(sorted@.map_values(|p: (Vec<char>, Skill)| (p.0@, p.1)) =~= sv.take(
            sorted@.len() as int,
        ));
    }
    assert(sv.skip(0) =~= sv);
    out
}

/// Servers sorted by name, stably (as the listings sort them).
pub open spec fn servers_by_name(v: Seq<McpServer>) -> Seq<McpServer> {
    sort_by_name(v.map_values(|k: McpServer| (k.name@, k))).map_values(|p: (Seq<char>, McpServer)| p.1)
}

/// Sorts servers by name; servers with equal names keep their order.
pub fn sort_servers(v: Vec<McpServer>) -> (r: Vec<McpServer>)
    ensures
        r@ == servers_by_name(v@),
{
    let ghost orig = v@;
    let mut v = v;
    let mut pairs: Vec<(Vec<char>, McpServer)> = Vec::new();
    while v.len() > 0
        invariant
            v@.len() <= orig.len(),
            v@ == orig.take(v@.len() as int),
            pairs@.map_values(|p: (Vec<char>, McpServer)| (p.0@, p.1)) == orig.skip(
                v@.len() as int,
            ).map_values(|k: McpServer| (k.name@, k)),
        decreases v@.len(),
    {
        let ghost n = v@.len();
        let ghost before = pairs@.map_values(|p: (Vec<char>, McpServer)| (p.0@, p.1));
        let k = v.pop().unwrap();
        let name = chars_of(k.name.as_str());
        let ghost pv = (name@, k);
        pairs.insert(0, (name, k));
        assert(pairs@.map_values(|p: (Vec<char>, McpServer)| (p.0@, p.1)) =~= seq![pv] + before);
        assert(orig.skip(n - 1) =~= seq![orig[n - 1]] + orig.skip(n as int));
        assert(v@ =~= orig.take(v@.len() as int));
        assert(pairs@.map_values(|p: (Vec<char>, McpServer)| (p.0@, p.1)) =~= orig.skip(
            v@.len() as int,
        ).map_values(|k: McpServer| (k.name@, k)));
    }
    assert(orig.skip(0) =~= orig);
    let sorted = sort_by_name_stable(pairs);
    let ghost sv = sorted@.map_values(|p: (Vec<char>, McpServer)| (p.0@, p.1));
    let mut sorted = sorted;
    let mut out: Vec<McpServer> = Vec::new();
    while sorted.len() > 0
        invariant
            sorted@.len() <= sv.len(),
            sorted@.map_values(|p: (Vec<char>, McpServer)| (p.0@, p.1)) == sv.take(sorted@.len() as int),
            out@ == sv.skip(sorted@.len() as int).map_values(|p: (Seq<char>, McpServer)| p.1),
        decreases sorted@.len(),
    {
        let ghost n = sorted@.len();
        let ghost sb = sorted@.map_values(|p: (Vec<char>, McpServer)| (p.0@, p.1));
        let p = sorted.pop().unwrap();
        assert(sb[n - 1] == (p.0@, p.1));
        assert(sv[n - 1] == (p.0@, p.1));
        out.insert(0, p.1);
        assert(sv.skip(n - 1) =~= seq![sv[n - 1]] + sv.skip(n as int));
        assert(out@ =~= sv.skip(sorted@.len() as int).map_values(|p: (Seq<char>, McpServer)| p.1));
        assert(sorted@.map_values(|p: (Vec<char>, McpServer)| (p.0@, p.1)) =~= sv.take(
            sorted@.len() as int,
        ));
    }
    assert(sv.skip(0) =~= sv);
    out
}

/// Puts two listings of MCP servers together, sorted by name.
pub fn merge_server_listings(first: Vec<McpServer>, second: Vec<McpServer>) -> (r: Vec<McpServer>)
    ensures
        r@ == servers_by_name(first@ + second@),
{
    let mut all = first;
    let mut second = second;
    all.append(&mut second);
    sort_servers(all)
}

/// Puts two listings of skills together, sorted by name.
pub fn merge_skills(first: Vec<Skill>, second: Vec<Skill>) -> (r: Vec<Skill>)
    ensures
        r@ == skills_by_name(first@ + second@),
{
    let mut all = first;
    let mut second = second;
    all.append(&mut second);
    sort_skills(all)
}

/// Every name of every list.
pub open spec fn all_names(lists: Seq<Seq<Seq<char>>>) -> Set<Seq<char>> {
    Set::new(|n: Seq<char>| exists|i: int| 0 <= i < lists.len() && lists[i].contains(n))
}

/// The names of servers.
pub open spec fn server_names(r: Seq<McpServer>) -> Seq<Seq<char>> {
    r.map_values(|s: McpServer| s.name@)
}

/// The MCP servers named in `name_lists`, each once, in ascending order of
/// name, in `scope`; a server is enabled unless a disabled list names it.
pub open spec fn servers_listed(
    r: Seq<McpServer>,
    name_lists: Seq<Seq<Seq<char>>>,
    disabled_lists: Seq<Seq<Seq<char>>>,
    scope: Scope,
) -> bool {
    &&& strictly_ascending(server_names(r))
    &&& forall|n: Seq<char>| #[trigger]
        server_names(r).contains(n) <==> all_names(name_lists).contains(n)
    &&& forall|i: int|
        0 <= i < r.len() ==> (#[trigger] r[i]).enabled == !all_names(disabled_lists).contains(
            r[i].name@,
        ) && r[i].scope == scope
}

/// The texts of a list of lists of strings.
pub open spec fn list_texts(v: Seq<Vec<String>>) -> Seq<Seq<Seq<char>>> {
    v.map_values(|l: Vec<String>| texts(l@))
}

fn flatten_names(lists: &Vec<Vec<String>>) -> (r: Vec<Vec<char>>)
    ensures
        forall|n: Seq<char>| #[trigger] char_views(r@).contains(n) <==> all_names(
            list_texts(lists@),
        ).contains(n),
{
    let ghost lt = list_texts(lists@);
    let mut out: Vec<Vec<char>> = Vec::new();
    let mut i: usize = 0;
    while i < lists.len()
        invariant
            i <= lists@.len(),
            lt == list_texts(lists@),
            forall|n: Seq<char>| #[trigger]
                char_views(out@).contains(n) <==> all_names(lt.take(i as int)).contains(n),
        decreases lists@.len() - i,
    {
        let list = &lists[i];
        let mut j: usize = 0;
        let ghost start = char_views(out@);
        while j < list.len()
            invariant
                j <= list@.len(),
                lt == list_texts(lists@),
                list@ == lists@[i as int]@,
                forall|n: Seq<char>| #[trigger]
                    char_views(out@).contains(n) <==> (start.contains(n) || texts(list@).take(
                        j as int,
                    ).contains(n)),
            decreases list@.len() - j,
        {
            let ghost before = char_views(out@);
            let c = chars_of(list[j].as_str());
            let ghost cv = c@;
            out.push(c);
            proof {
                assert(char_views(out@) =~= before.push(cv));
                let t1 = texts(list@).take(j + 1);
                let t0 = texts(list@).take(j as int);
                assert(t1 =~= t0.push(cv));
                assert forall|n: Seq<char>| #[trigger]
                    char_views(out@).contains(n) <==> (start.contains(n) || t1.contains(n)) by {
                    if char_views(out@).contains(n) {
                        let k = choose|k: int| 0 <= k < char_views(out@).len() && char_views(out@)[k] == n;
                        if k < before.len() {
                            assert(before[k] == n);
                            assert(before.contains(n));
                            if !start.contains(n) {
                                assert(t0.contains(n));
                                let m = choose|m: int| 0 <= m < t0.len() && t0[m] == n;
                                assert(t1[m] == n);
                            }
                        } else {
                            assert(t1[j as int] == n);
                        }
                    }
                    if start.contains(n) {
                        assert(before.contains(n));
                        let k = choose|k: int| 0 <= k < before.len() && before[k] == n;
                        assert(char_views(out@)[k] == n);
                    }
                    if t1.contains(n) {
                        let m = choose|m: int| 0 <= m < t1.len() && t1[m] == n;
                        if m < j {
                            assert(t0[m] == n);
                            assert(before.contains(n));
                            let k = choose|k: int| 0 <= k < before.len() && before[k] == n;
                            assert(char_views(out@)[k] == n);
                        } else {
                            assert(char_views(out@)[before.len() as int] == n);
                        }
                    }
                }
            }
            j = j + 1;
        }
        proof {
            assert(texts(list@).take(list@.len() as int) =~= texts(list@));
            assert(lt[i as int] == texts(list@));
            assert forall|n: Seq<char>| #[trigger] char_views(out@).contains(n) <==> all_names(
                lt.take(i + 1),
            ).contains(n) by {
                let a1 = lt.take(i + 1);
                let a0 = lt.take(i as int);
                if all_names(a1).contains(n) {
                    let k = choose|k: int| 0 <= k < a1.len() && a1[k].contains(n);
                    if k < i {
                        assert(a0[k].contains(n));
                        assert(all_names(a0).contains(n));
                    }
                }
                if all_names(a0).contains(n) {
                    let k = choose|k: int| 0 <= k < a0.len() && a0[k].contains(n);
                    assert(a1[k].contains(n));
                }
                if texts(list@).contains(n) {
                    assert(a1[i as int].contains(n));
                }
            }
        }
        i = i + 1;
    }
    assert(lt.take(lists@.len() as int) =~= lt);
    out
}

/// The MCP servers named in any of `name_lists`, sorted by name, each once,
/// in `scope`; one is enabled unless one of `disabled_lists` names it.
pub fn merge_servers(
    name_lists: &Vec<Vec<String>>,
    disabled_lists: &Vec<Vec<String>>,
    scope: Scope,
) -> (r: Vec<McpServer>)
    ensures
        servers_listed(r@, list_texts(name_lists@), list_texts(disabled_lists@), scope),
{
    let names = sorted_unique_strings(flatten_names(name_lists));
    let disabled = flatten_names(disabled_lists);
    let ghost nv = char_views(names@);
    let ghost dv = char_views(disabled@);
    let mut out: Vec<McpServer> = Vec::new();
    let mut i: usize = 0;
    while i < names.len()
        invariant
            i <= names@.len(),
            nv == char_views(names@),
            dv == char_views(disabled@),
            server_names(out@) == nv.take(i as int),
            forall|k: int|
                0 <= k < out@.len() ==> (#[trigger] out@[k]).enabled == !dv.contains(out@[k].name@)
                    && out@[k].scope == scope,
        decreases names@.len() - i,
    {
        let mut listed = false;
        let mut k: usize = 0;
        while k < disabled.len()
            invariant
                k <= disabled@.len(),
                i < names@.len(),
                dv == char_views(disabled@),
                listed == exists|m: int| 0 <= m < k && #[trigger] dv[m] == names@[i as int]@,
            decreases disabled@.len() - k,
        {
            let eq = chars_eq(&disabled[k], &names[i]);
            proof {
                assert(dv[k as int] == disabled@[k as int]@);
                if !eq {
                    assert forall|m: int| 0 <= m < k + 1 && #[trigger] dv[m] == names@[i as int]@ implies m < k by {}
                }
            }
            if eq {
                listed = true;
            }
            k = k + 1;
        }
        proof {
            assert(listed == dv.contains(nv[i as int]));
        }
        let ghost before = server_names(out@);
        let name = string_of(&names[i]);
        let ghost name_v = name@;
        out.push(McpServer { name, enabled: !listed, scope });
        assert(server_names(out@) =~= before.push(name_v));
        i = i + 1;
        assert(server_names(out@) =~= nv.take(i as int));
    }
    assert(nv.take(names@.len() as int) =~= nv);
    out
}

/// How a name resolves among the skills or servers of both scopes.
#[derive(Debug, PartialEq, Eq, Structural)]
pub enum ScopeLookup {
    /// Nothing has that name.
    NotFound,
    /// Everything of that name is in this scope.
    Found(Scope),
    /// Things of that name are in both scopes.
    Ambiguous,
}

/// The scopes of the items named `name`, in order.
pub open spec fn scopes_named(items: Seq<(Seq<char>, Scope)>, name: Seq<char>) -> Seq<Scope>
    decreases items.len(),
{
    if items.len() == 0 {
        Seq::empty()
    } else {
        scopes_named(items.drop_last(), name) + if items.last().0 == name {
            seq![items.last().1]
        } else {
            Seq::empty()
        }
    }
}

/// How `name` resolves: not found; the one scope of all its matches; or
/// ambiguous when they lie in different scopes.
pub open spec fn lookup_scope(items: Seq<(Seq<char>, Scope)>, name: Seq<char>) -> ScopeLookup {
    let ss = scopes_named(items, name);
    if ss.len() == 0 {
        ScopeLookup::NotFound
    } else if all_are(ss, ss[0]) {
        ScopeLookup::Found(ss[0])
    } else {
        ScopeLookup::Ambiguous
    }
}

/// Resolve which scope the name refers to, among `(name, scope)` items.
/// Whether every scope of `s` is `f`.
pub open spec fn all_are(s: Seq<Scope>, f: Scope) -> bool {
    forall|k: int| 0 <= k < s.len() ==> #[trigger] s[k] == f
}

proof fn lemma_all_are_push(s: Seq<Scope>, x: Scope, f: Scope)
    ensures
        all_are(s.push(x), f) == (all_are(s, f) && x == f),
{
    if all_are(s.push(x), f) {
        assert(s.push(x)[s.len() as int] == x);
        assert forall|k: int| 0 <= k < s.len() implies #[trigger] s[k] == f by {
            assert(s.push(x)[k] == s[k]);
        }
    }
    if all_are(s, f) && x == f {
        assert forall|k: int| 0 <= k < s.push(x).len() implies #[trigger] s.push(x)[k] == f by {
            if k < s.len() {
                assert(s.push(x)[k] == s[k]);
            }
        }
    }
}

pub fn resolve_scope(name: &str, items: &Vec<(String, Scope)>) -> (r: ScopeLookup)
    ensures
        r == lookup_scope(items@.map_values(|p: (String, Scope)| (p.0@, p.1)), name@),
{
    let ghost iv = items@.map_values(|p: (String, Scope)| (p.0@, p.1));
    let key = chars_of(name);
    let mut found = false;
    let mut first = Scope::User;
    let mut mixed = false;
    let mut i: usize = 0;
    while i < items.len()
        invariant
            i <= items@.len(),
            key@ == name@,
            iv == items@.map_values(|p: (String, Scope)| (p.0@, p.1)),
            found == (scopes_named(iv.take(i as int), name@).len() > 0),
            !found ==> !mixed,
            found ==> scopes_named(iv.take(i as int), name@)[0] == first,
            found ==> mixed == !all_are(scopes_named(iv.take(i as int), name@), first),
        decreases items@.len() - i,
    {
        let ghost s0 = scopes_named(iv.take(i as int), name@);
        assert(iv.take(i + 1).drop_last() =~= iv.take(i as int));
        assert(iv.take(i + 1).last() == iv[i as int]);
        assert(iv[i as int] == (items@[i as int].0@, items@[i as int].1));
        let ghost s1 = scopes_named(iv.take(i + 1), name@);
        if chars_eq(&chars_of(items[i].0.as_str()), &key) {
            let sc = items[i].1;
            assert(s1 =~= s0.push(sc));
            proof {
                lemma_all_are_push(s0, sc, first);
                lemma_all_are_push(s0, sc, sc);
            }
            if !found {
                found = true;
                first = sc;
                assert(s0 =~= Seq::<Scope>::empty());
                assert(all_are(s0, sc));
            } else {
                if sc != first {
                    mixed = true;
                }
            }
        } else {
            assert(iv[i as int].0 != name@);
            assert(s1 =~= s0);
        }
        i = i + 1;
    }
    assert(iv.take(items@.len() as int) =~= iv);
    if !found {
        ScopeLookup::NotFound
    } else if mixed {
        ScopeLookup::Ambiguous
    } else {
        ScopeLookup::Found(first)
    }
}

/// A disabled list with `name` added: unchanged if it names it already;
/// else with `name` appended and the whole sorted.
pub open spec fn with_disabled(list: Seq<Seq<char>>, name: Seq<char>) -> Seq<Seq<char>> {
    if list.contains(name) {
        list
    } else {
        list.push(name).sort_by(crate::order::lex_order())
    }
}

/// Add `name` to a disabled list.
pub fn add_disabled(list: &Vec<String>, name: &str) -> (r: Vec<String>)
    ensures
        texts(r@) == with_disabled(texts(list@), name@),
{
    let mut chars: Vec<Vec<char>> = Vec::new();
    let mut found = false;
    let mut i: usize = 0;
    let key = chars_of(name);
    while i < list.len()
        invariant
            i <= list@.len(),
            key@ == name@,
            char_views(chars@) == texts(list@).take(i as int),
            found == texts(list@).take(i as int).contains(name@),
        decreases list@.len() - i,
    {
        let c = chars_of(list[i].as_str());
        let ghost before = char_views(chars@);
        let eq = chars_eq(&c, &key);
        let ghost cv = c@;
        chars.push(c);
        proof {
            let t1 = texts(list@).take(i + 1);
            assert(char_views(chars@) =~= before.push(cv));
            assert(t1 =~= before.push(cv));
            if !found && !eq {
                assert(!t1.contains(name@)) by {
                    if t1.contains(name@) {
                        let k = choose|k: int| 0 <= k < t1.len() && t1[k] == name@;
                        if k < i {
                            assert(before[k] == name@);
                            assert(before.contains(name@));
                        }
                    }
                }
            }
            if found {
                let k = choose|k: int| 0 <= k < before.len() && before[k] == name@;
                assert(t1[k] == name@);
            }
            if eq {
                assert(t1[i as int] == name@);
            }
        }
        found = found || eq;
        i = i + 1;
    }
    assert(texts(list@).take(list@.len() as int) =~= texts(list@));
    let mut out: Vec<String> = Vec::new();
    if found {
        let mut j: usize = 0;
        while j < list.len()
            invariant
                j <= list@.len(),
                texts(out@) == texts(list@).take(j as int),
            decreases list@.len() - j,
        {
            let ghost before = texts(out@);
            let s = list[j].clone();
            out.push(s);
            assert(texts(out@) =~= before.push(list@[j as int]@));
            j = j + 1;
            assert(texts(out@) =~= texts(list@).take(j as int));
        }
        assert(texts(list@).take(list@.len() as int) =~= texts(list@));
        out
    } else {
        let ghost pushed = char_views(chars@).push(key@);
        chars.push(key);
        assert(char_views(chars@) =~= pushed);
        let sorted = crate::order::sort_strings(chars);
        let mut j: usize = 0;
        while j < sorted.len()
            invariant
                j <= sorted@.len(),
                texts(out@) == char_views(sorted@).take(j as int),
            decreases sorted@.len() - j,
        {
            let ghost before = texts(out@);
            let s = string_of(&sorted[j]);
            out.push(s);
            assert(texts(out@) =~= before.push(sorted@[j as int]@));
            j = j + 1;
            assert(texts(out@) =~= char_views(sorted@).take(j as int));
        }
        assert(char_views(sorted@).take(sorted@.len() as int) =~= char_views(sorted@));
        out
    }
}

/// A disabled list without `name`.
pub open spec fn without_name(list: Seq<Seq<char>>, name: Seq<char>) -> Seq<Seq<char>>
    decreases list.len(),
{
    if list.len() == 0 {
        Seq::empty()
    } else if list.last() == name {
        without_name(list.drop_last(), name)
    } else {
        without_name(list.drop_last(), name).push(list.last())
    }
}

/// Remove `name` from a disabled list, keeping the order of the rest.
pub fn remove_disabled(list: &Vec<String>, name: &str) -> (r: Vec<String>)
    ensures
        texts(r@) == without_name(texts(list@), name@),
{
    let key = chars_of(name);
    let mut out: Vec<String> = Vec::new();
    let mut i: usize = 0;
    while i < list.len()
        invariant
            i <= list@.len(),
            key@ == name@,
            texts(out@) == without_name(texts(list@).take(i as int), name@),
        decreases list@.len() - i,
    {
        assert(texts(list@).take(i + 1).drop_last() =~= texts(list@).take(i as int));
        assert(texts(list@).take(i + 1).last() == list@[i as int]@);
        if !chars_eq(&chars_of(list[i].as_str()), &key) {
            let ghost before = texts(out@);
            let s = list[i].clone();
            out.push(s);
            assert(texts(out@) =~= before.push(list@[i as int]@));
        }
        i = i + 1;
    }
    assert(texts(list@).take(list@.len() as int) =~= texts(list@));
    out
}

proof fn lemma_without_name(list: Seq<Seq<char>>, name: Seq<char>, x: Seq<char>)
    ensures
        without_name(list, name).contains(x) == (list.contains(x) && x != name),
    decreases list.len(),
{
    if list.len() > 0 {
        let rest = list.drop_last();
        lemma_without_name(rest, name, x);
        assert(list =~= rest.push(list.last()));
        if list.last() != name {
            let w = without_name(rest, name);
            assert(w.push(list.last()).contains(x) == (w.contains(x) || x == list.last())) by {
                if w.push(list.last()).contains(x) {
                    let k = choose|k: int| 0 <= k < w.len() + 1 && w.push(list.last())[k] == x;
                    if k < w.len() {
                        assert(w[k] == x);
                    }
                }
                if w.contains(x) {
                    let k = choose|k: int| 0 <= k < w.len() && w[k] == x;
                    assert(w.push(list.last())[k] == x);
                }
                if x == list.last() {
                    assert(w.push(list.last())[w.len() as int] == x);
                }
            }
        }
        assert(list.contains(x) == (rest.contains(x) || x == list.last())) by {
            if list.contains(x) {
                let k = choose|k: int| 0 <= k < list.len() && list[k] == x;
                if k < rest.len() {
                    assert(rest[k] == x);
                }
            }
            if rest.contains(x) {
                let k = choose|k: int| 0 <= k < rest.len() && rest[k] == x;
                assert(list[k] == x);
            }
            if x == list.last() {
                assert(list[list.len() - 1] == x);
            }
        }
    }
}

/// A name added to a disabled list is in it, adding it again changes
/// nothing, and every other name is in the new list just when it was in the
/// old one; a name removed is no longer in the list, and every other name
/// stays in or out as it was.
pub proof fn lemma_disabled_list_laws(list: Seq<Seq<char>>, name: Seq<char>, other: Seq<char>)
    requires
        other != name,
    ensures
        with_disabled(list, name).contains(name),
        with_disabled(with_disabled(list, name), name) == with_disabled(list, name),
        with_disabled(list, name).contains(other) == list.contains(other),
        !without_name(list, name).contains(name),
        without_name(list, name).contains(other) == list.contains(other),
{
    lemma_without_name(list, name, name);
    lemma_without_name(list, name, other);
    if !list.contains(name) {
        let p = list.push(name);
        crate::order::lemma_lex_total_ordering();
        p.lemma_sort_by_ensures(crate::order::lex_order());
        p.to_multiset_ensures();
        p.sort_by(crate::order::lex_order()).to_multiset_ensures();
        let s = p.sort_by(crate::order::lex_order());
        assert(p[list.len() as int] == name);
        assert(p.to_multiset().count(name) > 0);
        assert(s.to_multiset().count(name) > 0);
        assert(s.contains(name));
        assert(s.contains(other) == p.contains(other)) by {
            if p.contains(other) {
                assert(p.to_multiset().count(other) > 0);
                assert(s.to_multiset().count(other) > 0);
            }
            if s.contains(other) {
                assert(s.to_multiset().count(other) > 0);
                assert(p.to_multiset().count(other) > 0);
            }
        }
        assert(p.contains(other) == list.contains(other)) by {
            if p.contains(other) {
                let k = choose|k: int| 0 <= k < p.len() && p[k] == other;
                if k < list.len() {
                    assert(list[k] == other);
                }
            }
            if list.contains(other) {
                let k = choose|k: int| 0 <= k < list.len() && list[k] == other;
                assert(p[k] == other);
            }
        }
    }
}

/// The path from the user configuration's root to a member of the entry
/// for the project `project`.
pub open spec fn project_path(project: Seq<char>, member: Seq<char>) -> Seq<Seq<char>> {
    seq!["projects"@, project, member]
}

/// What `serde_json::from_str::<serde_json::Value>` reports for the text
/// `text`: its error message, or `None` where the text is JSON.
pub uninterp spec fn json_parse_error(text: Seq<char>) -> Option<Seq<char>>;

/// The keys of the object found in the JSON text `text` by taking the
/// members named along `path` in turn (`serde_json::Value::get` with each
/// name), in the order `serde_json` keeps them; none where no object is
/// found there.
pub uninterp spec fn json_object_keys(text: Seq<char>, path: Seq<Seq<char>>) -> Seq<Seq<char>>;

/// The items of the array found in the JSON text `text` by taking the
/// members named along `path` in turn (`serde_json::Value::get` with each
/// name), each a string or `None` for any other value; no items where no
/// array is found there.
pub uninterp spec fn json_array_items(text: Seq<char>, path: Seq<Seq<char>>) -> Seq<Option<Seq<char>>>;

/// The texts of optional strings.
pub open spec fn opt_texts(v: Seq<Option<String>>) -> Seq<Option<Seq<char>>> {
    v.map_values(|x: Option<String>| match x {
        Some(t) => Some(t@),
        None => None,
    })
}

/// Parses `text` with `serde_json::from_str` into a `serde_json::Value`,
/// takes the members named along `path` with `Value::get`, and gives the
/// keys of the object found.  Claimed: the parse fails exactly as
/// `json_parse_error` says, with its message; else the keys are
/// `json_object_keys` of the arguments.
#[verifier::external_body]
fn object_keys_at(text: &str, path: &Vec<String>) -> (r: Result<Vec<String>, String>)
    ensures
        match json_parse_error(text@) {
            Some(e) => r matches Err(m) && m@ == e,
            None => r matches Ok(v) && texts(v@) == json_object_keys(text@, texts(path@)),
        },
{
    let value: serde_json::Value = serde_json::from_str(text).map_err(|e| e.to_string())?;
    let found = path.iter().try_fold(&value, |v, name| v.get(name.as_str()));
    Ok(found.and_then(serde_json::Value::as_object).map(|m| m.keys().cloned().collect()).unwrap_or_default())
}

/// Parses `text` with `serde_json::from_str` into a `serde_json::Value`,
/// takes the members named along `path` with `Value::get`, and gives the
/// items of the array found, each through `Value::as_str`.  Claimed: the
/// parse fails exactly as `json_parse_error` says, with its message; else the
/// items are `json_array_items` of the arguments.
#[verifier::external_body]
fn array_items_at(text: &str, path: &Vec<String>) -> (r: Result<Vec<Option<String>>, String>)
    ensures
        match json_parse_error(text@) {
            Some(e) => r matches Err(m) && m@ == e,
            None => r matches Ok(v) && opt_texts(v@) == json_array_items(text@, texts(path@)),
        },
{
    let value: serde_json::Value = serde_json::from_str(text).map_err(|e| e.to_string())?;
    let found = path.iter().try_fold(&value, |v, name| v.get(name.as_str()));
    Ok(found.and_then(serde_json::Value::as_array).map(|a| a.iter().map(|x| x.as_str().map(String::from)).collect()).unwrap_or_default())
}

/// A path of member names.
fn path_of(names: &[&str]) -> (r: Vec<String>)
    ensures
        texts(r@) == names@.map_values(|n: &str| n@),
{
    let mut r: Vec<String> = Vec::new();
    let mut i: usize = 0;
    while i < names.len()
        invariant
            i <= names@.len(),
            texts(r@) == names@.take(i as int).map_values(|n: &str| n@),
        decreases names@.len() - i,
    {
        let ghost before = texts(r@);
        let t = String::from_str(names[i]);
        r.push(t);
        assert(texts(r@) =~= before.push(names@[i as int]@));
        assert(names@.take(i + 1).map_values(|n: &str| n@) =~= names@.take(i as int).map_values(
            |n: &str| n@,
        ).push(names@[i as int]@));
        i = i + 1;
    }
    assert(names@.take(names@.len() as int) =~= names@);
    r
}

/// The strings among optional strings, in order.
pub open spec fn present(v: Seq<Option<Seq<char>>>) -> Seq<Seq<char>>
    decreases v.len(),
{
    if v.len() == 0 {
        Seq::empty()
    } else {
        present(v.drop_last()) + match v.last() {
            Some(t) => seq![t],
            None => Seq::empty(),
        }
    }
}

/// Keeps the strings among optional strings.
pub fn keep_strings(v: Vec<Option<String>>) -> (r: Vec<String>)
    ensures
        texts(r@) == present(opt_texts(v@)),
{
    let ghost ov = opt_texts(v@);
    let mut out: Vec<String> = Vec::new();
    let mut i: usize = 0;
    while i < v.len()
        invariant
            i <= v@.len(),
            ov == opt_texts(v@),
            texts(out@) == present(ov.take(i as int)),
        decreases v@.len() - i,
    {
        assert(ov.take(i + 1).drop_last() =~= ov.take(i as int));
        match &v[i] {
            Some(t) => {
                let ghost before = texts(out@);
                out.push(t.clone());
                assert(texts(out@) =~= before + seq![t@]);
            },
            None => {},
        }
        i = i + 1;
    }
    assert(ov.take(v@.len() as int) =~= ov);
    out
}

/// The server names a project's JSON files add to those of its settings:
/// the servers of `.mcp.json`, and those of the project's entry in the user
/// configuration; a file that is not there or not JSON adds none.
pub open spec fn project_json_names(
    mcp_json: Option<Seq<char>>,
    user_config: Option<Seq<char>>,
    project: Seq<char>,
) -> Seq<Seq<Seq<char>>> {
    let from_mcp = match mcp_json {
        Some(t) => if json_parse_error(t) is None {
            seq![json_object_keys(t, seq!["mcpServers"@])]
        } else {
            Seq::empty()
        },
        None => Seq::empty(),
    };
    let from_user = match user_config {
        Some(t) => if json_parse_error(t) is None {
            seq![json_object_keys(t, project_path(project, "mcpServers"@))]
        } else {
            Seq::empty()
        },
        None => Seq::empty(),
    };
    from_mcp + from_user
}

/// The disabled list the project's entry in the user configuration adds.
pub open spec fn project_json_disabled(user_config: Option<Seq<char>>, project: Seq<char>) -> Seq<
    Seq<Seq<char>>,
> {
    match user_config {
        Some(t) => if json_parse_error(t) is None {
            seq![present(json_array_items(t, project_path(project, "disabledMcpjsonServers"@)))]
        } else {
            Seq::empty()
        },
        None => Seq::empty(),
    }
}

/// The MCP servers of a project: those named in its settings files
/// (`settings_names`, with their disabled lists `settings_disabled`), in the
/// text of `.mcp.json` at the project root, and in the project's entry
/// (under its root path `project`) in the text of the user configuration;
/// sorted by name, each once, enabled unless a disabled list names it.
pub fn list_project_servers(
    settings_names: Vec<Vec<String>>,
    settings_disabled: Vec<Vec<String>>,
    mcp_json: Option<&str>,
    user_config: Option<&str>,
    project: &str,
) -> (r: Vec<McpServer>)
    ensures
        servers_listed(
            r@,
            list_texts(settings_names@) + project_json_names(
                match mcp_json {
                    Some(t) => Some(t@),
                    None => None,
                },
                match user_config {
                    Some(t) => Some(t@),
                    None => None,
                },
                project@,
            ),
            list_texts(settings_disabled@) + project_json_disabled(
                match user_config {
                    Some(t) => Some(t@),
                    None => None,
                },
                project@,
            ),
            Scope::Project,
        ),
{
    let ghost mv: Option<Seq<char>> = match mcp_json {
        Some(t) => Some(t@),
        None => None,
    };
    let ghost uv: Option<Seq<char>> = match user_config {
        Some(t) => Some(t@),
        None => None,
    };
    let ghost n0 = list_texts(settings_names@);
    let ghost d0 = list_texts(settings_disabled@);
    let mut names = settings_names;
    let mut disabled = settings_disabled;
    let ghost mut from_mcp: Seq<Seq<Seq<char>>> = Seq::empty();
    if let Some(t) = mcp_json {
        let at = path_of(&["mcpServers"]);
        assert(texts(at@) =~= seq!["mcpServers"@]);
        if let Ok(keys) = object_keys_at(t, &at) {
            proof {
                from_mcp = seq![texts(keys@)];
            }
            names.push(keys);
        }
    }
    assert(list_texts(names@) =~= n0 + from_mcp);
    let ghost mut from_user: Seq<Seq<Seq<char>>> = Seq::empty();
    let ghost mut dis_user: Seq<Seq<Seq<char>>> = Seq::empty();
    if let Some(t) = user_config {
        let servers_at = path_of(&["projects", project, "mcpServers"]);
        let disabled_at = path_of(&["projects", project, "disabledMcpjsonServers"]);
        assert(texts(servers_at@) =~= project_path(project@, "mcpServers"@));
        assert(texts(disabled_at@) =~= project_path(project@, "disabledMcpjsonServers"@));
        if let Ok(keys) = object_keys_at(t, &servers_at) {
            proof {
                from_user = seq![texts(keys@)];
            }
            names.push(keys);
            if let Ok(items) = array_items_at(t, &disabled_at) {
                let strings = keep_strings(items);
                proof {
                    dis_user = seq![texts(strings@)];
                }
                disabled.push(strings);
            }
        }
    }
    assert(list_texts(names@) =~= n0 + from_mcp + from_user);
    assert(list_texts(disabled@) =~= d0 + dis_user);
    assert(from_mcp + from_user =~= project_json_names(mv, uv, project@));
    assert(dis_user =~= project_json_disabled(uv, project@));
    assert(list_texts(names@) =~= n0 + project_json_names(mv, uv, project@));
    merge_servers(&names, &disabled, Scope::Project)
}

/// The user-level MCP servers in the text of the user configuration: its
/// servers, enabled unless its disabled list names them, sorted by name;
/// the parse error's message where the text is not JSON.
pub fn list_user_servers(user_config: &str) -> (r: Result<Vec<McpServer>, String>)
    ensures
        match json_parse_error(user_config@) {
            Some(e) => r matches Err(m) && m@ == e,
            None => r matches Ok(v) && servers_listed(
                v@,
                seq![json_object_keys(user_config@, seq!["mcpServers"@])],
                seq![present(json_array_items(user_config@, seq!["disabledMcpjsonServers"@]))],
                Scope::User,
            ),
        },
{
    let servers_at = path_of(&["mcpServers"]);
    let disabled_at = path_of(&["disabledMcpjsonServers"]);
    assert(texts(servers_at@) =~= seq!["mcpServers"@]);
    assert(texts(disabled_at@) =~= seq!["disabledMcpjsonServers"@]);
    let keys = match object_keys_at(user_config, &servers_at) {
        Ok(k) => k,
        Err(e) => return Err(e),
    };
    let items = match array_items_at(user_config, &disabled_at) {
        Ok(v) => v,
        Err(e) => return Err(e),
    };
    let strings = keep_strings(items);
    let ghost kv = texts(keys@);
    let ghost sv = texts(strings@);
    let mut names: Vec<Vec<String>> = Vec::new();
    names.push(keys);
    let mut disabled: Vec<Vec<String>> = Vec::new();
    disabled.push(strings);
    assert(list_texts(names@) =~= seq![kv]);
    assert(list_texts(disabled@) =~= seq![sv]);
    Ok(merge_servers(&names, &disabled, Scope::User))
}

/// An entry of a JSON array after an edit: the entry at an index of the
/// array before, or a new string.
#[derive(Debug, PartialEq, Eq)]
pub enum ArrayEntry {
    Kept(usize),
    Text(String),
}

pub enum EntryView {
    Kept(int),
    Text(Seq<char>),
}

pub open spec fn entry_views(v: Seq<ArrayEntry>) -> Seq<EntryView> {
    v.map_values(|e: ArrayEntry| match e {
        ArrayEntry::Kept(i) => EntryView::Kept(i as int),
        ArrayEntry::Text(t) => EntryView::Text(t@),
    })
}

/// The indices of the entries of `items` that `keep` keeps, in order.
pub open spec fn indices_where(items: Seq<Option<Seq<char>>>, keep: spec_fn(Option<Seq<char>>) -> bool) -> Seq<int>
    decreases items.len(),
{
    if items.len() == 0 {
        Seq::empty()
    } else {
        indices_where(items.drop_last(), keep) + if keep(items.last()) {
            seq![items.len() - 1]
        } else {
            Seq::empty()
        }
    }
}

/// Which entries an edit keeps: those not equal to the string `name` (0),
/// all (1), those that are not strings (2).
pub open spec fn keep_rule(rule: u8, name: Seq<char>) -> spec_fn(Option<Seq<char>>) -> bool {
    |o: Option<Seq<char>>| if rule == 0 {
        o != Some(name)
    } else if rule == 1 {
        true
    } else {
        o is None
    }
}

pub open spec fn kept_entries(ix: Seq<int>) -> Seq<EntryView> {
    ix.map_values(|i: int| EntryView::Kept(i))
}

/// The user configuration's array of disabled servers (each entry a string or
/// another JSON value, `None`) after enabling or disabling `name`: enabling
/// drops every entry equal to `name`; disabling leaves an array that names it
/// as it is, and else puts the values that are not strings first, in their
/// order, then the strings with `name` added, sorted.
pub open spec fn disabled_array_after(items: Seq<Option<Seq<char>>>, name: Seq<char>, enable: bool) -> Seq<
    EntryView,
> {
    if enable {
        kept_entries(indices_where(items, keep_rule(0, name)))
    } else if present(items).contains(name) {
        kept_entries(indices_where(items, keep_rule(1, name)))
    } else {
        kept_entries(indices_where(items, keep_rule(2, name))) + with_disabled(present(items), name).map_values(
            |t: Seq<char>| EntryView::Text(t),
        )
    }
}

fn kept_by_rule(items: &Vec<Option<String>>, name: &str, rule: u8) -> (r: Vec<ArrayEntry>)
    ensures
        entry_views(r@) == kept_entries(indices_where(opt_texts(items@), keep_rule(rule, name@))),
{
    let ghost iv = opt_texts(items@);
    let ghost keep = keep_rule(rule, name@);
    let mut out: Vec<ArrayEntry> = Vec::new();
    let mut i: usize = 0;
    while i < items.len()
        invariant
            i <= items@.len(),
            iv == opt_texts(items@),
            keep == keep_rule(rule, name@),
            entry_views(out@) == kept_entries(indices_where(iv.take(i as int), keep)),
        decreases items@.len() - i,
    {
        assert(iv.take(i + 1).drop_last() =~= iv.take(i as int));
        assert(iv.take(i + 1).last() == iv[i as int]);
        let hit = match &items[i] {
            Some(t) => str_is(t.as_str(), name),
            None => false,
        };
        let keep_it = if rule == 0 {
            !hit
        } else if rule == 1 {
            true
        } else {
            items[i].is_none()
        };
        proof {
            assert(keep_it == keep(iv[i as int]));
        }
        let ghost before = out@;
        if keep_it {
            out.push(ArrayEntry::Kept(i));
            assert(entry_views(out@) =~= entry_views(before).push(EntryView::Kept(i as int)));
        }
        assert(entry_views(out@) =~= kept_entries(indices_where(iv.take(i + 1), keep)));
        i = i + 1;
    }
    assert(iv.take(items@.len() as int) =~= iv);
    out
}

fn strings_among(items: &Vec<Option<String>>) -> (r: Vec<String>)
    ensures
        texts(r@) == present(opt_texts(items@)),
{
    let ghost ov = opt_texts(items@);
    let mut out: Vec<String> = Vec::new();
    let mut i: usize = 0;
    while i < items.len()
        invariant
            i <= items@.len(),
            ov == opt_texts(items@),
            texts(out@) == present(ov.take(i as int)),
        decreases items@.len() - i,
    {
        assert(ov.take(i + 1).drop_last() =~= ov.take(i as int));
        match &items[i] {
            Some(t) => {
                let ghost before = texts(out@);
                out.push(t.clone());
                assert(texts(out@) =~= before + seq![t@]);
            },
            None => {},
        }
        i = i + 1;
    }
    assert(ov.take(items@.len() as int) =~= ov);
    out
}

/// Edit the user configuration's array of disabled servers for enabling
/// (`enable`) or disabling `name`; `items` are its entries, `None` for a
/// value that is not a string.
pub fn edit_disabled_array(items: &Vec<Option<String>>, name: &str, enable: bool) -> (r: Vec<ArrayEntry>)
    ensures
        entry_views(r@) == disabled_array_after(opt_texts(items@), name@, enable),
{
    if enable {
        return kept_by_rule(items, name, 0);
    }
    let strings = strings_among(items);
    let mut found = false;
    let mut k: usize = 0;
    while k < strings.len()
        invariant
            k <= strings@.len(),
            found == exists|j: int| 0 <= j < k && strings@[j]@ == name@,
        decreases strings@.len() - k,
    {
        if str_is(strings[k].as_str(), name) {
            found = true;
        }
        k = k + 1;
    }
    proof {
        let pv = present(opt_texts(items@));
        assert(pv == texts(strings@));
        if found {
            let j = choose|j: int| 0 <= j < strings@.len() && strings@[j]@ == name@;
            assert(pv[j] == name@);
        } else if pv.contains(name@) {
            let j = choose|j: int| 0 <= j < pv.len() && pv[j] == name@;
            assert(strings@[j]@ == name@);
        }
    }
    if found {
        return kept_by_rule(items, name, 1);
    }
    let mut out = kept_by_rule(items, name, 2);
    let added = add_disabled(&strings, name);
    let ghost head = entry_views(out@);
    let ghost av = texts(added@);
    let mut j: usize = 0;
    while j < added.len()
        invariant
            j <= added@.len(),
            av == texts(added@),
            entry_views(out@) == head + av.take(j as int).map_values(|t: Seq<char>| EntryView::Text(t)),
        decreases added@.len() - j,
    {
        let ghost before = out@;
        out.push(ArrayEntry::Text(added[j].clone()));
        assert(av.take(j + 1) =~= av.take(j as int).push(added@[j as int]@));
        assert(entry_views(out@) =~= entry_views(before).push(EntryView::Text(added@[j as int]@)));
        assert(head + av.take(j + 1).map_values(|t: Seq<char>| EntryView::Text(t)) =~= head + av.take(
            j as int,
        ).map_values(|t: Seq<char>| EntryView::Text(t)).push(EntryView::Text(added@[j as int]@)));
        j = j + 1;
    }
    assert(av.take(added@.len() as int) =~= av);
    out
}

proof fn lemma_word_starts_solid(s: Seq<char>, n: int)
    requires
        1 <= n <= s.len(),
        forall|i: int| 0 <= i < s.len() ==> !is_ws(#[trigger] s[i]),
    ensures
        word_starts(s, n) == 1,
    decreases n,
{
    if n > 1 {
        lemma_word_starts_solid(s, n - 1);
        assert(!is_ws(s[n - 2]));
        assert(word_starts(s, n) == word_starts(s, n - 1));
    } else {
        assert(!is_ws(s[0]));
        assert(word_starts(s, 0) == 0);
    }
}

proof fn lemma_word_starts_prefix(s: Seq<char>, t: Seq<char>, n: int)
    requires
        0 <= n <= s.len(),
        n <= t.len(),
        s.take(n) == t.take(n),
    ensures
        word_starts(s, n) == word_starts(t, n),
    decreases n,
{
    if n > 0 {
        assert(s.take(n - 1) =~= t.take(n - 1)) by {
            assert forall|i: int| 0 <= i < n - 1 implies #[trigger] s.take(n - 1)[i] == t.take(n - 1)[i] by {
                assert(s.take(n)[i] == t.take(n)[i]);
            }
        }
        lemma_word_starts_prefix(s, t, n - 1);
        assert(s[n - 1] == s.take(n)[n - 1] && t[n - 1] == t.take(n)[n - 1]);
        if n >= 2 {
            assert(s[n - 2] == s.take(n)[n - 2] && t[n - 2] == t.take(n)[n - 2]);
        }
    }
}

proof fn lemma_word_starts_after_space(a: Seq<char>, c: char, b: Seq<char>, j: int)
    requires
        is_ws(c),
        0 <= j <= b.len(),
    ensures
        word_starts(a + seq![c] + b, a.len() + 1 + j) == word_starts(a, a.len() as int) + word_starts(b, j),
    decreases j,
{
    let s = a + seq![c] + b;
    let k = a.len() as int;
    if j == 0 {
        assert(s.take(k) =~= a.take(k));
        lemma_word_starts_prefix(s, a, k);
        assert(s[k] == c);
    } else {
        lemma_word_starts_after_space(a, c, b, j - 1);
        assert(s[k + j] == b[j - 1]);
        if j >= 2 {
            assert(s[k + j - 1] == b[j - 2]);
        } else {
            assert(s[k] == c);
        }
    }
}

/// Words are the runs of characters between whitespace: a text that holds no
/// whitespace (a hyphen, a dot, any other character) and is not empty is one
/// word, and a whitespace character between two texts adds their words.
pub proof fn lemma_words_are_runs(a: Seq<char>, c: char, b: Seq<char>)
    ensures
        a.len() > 0 && (forall|i: int| 0 <= i < a.len() ==> !is_ws(#[trigger] a[i])) ==> word_count(a) == 1,
        is_ws(c) ==> word_count(a + seq![c] + b) == word_count(a) + word_count(b),
        word_count(Seq::<char>::empty()) == 0,
{
    if a.len() > 0 && (forall|i: int| 0 <= i < a.len() ==> !is_ws(#[trigger] a[i])) {
        lemma_word_starts_solid(a, a.len() as int);
    }
    if is_ws(c) {
        lemma_word_starts_after_space(a, c, b, b.len() as int);
        assert((a + seq![c] + b).len() == a.len() + 1 + b.len());
    }
}

} // verus!
