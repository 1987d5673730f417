//! The `kart` command dispatcher: which subcommands exist, what completes a
//! partial command name, and how a subcommand's completion lines are read.
//! Scanning directories and running subcommands is the program's business.
use vstd::prelude::*;
use crate::ffbm::db::texts;
use crate::order::{char_views, sorted_unique_strings, strictly_ascending};
use crate::text::{chars_eq, chars_of, slice_range, starts_with, str_is, string_of};

verus! {

/// A command file's name without its `kart-` prefix, if it has one.
pub open spec fn command_name_of(file_name: Seq<char>) -> Seq<char> {
    if file_name.len() >= 5 && file_name.take(5) == "kart-"@ {
        file_name.skip(5)
    } else {
        file_name
    }
}

/// The command a file provides.
pub fn command_name(file_name: &str) -> (r: String)
    ensures
        r@ == command_name_of(file_name@),
{
    let f = chars_of(file_name);
    let prefix = chars_of("kart-");
    proof {
        reveal_strlit("kart-");
    }
    if starts_with(&f, &prefix) {
        let rest = slice_range(&f, 5, f.len());
        assert(rest@ =~= file_name@.skip(5));
        string_of(&rest)
    } else {
        String::from_str(file_name)
    }
}

/// The commands of the executables `found`, (file name, path) in the order
/// scanned: each name once, with the path of the first file providing it.
pub open spec fn commands_of(found: Seq<(Seq<char>, Seq<char>)>, n: int) -> Seq<(Seq<char>, Seq<char>)>
    decreases n,
{
    if n <= 0 {
        Seq::empty()
    } else {
        let prev = commands_of(found, n - 1);
        let name = command_name_of(found[n - 1].0);
        if exists|k: int| 0 <= k < prev.len() && prev[k].0 == name {
            prev
        } else {
            prev.push((name, found[n - 1].1))
        }
    }
}

/// Each command is discovered once, and every executable scanned provides a
/// command that is discovered.
pub proof fn lemma_commands_unique_and_complete(found: Seq<(Seq<char>, Seq<char>)>, n: int)
    requires
        0 <= n <= found.len(),
    ensures
        forall|a: int, b: int|
            0 <= a < b < commands_of(found, n).len() ==> commands_of(found, n)[a].0 != commands_of(
                found,
                n,
            )[b].0,
        forall|i: int|
            0 <= i < n ==> exists|k: int|
                0 <= k < commands_of(found, n).len() && commands_of(found, n)[k].0
                    == command_name_of(#[trigger] found[i].0),
    decreases n,
{
    if n > 0 {
        lemma_commands_unique_and_complete(found, n - 1);
        let prev = commands_of(found, n - 1);
        let cur = commands_of(found, n);
        let name = command_name_of(found[n - 1].0);
        if !(exists|k: int| 0 <= k < prev.len() && prev[k].0 == name) {
            assert(cur == prev.push((name, found[n - 1].1)));
            assert forall|i: int| 0 <= i < n implies exists|k: int|
                0 <= k < cur.len() && cur[k].0 == command_name_of(#[trigger] found[i].0) by {
                if i < n - 1 {
                    let k = choose|k: int|
                        0 <= k < prev.len() && prev[k].0 == command_name_of(found[i].0);
                    assert(cur[k] == prev[k]);
                } else {
                    assert(cur[prev.len() as int].0 == name);
                }
            }
        }
    }
}

/// The pairs as text.
pub open spec fn pair_views(v: Seq<(String, String)>) -> Seq<(Seq<char>, Seq<char>)> {
    v.map_values(|p: (String, String)| (p.0@, p.1@))
}

/// Discover the available subcommands from the executables found, in the
/// order the command directories were scanned; the first wins.
pub fn discover_commands(found: &Vec<(String, String)>) -> (r: Vec<(String, String)>)
    ensures
        pair_views(r@) == commands_of(pair_views(found@), found@.len() as int),
{
    let ghost fv = pair_views(found@);
    let mut out: Vec<(String, String)> = Vec::new();
    let mut i: usize = 0;
    while i < found.len()
        invariant
            i <= found@.len(),
            fv == pair_views(found@),
            pair_views(out@) == commands_of(fv, i as int),
        decreases found@.len() - i,
    {
        let name = command_name(found[i].0.as_str());
        let ghost before = pair_views(out@);
        let mut present = false;
        let mut j: usize = 0;
        while j < out.len()
            invariant
                j <= out@.len(),
                before == pair_views(out@),
                present == exists|k: int| 0 <= k < j && before[k].0 == name@,
            decreases out@.len() - j,
        {
            if str_is(out[j].0.as_str(), name.as_str()) {
                present = true;
                assert(before[j as int].0 == name@);
            }
            j = j + 1;
        }
        if !present {
            let ghost nv = name@;
            let p = found[i].1.clone();
            out.push((name, p));
            assert(pair_views(out@) =~= before.push((nv, fv[i as int].1)));
        }
        i = i + 1;
    }
    out
}

/// The path of the command named `name` among `commands`, if there is one.
pub open spec fn path_of(commands: Seq<(Seq<char>, Seq<char>)>, name: Seq<char>) -> Option<Seq<char>>
    decreases commands.len(),
{
    if commands.len() == 0 {
        None
    } else if commands[0].0 == name {
        Some(commands[0].1)
    } else {
        path_of(commands.skip(1), name)
    }
}

/// Look a command up by name.
pub fn command_path(commands: &Vec<(String, String)>, name: &str) -> (r: Option<String>)
    ensures
        match path_of(pair_views(commands@), name@) {
            Some(p) => r matches Some(t) && t@ == p,
            None => r is None,
        },
{
    let ghost cv = pair_views(commands@);
    assert(cv.skip(0) =~= cv);
    let mut i: usize = 0;
    while i < commands.len()
        invariant
            i <= commands@.len(),
            cv == pair_views(commands@),
            path_of(cv.skip(i as int), name@) == path_of(cv, name@),
        decreases commands@.len() - i,
    {
        assert(cv.skip(i as int)[0] == cv[i as int]);
        if str_is(commands[i].0.as_str(), name) {
            return Some(commands[i].1.clone());
        }
        assert(cv.skip(i as int).skip(1) =~= cv.skip(i + 1));
        i = i + 1;
    }
    None
}

/// The names of the commands, in ascending order, each once.
pub fn command_names(commands: &Vec<(String, String)>) -> (r: Vec<String>)
    ensures
        strictly_ascending(texts(r@)),
        forall|n: Seq<char>| #[trigger]
            texts(r@).contains(n) <==> pair_views(commands@).map_values(
                |p: (Seq<char>, Seq<char>)| p.0,
            ).contains(n),
{
    let ghost names = pair_views(commands@).map_values(|p: (Seq<char>, Seq<char>)| p.0);
    let mut chars: Vec<Vec<char>> = Vec::new();
    let mut i: usize = 0;
    while i < commands.len()
        invariant
            i <= commands@.len(),
            names == pair_views(commands@).map_values(|p: (Seq<char>, Seq<char>)| p.0),
            char_views(chars@) == names.take(i as int),
        decreases commands@.len() - i,
    {
        let ghost before = char_views(chars@);
        let c = chars_of(commands[i].0.as_str());
        let ghost c_v = c@;
        chars.push(c);
        assert(char_views(chars@) =~= before.push(c_v));
        assert(names.take(i + 1) =~= names.take(i as int).push(names[i as int]));
        i = i + 1;
    }
    assert(names.take(commands@.len() as int) =~= names);
    let sorted = sorted_unique_strings(chars);
    let ghost sv = char_views(sorted@);
    let mut out: Vec<String> = Vec::new();
    let mut k: usize = 0;
    while k < sorted.len()
        invariant
            k <= sorted@.len(),
            sv == char_views(sorted@),
            texts(out@) == sv.take(k as int),
        decreases sorted@.len() - k,
    {
        let ghost before = texts(out@);
        let t = string_of(&sorted[k]);
        out.push(t);
        assert(texts(out@) =~= before.push(sv[k as int]));
        assert(sv.take(k + 1) =~= sv.take(k as int).push(sv[k as int]));
        k = k + 1;
    }
    assert(sv.take(sorted@.len() as int) =~= sv);
    out
}

/// Whether the arguments ask to complete the command name itself: none, or
/// one that is not an option.
pub open spec fn completes_name(args: Seq<Seq<char>>) -> bool {
    args.len() == 0 || (args.len() == 1 && !(args[0].len() > 0 && args[0][0] == '-'))
}

/// Whether the arguments ask to complete the command name itself.
pub fn completes_command_name(args: &Vec<String>) -> (r: bool)
    ensures
        r == completes_name(texts(args@)),
{
    if args.len() == 0 {
        return true;
    }
    if args.len() != 1 {
        return false;
    }
    let a = chars_of(args[0].as_str());
    !(a.len() > 0 && a[0] == '-')
}

/// The names among `names` that start with `partial`, in order.
pub open spec fn starting_with(names: Seq<Seq<char>>, partial: Seq<char>, n: int) -> Seq<Seq<char>>
    decreases n,
{
    if n <= 0 {
        Seq::empty()
    } else {
        starting_with(names, partial, n - 1) + if partial.len() <= names[n - 1].len() && names[n
            - 1].take(partial.len() as int) == partial {
            seq![names[n - 1]]
        } else {
            Seq::empty()
        }
    }
}

/// The command names that complete `partial`.
pub fn name_completions(names: &Vec<String>, partial: &str) -> (r: Vec<String>)
    ensures
        texts(r@) == starting_with(texts(names@), partial@, names@.len() as int),
{
    let p = chars_of(partial);
    let mut out: Vec<String> = Vec::new();
    let mut i: usize = 0;
    while i < names.len()
        invariant
            i <= names@.len(),
            p@ == partial@,
            texts(out@) == starting_with(texts(names@), partial@, i as int),
        decreases names@.len() - i,
    {
        if starts_with(&chars_of(names[i].as_str()), &p) {
            let ghost before = texts(out@);
            let s = names[i].clone();
            out.push(s);
            assert(texts(out@) =~= before.push(names@[i as int]@));
        }
        i = i + 1;
    }
    out
}

/// One completion line of a subcommand: the value, and the description after
/// the first tab, if there is one.
pub open spec fn completion_of(line: Seq<char>) -> (Seq<char>, Option<Seq<char>>) {
    match crate::save_context::find_from(line, "\t"@, 0) {
        Some(k) => (line.take(k), Some(line.skip(k + 1))),
        None => (line, None),
    }
}

/// Read a completion line.
pub fn parse_completion(line: &str) -> (r: (String, Option<String>))
    ensures
        r.0@ == completion_of(line@).0,
        match completion_of(line@).1 {
            Some(d) => r.1 matches Some(s) && s@ == d,
            None => r.1 is None,
        },
{
    let l = chars_of(line);
    let tab = chars_of("\t");
    proof {
        reveal_strlit("\t");
    }
    let mut i: usize = 0;
    while i < l.len()
        invariant
            i <= l@.len(),
            tab@ == "\t"@,
            tab@.len() == 1,
            tab@[0] == '\t',
            crate::save_context::find_from(l@, tab@, 0) == crate::save_context::find_from(
                l@,
                tab@,
                i as int,
            ),
            l@ == line@,
        decreases l@.len() - i,
    {
        if l[i] == '\t' {
            assert(l@.subrange(i as int, i + 1) =~= tab@);
            let v = slice_range(&l, 0, i);
            let d = slice_range(&l, i + 1, l.len());
            assert(v@ =~= line@.take(i as int));
            assert(d@ =~= line@.skip(i + 1));
            return (string_of(&v), Some(string_of(&d)));
        }
        assert(l@.subrange(i as int, i + 1)[0] != tab@[0]);
        i = i + 1;
    }
    assert(crate::save_context::find_from(l@, tab@, i as int) is None);
    (String::from_str(line), None)
}

/// The arguments after `--complete`, without leading `--`s.
pub open spec fn after_dashes(args: Seq<Seq<char>>) -> Seq<Seq<char>>
    decreases args.len(),
{
    if args.len() > 0 && args[0] == "--"@ {
        after_dashes(args.skip(1))
    } else {
        args
    }
}

/// Drop the leading `--` arguments.
pub fn skip_dashes(args: &Vec<String>) -> (r: Vec<String>)
    ensures
        texts(r@) == after_dashes(texts(args@)),
{
    let ghost av = texts(args@);
    let mut i: usize = 0;
    assert(av.skip(0) =~= av);
    while i < args.len() && str_is(args[i].as_str(), "--")
        invariant
            i <= args@.len(),
            av == texts(args@),
            after_dashes(av) == after_dashes(av.skip(i as int)),
        decreases args@.len() - i,
    {
        assert(av.skip(i as int).skip(1) =~= av.skip(i + 1));
        i = i + 1;
    }
    let mut out: Vec<String> = Vec::new();
    let mut j: usize = i;
    while j < args.len()
        invariant
            i <= j <= args@.len(),
            av == texts(args@),
            texts(out@) == av.subrange(i as int, j as int),
        decreases args@.len() - j,
    {
        let ghost before = texts(out@);
        let s = args[j].clone();
        out.push(s);
        assert(texts(out@) =~= before.push(args@[j as int]@));
        j = j + 1;
        assert(texts(out@) =~= av.subrange(i as int, j as int));
    }
    assert(av.subrange(i as int, args@.len() as int) =~= av.skip(i as int));
    out
}


/// The completions of `partial` are exactly the names that have `partial` as
/// a prefix, a name equal to `partial` included, in the order of `names`.
pub proof fn lemma_completions_are_the_extensions(names: Seq<Seq<char>>, partial: Seq<char>)
    ensures
        starting_with(names, partial, names.len() as int) == names.filter(
            |x: Seq<char>| partial.is_prefix_of(x),
        ),
        forall|i: int, rest: Seq<char>|
            #![trigger names[i], partial + rest]
            0 <= i < names.len() && names[i] == partial + rest ==> starting_with(
                names,
                partial,
                names.len() as int,
            ).contains(names[i]),
{
    let pred = |x: Seq<char>| partial.is_prefix_of(x);
    lemma_completions_prefix(names, partial, names.len() as int);
    assert(names.take(names.len() as int) =~= names);
    assert forall|i: int, rest: Seq<char>|
        #![trigger names[i], partial + rest]
        0 <= i < names.len() && names[i] == partial + rest implies starting_with(
            names,
            partial,
            names.len() as int,
        ).contains(names[i]) by {
        assert(names[i].subrange(0, partial.len() as int) =~= partial);
        assert(pred(names[i]));
        names.lemma_filter_contains(pred, i);
    }
}

proof fn lemma_completions_prefix(names: Seq<Seq<char>>, partial: Seq<char>, n: int)
    requires
        0 <= n <= names.len(),
    ensures
        starting_with(names, partial, n) == names.take(n).filter(
            |x: Seq<char>| partial.is_prefix_of(x),
        ),
    decreases n,
{
    let pred = |x: Seq<char>| partial.is_prefix_of(x);
    reveal(Seq::filter);
    if n == 0 {
        assert(names.take(0) =~= Seq::<Seq<char>>::empty());
    } else {
        lemma_completions_prefix(names, partial, n - 1);
        let x = names[n - 1];
        assert(names.take(n) =~= names.take(n - 1).push(x));
        names.take(n - 1).lemma_filter_push(x, pred);
        assert(pred(x) == (partial.len() <= x.len() && x.take(partial.len() as int) == partial)) by {
            if partial.len() <= x.len() {
                assert(x.take(partial.len() as int) =~= x.subrange(0, partial.len() as int));
            }
        }
        if pred(x) {
            assert(starting_with(names, partial, n) =~= starting_with(names, partial, n - 1).push(x));
        } else {
            assert(starting_with(names, partial, n) =~= starting_with(names, partial, n - 1));
        }
    }
}

} // verus!
