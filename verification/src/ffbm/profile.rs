//! Choosing a Firefox profile by name among those found on the machine.
use vstd::prelude::*;
use crate::ffbm::db::texts;
use crate::ffbm::types::Profile;
use crate::order::{sort_by_name, sort_by_name_stable};
use crate::text::{chars_eq, chars_of, lowercase, to_lowercase};

verus! {

/// A profile as its name and path.
pub open spec fn profile_view(p: Profile) -> (Seq<char>, Seq<char>) {
    (p.name@, p.path@)
}

/// The profiles among the first `n` whose lower-cased name is `key`.
pub open spec fn matching(ps: Seq<Profile>, key: Seq<char>, n: int) -> Seq<(Seq<char>, Seq<char>)>
    decreases n,
{
    if n <= 0 {
        Seq::empty()
    } else {
        matching(ps, key, n - 1) + if lowercase(ps[n - 1].name@) == key {
            seq![profile_view(ps[n - 1])]
        } else {
            Seq::empty()
        }
    }
}

/// The profiles whose name equals `name` regardless of case.
pub open spec fn profiles_named(ps: Seq<Profile>, name: Seq<char>) -> Seq<(Seq<char>, Seq<char>)> {
    matching(ps, lowercase(name), ps.len() as int)
}

/// Why no single profile was found.
#[derive(Debug)]
pub enum FindProfileError {
    /// Profile name not found.
    ProfileNotFound { name: String },
    /// Multiple profiles match the given name.
    AmbiguousProfile { name: String, matches: Vec<String> },
}

/// Find a profile by name (case-insensitive exact match) among `profiles`.
pub fn find_profile(name: &str, profiles: &[Profile]) -> (r: Result<Profile, FindProfileError>)
    ensures
        profiles_named(profiles@, name@).len() == 0 ==> (r matches Err(
            FindProfileError::ProfileNotFound { name: n },
        ) && n@ == name@),
        profiles_named(profiles@, name@).len() == 1 ==> (r matches Ok(p) && profile_view(p)
            == profiles_named(profiles@, name@)[0]),
        profiles_named(profiles@, name@).len() > 1 ==> (r matches Err(
            FindProfileError::AmbiguousProfile { name: n, matches: m },
        ) && n@ == name@ && texts(m@) == profiles_named(profiles@, name@).map_values(
            |v: (Seq<char>, Seq<char>)| v.0,
        )),
{
    let name_lower = to_lowercase(name);
    let key = chars_of(name_lower.as_str());
    let mut found: Vec<Profile> = Vec::new();
    let mut i: usize = 0;
    while i < profiles.len()
        invariant
            i <= profiles@.len(),
            key@ == lowercase(name@),
            found@.map_values(|p: Profile| profile_view(p)) == matching(
                profiles@,
                key@,
                i as int,
            ),
        decreases profiles@.len() - i,
    {
        let p = &profiles[i];
        let lower = to_lowercase(p.name.as_str());
        let ghost before = found@.map_values(|p: Profile| profile_view(p));
        if chars_eq(&chars_of(lower.as_str()), &key) {
            let copy = Profile { name: p.name.clone(), path: p.path.clone() };
            found.push(copy);
            assert(found@.map_values(|p: Profile| profile_view(p)) =~= before.push(
                profile_view(profiles@[i as int]),
            ));
        }
        i = i + 1;
        assert(found@.map_values(|p: Profile| profile_view(p)) =~= matching(
            profiles@,
            key@,
            i as int,
        ));
    }
    let ghost fv = found@.map_values(|p: Profile| profile_view(p));
    if found.len() == 0 {
        Err(FindProfileError::ProfileNotFound { name: String::from_str(name) })
    } else if found.len() == 1 {
        let p = found.pop().unwrap();
        assert(profile_view(p) == fv[0]);
        Ok(p)
    } else {
        let mut names: Vec<String> = Vec::new();
        let mut j: usize = 0;
        while j < found.len()
            invariant
                j <= found@.len(),
                fv == found@.map_values(|p: Profile| profile_view(p)),
                texts(names@) == fv.map_values(|v: (Seq<char>, Seq<char>)| v.0).take(j as int),
            decreases found@.len() - j,
        {
            let ghost before = texts(names@);
            let n = found[j].name.clone();
            names.push(n);
            j = j + 1;
            assert(texts(names@) =~= before.push(n@));
            assert(texts(names@) =~= fv.map_values(|v: (Seq<char>, Seq<char>)| v.0).take(
                j as int,
            ));
        }
        assert(fv.map_values(|v: (Seq<char>, Seq<char>)| v.0).take(found@.len() as int)
            =~= fv.map_values(|v: (Seq<char>, Seq<char>)| v.0));
        Err(FindProfileError::AmbiguousProfile { name: String::from_str(name), matches: names })
    }
}

/// Where the profile of directory `path` stands in `ps`.
pub open spec fn path_slot(ps: Seq<Profile>, path: Seq<char>) -> Option<int>
    decreases ps.len(),
{
    if ps.len() == 0 {
        None
    } else if ps.last().path@ == path {
        Some(ps.len() - 1)
    } else {
        path_slot(ps.drop_last(), path)
    }
}

/// The profiles found, each directory once: the profile found last for it,
/// where its directory was first found.
pub open spec fn one_per_path(ps: Seq<Profile>) -> Seq<Profile>
    decreases ps.len(),
{
    if ps.len() == 0 {
        Seq::empty()
    } else {
        let prev = one_per_path(ps.drop_last());
        match path_slot(prev, ps.last().path@) {
            Some(k) => prev.update(k, ps.last()),
            None => prev.push(ps.last()),
        }
    }
}

/// The profiles listed: one per directory, sorted by name (stably).
pub open spec fn listed_profiles(ps: Seq<Profile>) -> Seq<Profile> {
    sort_by_name(one_per_path(ps).map_values(|p: Profile| (p.name@, p))).map_values(
        |q: (Seq<char>, Profile)| q.1,
    )
}

proof fn lemma_path_slot(ps: Seq<Profile>, path: Seq<char>)
    ensures
        path_slot(ps, path) matches Some(k) ==> 0 <= k < ps.len(),
    decreases ps.len(),
{
    if ps.len() > 0 && ps.last().path@ != path {
        lemma_path_slot(ps.drop_last(), path);
    }
}

fn find_path(ps: &Vec<Profile>, path: &[char]) -> (r: Option<usize>)
    ensures
        match path_slot(ps@, path@) {
            Some(k) => r == Some(k as usize),
            None => r is None,
        },
{
    let mut j: usize = ps.len();
    assert(ps@.take(j as int) =~= ps@);
    while j > 0
        invariant
            j <= ps@.len(),
            path_slot(ps@, path@) == path_slot(ps@.take(j as int), path@),
        decreases j,
    {
        assert(ps@.take(j as int).drop_last() =~= ps@.take(j - 1));
        if chars_eq(&chars_of(ps[j - 1].path.as_str()), path) {
            return Some(j - 1);
        }
        j = j - 1;
    }
    None
}

/// The profiles to list from those found in the Profile Groups databases:
/// each profile directory once (the profile found last for it), sorted by
/// name.
pub fn collect_profiles(found: Vec<Profile>) -> (r: Vec<Profile>)
    ensures
        r@ == listed_profiles(found@),
{
    let ghost orig = found@;
    let mut found = found;
    let mut kept: Vec<Profile> = Vec::new();
    let ghost mut k: int = 0;
    assert(orig.take(0) =~= Seq::<Profile>::empty());
    while found.len() > 0
        invariant
            0 <= k <= orig.len(),
            found@ == orig.skip(k),
            kept@ == one_per_path(orig.take(k)),
        decreases found@.len(),
    {
        let p = found.remove(0);
        assert(p == orig[k]);
        assert(orig.take(k + 1).drop_last() =~= orig.take(k));
        let ghost prev = kept@;
        proof {
            lemma_path_slot(prev, p.path@);
        }
        let n = kept.len();
        assert(n == prev.len());
        match find_path(&kept, &chars_of(p.path.as_str())) {
            Some(j) => {
                kept.set(j, p);
            },
            None => {
                kept.push(p);
            },
        }
        proof {
            k = k + 1;
        }
        assert(found@ =~= orig.skip(k));
    }
    assert(orig.take(k) =~= orig);
    let ghost dv = kept@;
    let mut pairs: Vec<(Vec<char>, Profile)> = Vec::new();
    while kept.len() > 0
        invariant
            kept@.len() <= dv.len(),
            kept@ == dv.take(kept@.len() as int),
            pairs@.map_values(|q: (Vec<char>, Profile)| (q.0@, q.1)) == dv.skip(
                kept@.len() as int,
            ).map_values(|p: Profile| (p.name@, p)),
        decreases kept@.len(),
    {
        let ghost n = kept@.len();
        let ghost before = pairs@.map_values(|q: (Vec<char>, Profile)| (q.0@, q.1));
        let p = kept.pop().unwrap();
        let name = chars_of(p.name.as_str());
        let ghost pv = (name@, p);
        pairs.insert(0, (name, p));
        assert(pairs@.map_values(|q: (Vec<char>, Profile)| (q.0@, q.1)) =~= seq![pv] + before);
        assert(dv.skip(n - 1) =~= seq![dv[n - 1]] + dv.skip(n as int));
        assert(pairs@.map_values(|q: (Vec<char>, Profile)| (q.0@, q.1)) =~= dv.skip(
            kept@.len() as int,
        ).map_values(|p: Profile| (p.name@, p)));
        assert(kept@ =~= dv.take(kept@.len() as int));
    }
    assert(dv.skip(0) =~= dv);
    let sorted = sort_by_name_stable(pairs);
    let ghost sv = sorted@.map_values(|q: (Vec<char>, Profile)| (q.0@, q.1));
    let mut sorted = sorted;
    let mut out: Vec<Profile> = Vec::new();
    while sorted.len() > 0
        invariant
            sorted@.len() <= sv.len(),
            sorted@.map_values(|q: (Vec<char>, Profile)| (q.0@, q.1)) == sv.take(sorted@.len() as int),
            out@ == sv.skip(sorted@.len() as int).map_values(|q: (Seq<char>, Profile)| q.1),
        decreases sorted@.len(),
    {
        let ghost n = sorted@.len();
        let ghost before = out@;
        let ghost sb = sorted@.map_values(|q: (Vec<char>, Profile)| (q.0@, q.1));
        let q = sorted.pop().unwrap();
        assert(sb[n - 1] == (q.0@, q.1));
        out.insert(0, q.1);
        assert(sv.skip(n - 1) =~= seq![sv[n - 1]] + sv.skip(n as int));
        assert(out@ =~= sv.skip(sorted@.len() as int).map_values(|q: (Seq<char>, Profile)| q.1));
        assert(sorted@.map_values(|q: (Vec<char>, Profile)| (q.0@, q.1)) =~= sv.take(
            sorted@.len() as int,
        ));
    }
    assert(sv.skip(0) =~= sv);
    out
}

} // verus!
