//! The order of strings, and sorting by it.
//!
//! `String`'s order compares UTF-8 bytes lexicographically; UTF-8 keeps the
//! order of code points, so that is the lexicographic order of characters.
use vstd::prelude::*;
use vstd::relations::{sorted_by, total_ordering};
use vstd::seq_lib::lemma_sorted_unique;

verus! {

broadcast use {vstd::multiset::group_multiset_axioms, vstd::seq_lib::group_to_multiset_ensures};

/// `a <= b` in the lexicographic order of characters.
pub open spec fn lex_le(a: Seq<char>, b: Seq<char>) -> bool
    decreases a.len(),
{
    if a.len() == 0 {
        true
    } else if b.len() == 0 {
        false
    } else if a[0] != b[0] {
        (a[0] as int) < (b[0] as int)
    } else {
        lex_le(a.drop_first(), b.drop_first())
    }
}

/// The order `lex_le` as a relation.
pub open spec fn lex_order() -> spec_fn(Seq<char>, Seq<char>) -> bool {
    |a: Seq<char>, b: Seq<char>| lex_le(a, b)
}

pub proof fn lemma_lex_refl(a: Seq<char>)
    ensures
        lex_le(a, a),
    decreases a.len(),
{
    if a.len() > 0 {
        lemma_lex_refl(a.drop_first());
    }
}

pub proof fn lemma_lex_antisym(a: Seq<char>, b: Seq<char>)
    requires
        lex_le(a, b),
        lex_le(b, a),
    ensures
        a == b,
    decreases a.len(),
{
    if a.len() > 0 && b.len() > 0 {
        if a[0] == b[0] {
            lemma_lex_antisym(a.drop_first(), b.drop_first());
            assert(a =~= seq![a[0]] + a.drop_first());
            assert(b =~= seq![b[0]] + b.drop_first());
        } else {
            assert((a[0] as int) != (b[0] as int));
        }
    } else {
        assert(a.len() == 0 && b.len() == 0);
        assert(a =~= b);
    }
}

pub proof fn lemma_lex_trans(a: Seq<char>, b: Seq<char>, c: Seq<char>)
    requires
        lex_le(a, b),
        lex_le(b, c),
    ensures
        lex_le(a, c),
    decreases a.len(),
{
    if a.len() > 0 && b.len() > 0 && c.len() > 0 {
        if a[0] == b[0] && b[0] == c[0] {
            lemma_lex_trans(a.drop_first(), b.drop_first(), c.drop_first());
        }
    }
}

pub proof fn lemma_lex_total(a: Seq<char>, b: Seq<char>)
    ensures
        lex_le(a, b) || lex_le(b, a),
    decreases a.len(),
{
    if a.len() > 0 && b.len() > 0 {
        if a[0] == b[0] {
            lemma_lex_total(a.drop_first(), b.drop_first());
        } else {
            assert((a[0] as int) != (b[0] as int));
        }
    }
}

/// `lex_le` is a total order.
pub proof fn lemma_lex_total_ordering()
    ensures
        total_ordering(lex_order()),
{
    let r = lex_order();
    assert forall|x: Seq<char>| #[trigger] r(x, x) by {
        lemma_lex_refl(x);
    }
    assert forall|x: Seq<char>, y: Seq<char>| #[trigger] r(x, y) && #[trigger] r(y, x) implies x
        == y by {
        lemma_lex_antisym(x, y);
    }
    assert forall|x: Seq<char>, y: Seq<char>, z: Seq<char>| #[trigger]
        r(x, y) && #[trigger] r(y, z) implies r(x, z) by {
        lemma_lex_trans(x, y, z);
    }
    assert forall|x: Seq<char>, y: Seq<char>| #[trigger] r(x, y) || #[trigger] r(y, x) by {
        lemma_lex_total(x, y);
    }
}

/// Whether `a <= b` in the order of strings.
pub fn lex_le_chars(a: &[char], b: &[char]) -> (r: bool)
    ensures
        r == lex_le(a@, b@),
{
    let mut i: usize = 0;
    assert(a@.skip(0) == a@ && b@.skip(0) == b@);
    while i < a.len() && i < b.len() && a[i] == b[i]
        invariant
            i <= a@.len(),
            i <= b@.len(),
            lex_le(a@, b@) == lex_le(a@.skip(i as int), b@.skip(i as int)),
        decreases a@.len() - i,
    {
        proof {
            assert(a@.skip(i as int).drop_first() == a@.skip(i + 1));
            assert(b@.skip(i as int).drop_first() == b@.skip(i + 1));
        }
        i = i + 1;
    }
    if i == a.len() {
        true
    } else if i == b.len() {
        false
    } else {
        a[i] < b[i]
    }
}

/// Whether `a < b` in the order of strings.
pub fn lex_lt_chars(a: &[char], b: &[char]) -> (r: bool)
    ensures
        r == (lex_le(a@, b@) && a@ != b@),
{
    let le = lex_le_chars(a, b);
    if !le {
        return false;
    }
    let eq = crate::text::chars_eq(a, b);
    !eq
}

/// `v` sorted by the order of strings (as `sort` sorts a `Vec<String>`).
pub fn sort_strings(v: Vec<Vec<char>>) -> (r: Vec<Vec<char>>)
    ensures
        r@.map_values(|x: Vec<char>| x@) == v@.map_values(|x: Vec<char>| x@).sort_by(lex_order()),
{
    let ghost input = v@.map_values(|x: Vec<char>| x@);
    let mut out: Vec<Vec<char>> = Vec::new();
    let mut src = v;
    let ghost total = src@.len();
    proof {
        lemma_lex_total_ordering();
    }
    proof {
        assert(out@.map_values(|x: Vec<char>| x@) =~= Seq::<Seq<char>>::empty());
        assert(src@.map_values(|x: Vec<char>| x@) == input);
    }
    // Take items from the back so that each removal is constant time; the
    // multiset is what matters.
    while src.len() > 0
        invariant
            total_ordering(lex_order()),
            input == v@.map_values(|x: Vec<char>| x@),
            sorted_by(out@.map_values(|x: Vec<char>| x@), lex_order()),
            out@.map_values(|x: Vec<char>| x@).to_multiset().add(
                src@.map_values(|x: Vec<char>| x@).to_multiset(),
            ) == input.to_multiset(),
        decreases src@.len(),
    {
        let ghost before_src = src@.map_values(|x: Vec<char>| x@);
        let x = src.pop().unwrap();
        proof {
            assert(before_src =~= src@.map_values(|x: Vec<char>| x@).push(x@));
            vstd::seq_lib::lemma_multiset_commutative(
                src@.map_values(|x: Vec<char>| x@),
                seq![x@],
            );
        }
        let ghost ov = out@.map_values(|x: Vec<char>| x@);
        let mut p: usize = 0;
        while p < out.len() && lex_le_chars(&out[p], &x)
            invariant
                ov == out@.map_values(|x: Vec<char>| x@),
                p <= out@.len(),
                forall|k: int| 0 <= k < p ==> lex_le(#[trigger] ov[k], x@),
            decreases out@.len() - p,
        {
            p = p + 1;
        }
        out.insert(p, x);
        proof {
            let nv = out@.map_values(|x: Vec<char>| x@);
            assert(nv =~= ov.insert(p as int, x@));
            let r = lex_order();
            assert forall|a: int, b: int| 0 <= a < b < nv.len() implies #[trigger] r(
                nv[a],
                nv[b],
            ) by {
                if b < p {
                    assert(r(ov[a], ov[b]));
                } else if b == p {
                    assert(lex_le(ov[a], x@));
                } else if a < p {
                    assert(lex_le(ov[a], x@));
                    assert(r(ov[p as int], ov[b - 1]) || p == b - 1);
                    assert(!lex_le(ov[p as int], x@));
                    lemma_lex_total(ov[p as int], x@);
                    assert(r(x@, ov[p as int]));
                    if p < b - 1 {
                        assert(r(ov[p as int], ov[b - 1]));
                    }
                    assert(r(x@, ov[b - 1]));
                } else if a == p {
                    assert(!lex_le(ov[p as int], x@));
                    lemma_lex_total(ov[p as int], x@);
                    assert(r(x@, ov[p as int]));
                    if p < b - 1 {
                        assert(r(ov[p as int], ov[b - 1]));
                    }
                } else {
                    assert(r(ov[a - 1], ov[b - 1]));
                }
            }
            vstd::seq_lib::lemma_multiset_commutative(ov.take(p as int), ov.skip(p as int));
            assert(ov =~= ov.take(p as int) + ov.skip(p as int));
            assert(nv =~= ov.take(p as int) + (seq![x@] + ov.skip(p as int)));
            vstd::seq_lib::lemma_multiset_commutative(ov.take(p as int), seq![x@] + ov.skip(p as int));
            vstd::seq_lib::lemma_multiset_commutative(seq![x@], ov.skip(p as int));
            vstd::seq_lib::lemma_multiset_commutative(ov, seq![x@]);
            assert(nv.to_multiset() =~= ov.to_multiset().add(seq![x@].to_multiset()));
        }
    }
    proof {
        let ov = out@.map_values(|x: Vec<char>| x@);
        assert(src@.map_values(|x: Vec<char>| x@) =~= Seq::<Seq<char>>::empty());
        assert(ov.to_multiset() =~= input.to_multiset());
        input.lemma_sort_by_ensures(lex_order());
        lemma_sorted_unique(ov, input.sort_by(lex_order()), lex_order());
    }
    out
}

/// `x` placed in `t` before the first item whose key is not below its own.
pub open spec fn insert_by_key<T>(x: (i64, T), t: Seq<(i64, T)>) -> Seq<(i64, T)>
    decreases t.len(),
{
    if t.len() == 0 || x.0 <= t[0].0 {
        seq![x] + t
    } else {
        seq![t[0]] + insert_by_key(x, t.skip(1))
    }
}

/// The items of `s` in ascending order of their keys; items with equal keys
/// keep the order they had in `s` (a stable sort, as `sort_by_key`).
pub open spec fn sort_by_key<T>(s: Seq<(i64, T)>) -> Seq<(i64, T)>
    decreases s.len(),
{
    if s.len() == 0 {
        Seq::empty()
    } else {
        insert_by_key(s[0], sort_by_key(s.skip(1)))
    }
}

/// Keys ascend along `s`.
pub open spec fn keys_ascend<T>(s: Seq<(i64, T)>) -> bool {
    forall|i: int, j: int| 0 <= i <= j < s.len() ==> s[i].0 <= s[j].0
}

proof fn lemma_insert_by_key_at<T>(x: (i64, T), t: Seq<(i64, T)>, p: int)
    requires
        0 <= p <= t.len(),
        forall|k: int| 0 <= k < p ==> t[k].0 < x.0,
        p < t.len() ==> x.0 <= t[p].0,
    ensures
        insert_by_key(x, t) == t.take(p) + seq![x] + t.skip(p),
    decreases p,
{
    if p > 0 {
        lemma_insert_by_key_at(x, t.skip(1), p - 1);
        assert(t.take(p) =~= seq![t[0]] + t.skip(1).take(p - 1));
        assert(t.skip(p) =~= t.skip(1).skip(p - 1));
    } else {
        assert(t.skip(0) =~= t);
    }
}

proof fn lemma_insert_by_key_facts<T>(x: (i64, T), t: Seq<(i64, T)>)
    requires
        keys_ascend(t),
    ensures
        keys_ascend(insert_by_key(x, t)),
        insert_by_key(x, t).to_multiset() == t.to_multiset().insert(x),
    decreases t.len(),
{
    if t.len() == 0 || x.0 <= t[0].0 {
        assert(insert_by_key(x, t) == seq![x] + t);
        vstd::seq_lib::lemma_multiset_commutative(seq![x], t);
    } else {
        lemma_insert_by_key_facts(x, t.skip(1));
        let r = insert_by_key(x, t.skip(1));
        assert(t =~= seq![t[0]] + t.skip(1));
        vstd::seq_lib::lemma_multiset_commutative(seq![t[0]], r);
        vstd::seq_lib::lemma_multiset_commutative(seq![t[0]], t.skip(1));
        assert forall|k: int| 0 <= k < r.len() implies t[0].0 <= #[trigger] r[k].0 by {
            assert(r.to_multiset().count(r[k]) > 0);
            assert(r.to_multiset().contains(r[k]));
            if r[k] != x {
                assert(t.skip(1).to_multiset().contains(r[k]));
                let j = choose|j: int| 0 <= j < t.skip(1).len() && t.skip(1)[j] == r[k];
                assert(t[j + 1] == r[k]);
            }
        }
    }
}

/// Sorting by key leaves the keys ascending and keeps every item, each as
/// often as it occurred.
pub proof fn lemma_sort_by_key<T>(s: Seq<(i64, T)>)
    ensures
        keys_ascend(sort_by_key(s)),
        sort_by_key(s).to_multiset() == s.to_multiset(),
    decreases s.len(),
{
    if s.len() > 0 {
        lemma_sort_by_key(s.skip(1));
        lemma_insert_by_key_facts(s[0], sort_by_key(s.skip(1)));
        assert(s =~= seq![s[0]] + s.skip(1));
        vstd::seq_lib::lemma_multiset_commutative(seq![s[0]], s.skip(1));
    }
}

proof fn lemma_insert_by_key_map<T, U>(x: (i64, T), t: Seq<(i64, T)>, g: spec_fn(T) -> U)
    ensures
        insert_by_key((x.0, g(x.1)), t.map_values(|p: (i64, T)| (p.0, g(p.1))))
            == insert_by_key(x, t).map_values(|p: (i64, T)| (p.0, g(p.1))),
    decreases t.len(),
{
    let m = |p: (i64, T)| (p.0, g(p.1));
    if t.len() == 0 || x.0 <= t[0].0 {
        assert((seq![x] + t).map_values(m) =~= seq![(x.0, g(x.1))] + t.map_values(m));
    } else {
        lemma_insert_by_key_map(x, t.skip(1), g);
        assert(t.map_values(m).skip(1) =~= t.skip(1).map_values(m));
        assert((seq![t[0]] + insert_by_key(x, t.skip(1))).map_values(m) =~= seq![m(t[0])]
            + insert_by_key(x, t.skip(1)).map_values(m));
    }
}

/// Sorting by key and then changing the items, keys left alone, is changing
/// the items and then sorting.
pub proof fn lemma_sort_by_key_map<T, U>(s: Seq<(i64, T)>, g: spec_fn(T) -> U)
    ensures
        sort_by_key(s.map_values(|p: (i64, T)| (p.0, g(p.1))))
            == sort_by_key(s).map_values(|p: (i64, T)| (p.0, g(p.1))),
    decreases s.len(),
{
    let m = |p: (i64, T)| (p.0, g(p.1));
    if s.len() > 0 {
        lemma_sort_by_key_map(s.skip(1), g);
        assert(s.map_values(m).skip(1) =~= s.skip(1).map_values(m));
        lemma_insert_by_key_map(s[0], sort_by_key(s.skip(1)), g);
    } else {
        assert(s.map_values(m) =~= Seq::<(i64, U)>::empty());
    }
}

/// Sorts `v` by key, stably (what `sort_by_key` does).
pub fn sort_by_key_stable<T>(v: Vec<(i64, T)>) -> (r: Vec<(i64, T)>)
    ensures
        r@ == sort_by_key(v@),
{
    let ghost orig = v@;
    let mut v = v;
    let mut out: Vec<(i64, T)> = Vec::new();
    proof {
        lemma_sort_by_key(orig.skip(orig.len() as int));
    }
    while v.len() > 0
        invariant
            v@ == orig.take(v@.len() as int),
            v@.len() <= orig.len(),
            out@ == sort_by_key(orig.skip(v@.len() as int)),
        decreases v@.len(),
    {
        let ghost n = v@.len();
        let x = v.pop().unwrap();
        proof {
            assert(orig.skip(n - 1) =~= seq![x] + orig.skip(n as int));
            assert(orig.skip(n - 1).skip(1) =~= orig.skip(n as int));
            lemma_sort_by_key(orig.skip(n as int));
        }
        let mut p: usize = 0;
        while p < out.len() && out[p].0 < x.0
            invariant
                p <= out@.len(),
                forall|k: int| 0 <= k < p ==> out@[k].0 < x.0,
            decreases out@.len() - p,
        {
            p = p + 1;
        }
        proof {
            lemma_insert_by_key_at(x, out@, p as int);
        }
        let ghost before = out@;
        out.insert(p, x);
        assert(out@ =~= before.take(p as int) + seq![x] + before.skip(p as int));
        assert(v@ =~= orig.take(v@.len() as int));
    }
    assert(orig.skip(0) =~= orig);
    out
}

/// `x` placed in `t` before the first item whose name is not below its own.
pub open spec fn insert_by_name<T>(x: (Seq<char>, T), t: Seq<(Seq<char>, T)>) -> Seq<
    (Seq<char>, T),
>
    decreases t.len(),
{
    if t.len() == 0 || lex_le(x.0, t[0].0) {
        seq![x] + t
    } else {
        seq![t[0]] + insert_by_name(x, t.skip(1))
    }
}

/// The items of `s` in the order of their names; items with equal names keep
/// the order they had in `s` (a stable sort by name).
pub open spec fn sort_by_name<T>(s: Seq<(Seq<char>, T)>) -> Seq<(Seq<char>, T)>
    decreases s.len(),
{
    if s.len() == 0 {
        Seq::empty()
    } else {
        insert_by_name(s[0], sort_by_name(s.skip(1)))
    }
}

proof fn lemma_insert_by_name_at<T>(x: (Seq<char>, T), t: Seq<(Seq<char>, T)>, p: int)
    requires
        0 <= p <= t.len(),
        forall|k: int| 0 <= k < p ==> !lex_le(x.0, #[trigger] t[k].0),
        p < t.len() ==> lex_le(x.0, t[p].0),
    ensures
        insert_by_name(x, t) == t.take(p) + seq![x] + t.skip(p),
    decreases p,
{
    if p > 0 {
        assert(!lex_le(x.0, t[0].0));
        assert forall|k: int| 0 <= k < p - 1 implies !lex_le(x.0, #[trigger] t.skip(1)[k].0) by {
            assert(t.skip(1)[k] == t[k + 1]);
        }
        lemma_insert_by_name_at(x, t.skip(1), p - 1);
        assert(t.take(p) =~= seq![t[0]] + t.skip(1).take(p - 1));
        assert(t.skip(p) =~= t.skip(1).skip(p - 1));
    } else {
        assert(t.skip(0) =~= t);
    }
}

/// Sorts `v` by name, stably.
pub fn sort_by_name_stable<T>(v: Vec<(Vec<char>, T)>) -> (r: Vec<(Vec<char>, T)>)
    ensures
        r@.map_values(|p: (Vec<char>, T)| (p.0@, p.1)) == sort_by_name(
            v@.map_values(|p: (Vec<char>, T)| (p.0@, p.1)),
        ),
{
    let ghost orig = v@.map_values(|p: (Vec<char>, T)| (p.0@, p.1));
    let mut v = v;
    let mut out: Vec<(Vec<char>, T)> = Vec::new();
    while v.len() > 0
        invariant
            v@.len() <= orig.len(),
            v@.map_values(|p: (Vec<char>, T)| (p.0@, p.1)) == orig.take(v@.len() as int),
            out@.map_values(|p: (Vec<char>, T)| (p.0@, p.1)) == sort_by_name(
                orig.skip(v@.len() as int),
            ),
        decreases v@.len(),
    {
        let ghost n = v@.len();
        let ghost vv = v@.map_values(|p: (Vec<char>, T)| (p.0@, p.1));
        let x = v.pop().unwrap();
        let ghost xv = (x.0@, x.1);
        proof {
            assert(vv[n - 1] == xv);
            assert(orig[n - 1] == xv);
            assert(orig.skip(n - 1) =~= seq![xv] + orig.skip(n as int));
            assert(orig.skip(n - 1).skip(1) =~= orig.skip(n as int));
        }
        let ghost ov = out@.map_values(|p: (Vec<char>, T)| (p.0@, p.1));
        let mut p: usize = 0;
        while p < out.len() && !lex_le_chars(&x.0, &out[p].0)
            invariant
                p <= out@.len(),
                ov == out@.map_values(|p: (Vec<char>, T)| (p.0@, p.1)),
                forall|k: int| 0 <= k < p ==> !lex_le(x.0@, #[trigger] ov[k].0),
            decreases out@.len() - p,
        {
            p = p + 1;
        }
        proof {
            lemma_insert_by_name_at(xv, ov, p as int);
        }
        out.insert(p, x);
        assert(out@.map_values(|p: (Vec<char>, T)| (p.0@, p.1)) =~= ov.take(p as int) + seq![xv]
            + ov.skip(p as int));
        assert(v@.map_values(|p: (Vec<char>, T)| (p.0@, p.1)) =~= orig.take(v@.len() as int));
    }
    assert(orig.skip(0) =~= orig);
    out
}

/// The text of each character vector.
pub open spec fn char_views(v: Seq<Vec<char>>) -> Seq<Seq<char>> {
    v.map_values(|x: Vec<char>| x@)
}

/// The strings of `s` ascend strictly: each is below the next.
pub open spec fn strictly_ascending(s: Seq<Seq<char>>) -> bool {
    forall|i: int, j: int| 0 <= i < j < s.len() ==> lex_le(s[i], s[j]) && s[i] != s[j]
}

proof fn lemma_push_ascending(ov: Seq<Seq<char>>, x: Seq<char>)
    requires
        strictly_ascending(ov),
        ov.len() > 0 ==> lex_le(ov.last(), x) && ov.last() != x,
    ensures
        strictly_ascending(ov.push(x)),
{
    let nv = ov.push(x);
    assert forall|a: int, b: int| 0 <= a < b < nv.len() implies lex_le(nv[a], nv[b]) && nv[a]
        != nv[b] by {
        if b < nv.len() - 1 {
            assert(nv[a] == ov[a] && nv[b] == ov[b]);
        } else if a < ov.len() - 1 {
            assert(nv[a] == ov[a]);
            lemma_lex_trans(ov[a], ov.last(), x);
            if ov[a] == x {
                lemma_lex_antisym(ov[a], ov.last());
            }
        }
    }
}

/// The distinct strings of `v`, in ascending order.
pub fn sorted_unique_strings(v: Vec<Vec<char>>) -> (r: Vec<Vec<char>>)
    ensures
        strictly_ascending(char_views(r@)),
        forall|x: Seq<char>| #[trigger]
            char_views(r@).contains(x) <==> char_views(v@).contains(x),
{
    let ghost input = v@.map_values(|x: Vec<char>| x@);
    let sorted = sort_strings(v);
    let ghost sv = sorted@.map_values(|x: Vec<char>| x@);
    proof {
        lemma_lex_total_ordering();
        input.lemma_sort_by_ensures(lex_order());
        assert forall|x: Seq<char>| sv.contains(x) <==> input.contains(x) by {
            if input.contains(x) {
                assert(input.to_multiset().count(x) > 0);
                assert(sv.to_multiset().count(x) > 0);
            }
        }
    }
    let mut out: Vec<Vec<char>> = Vec::new();
    let mut i: usize = 0;
    while i < sorted.len()
        invariant
            i <= sorted@.len(),
            sv == sorted@.map_values(|x: Vec<char>| x@),
            sorted_by(sv, lex_order()),
            total_ordering(lex_order()),
            strictly_ascending(char_views(out@)),
            forall|x: Seq<char>| #[trigger]
                char_views(out@).contains(x) <==> sv.take(i as int).contains(x),
            i > 0 ==> out@.len() > 0 && char_views(out@).last() == sv[i - 1],
        decreases sorted@.len() - i,
    {
        let ghost ov = char_views(out@);
        let x = &sorted[i];
        let dup = out.len() > 0 && crate::text::chars_eq(&out[out.len() - 1], x);
        if !dup {
            let c = crate::text::slice_range(x, 0, x.len());
            assert(c@ =~= sv[i as int]);
            proof {
                if ov.len() > 0 {
                    if i == 0 {
                        assert(ov.contains(ov[0]));
                        assert(sv.take(0).contains(ov[0]));
                        assert(false);
                    }
                    assert(ov.last() == sv[i - 1]);
                    assert(ov.last() == out@[out@.len() - 1]@);
                    assert(ov.last() != sv[i as int]);
                    assert(lex_order()(sv[i - 1], sv[i as int]));
                }
                lemma_push_ascending(ov, sv[i as int]);
            }
            out.push(c);
            assert(char_views(out@) =~= ov.push(sv[i as int]));
        } else {
            proof {
                assert(ov.last() == sv[i as int]);
            }
        }
        proof {
            let nv = char_views(out@);
            let t1 = sv.take(i + 1);
            let t0 = sv.take(i as int);
            assert(t1 =~= t0.push(sv[i as int]));
            assert forall|y: Seq<char>| nv.contains(y) <==> t1.contains(y) by {
                if t1.contains(y) {
                    let k = choose|k: int| 0 <= k < t1.len() && t1[k] == y;
                    if k < i {
                        assert(t0[k] == y);
                        assert(ov.contains(y));
                        let m = choose|m: int| 0 <= m < ov.len() && ov[m] == y;
                        if !dup {
                            assert(nv[m] == y);
                        }
                    } else {
                        if !dup {
                            assert(nv[nv.len() - 1] == y);
                        } else {
                            assert(ov[ov.len() - 1] == y);
                        }
                    }
                }
                if nv.contains(y) {
                    let m = choose|m: int| 0 <= m < nv.len() && nv[m] == y;
                    if !dup && m == nv.len() - 1 {
                        assert(t1[i as int] == y);
                    } else {
                        assert(ov[m] == y);
                        assert(ov.contains(y));
                        assert(t0.contains(y));
                        let k = choose|k: int| 0 <= k < t0.len() && t0[k] == y;
                        assert(t1[k] == y);
                    }
                }
            }
        }
        i = i + 1;
    }
    assert(sv.take(sorted@.len() as int) =~= sv);
    out
}

} // verus!
