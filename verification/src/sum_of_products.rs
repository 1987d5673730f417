//! Reading rows of numbers: the words of each line, without the lines that
//! hold none.  Turning the words into floating-point numbers, and computing
//! with them, is the program's business.
use vstd::prelude::*;
use crate::ffbm::db::texts;
use crate::text::{chars_of, string_of};

verus! {

/// ASCII whitespace, as `char::is_ascii_whitespace` documents it.
pub open spec fn is_ascii_ws(c: char) -> bool {
    c == ' ' || c == '\t' || c == '\n' || c == '\x0C' || c == '\r'
}

/// The words of `s` after the partial word `cur`: runs of characters between
/// ASCII whitespace, none empty.
pub open spec fn words_from(s: Seq<char>, cur: Seq<char>) -> Seq<Seq<char>>
    decreases s.len(),
{
    if s.len() == 0 {
        if cur.len() > 0 {
            seq![cur]
        } else {
            Seq::empty()
        }
    } else if is_ascii_ws(s[0]) {
        (if cur.len() > 0 {
            seq![cur]
        } else {
            Seq::empty()
        }) + words_from(s.skip(1), Seq::empty())
    } else {
        words_from(s.skip(1), cur.push(s[0]))
    }
}

/// The words of `s` (`str::split_ascii_whitespace`).
pub open spec fn words(s: Seq<char>) -> Seq<Seq<char>> {
    words_from(s, Seq::empty())
}

/// The words of `line`.
pub fn split_ascii_whitespace(line: &str) -> (r: Vec<String>)
    ensures
        texts(r@) == words(line@),
{
    let s = chars_of(line);
    let mut out: Vec<String> = Vec::new();
    let mut cur: Vec<char> = Vec::new();
    let mut i: usize = 0;
    assert(s@.skip(0) =~= s@);
    while i < s.len()
        invariant
            i <= s@.len(),
            s@ == line@,
            words(line@) == texts(out@) + words_from(s@.skip(i as int), cur@),
        decreases s@.len() - i,
    {
        let c = s[i];
        let ghost rest = s@.skip(i as int);
        assert(rest[0] == c);
        assert(rest.skip(1) =~= s@.skip(i + 1));
        if c == ' ' || c == '\t' || c == '\n' || c == '\x0C' || c == '\r' {
            if cur.len() > 0 {
                let ghost before = texts(out@);
                let w = string_of(&cur);
                out.push(w);
                assert(texts(out@) =~= before + seq![cur@]);
            } else {
                assert(texts(out@) + Seq::<Seq<char>>::empty() =~= texts(out@));
            }
            cur = Vec::new();
        } else {
            cur.push(c);
        }
        i = i + 1;
        assert(words(line@) =~= texts(out@) + words_from(s@.skip(i as int), cur@));
    }
    if cur.len() > 0 {
        let ghost before = texts(out@);
        let w = string_of(&cur);
        out.push(w);
        assert(texts(out@) =~= before + seq![cur@]);
    } else {
        assert(texts(out@) + Seq::<Seq<char>>::empty() =~= texts(out@));
    }
    out
}

/// The words of each line, leaving out the lines with none.
pub open spec fn rows(lines: Seq<Seq<char>>) -> Seq<Seq<Seq<char>>>
    decreases lines.len(),
{
    if lines.len() == 0 {
        Seq::empty()
    } else if words(lines.last()).len() == 0 {
        rows(lines.drop_last())
    } else {
        rows(lines.drop_last()).push(words(lines.last()))
    }
}

/// The words of each line, in rows, without the lines that have none.
pub fn split_rows(lines: &Vec<String>) -> (r: Vec<Vec<String>>)
    ensures
        r@.map_values(|row: Vec<String>| texts(row@)) == rows(texts(lines@)),
{
    let mut out: Vec<Vec<String>> = Vec::new();
    let mut i: usize = 0;
    while i < lines.len()
        invariant
            i <= lines@.len(),
            out@.map_values(|row: Vec<String>| texts(row@)) == rows(texts(lines@).take(i as int)),
        decreases lines@.len() - i,
    {
        let ghost before = out@.map_values(|row: Vec<String>| texts(row@));
        let ws = split_ascii_whitespace(lines[i].as_str());
        assert(texts(lines@).take(i + 1).drop_last() =~= texts(lines@).take(i as int));
        assert(texts(lines@).take(i + 1).last() == lines@[i as int]@);
        if ws.len() > 0 {
            let ghost wv = texts(ws@);
            out.push(ws);
            assert(out@.map_values(|row: Vec<String>| texts(row@)) =~= before.push(wv));
        }
        i = i + 1;
    }
    assert(texts(lines@).take(lines@.len() as int) =~= texts(lines@));
    out
}


proof fn lemma_words_from_solid(a: Seq<char>, cur: Seq<char>)
    requires
        cur.len() + a.len() > 0,
        forall|i: int|
            0 <= i < a.len() ==> #[trigger] a[i] != ' ' && a[i] != '\t' && a[i] != '\n' && a[i]
                != '\x0C' && a[i] != '\r',
    ensures
        words_from(a, cur) == seq![cur + a],
    decreases a.len(),
{
    if a.len() == 0 {
        assert(cur + a =~= cur);
    } else {
        assert(a[0] != ' ' && a[0] != '\t' && a[0] != '\n' && a[0] != '\x0C' && a[0] != '\r');
        let t = a.skip(1);
        assert forall|i: int| 0 <= i < t.len() implies #[trigger] t[i] != ' ' && t[i] != '\t'
            && t[i] != '\n' && t[i] != '\x0C' && t[i] != '\r' by {
            assert(t[i] == a[i + 1]);
        }
        lemma_words_from_solid(t, cur.push(a[0]));
        assert(cur.push(a[0]) + t =~= cur + a);
    }
}

proof fn lemma_words_from_split(a: Seq<char>, c: char, b: Seq<char>, cur: Seq<char>)
    requires
        is_ascii_ws(c),
    ensures
        words_from(a + seq![c] + b, cur) == words_from(a, cur) + words(b),
    decreases a.len(),
{
    let s = a + seq![c] + b;
    let head = if cur.len() > 0 {
        seq![cur]
    } else {
        Seq::<Seq<char>>::empty()
    };
    if a.len() == 0 {
        assert(s[0] == c);
        assert(s.skip(1) =~= b);
        assert(words_from(a, cur) == head);
    } else {
        assert(s[0] == a[0]);
        assert(s.skip(1) =~= a.skip(1) + seq![c] + b);
        if is_ascii_ws(a[0]) {
            lemma_words_from_split(a.skip(1), c, b, Seq::empty());
            assert(head + (words_from(a.skip(1), Seq::empty()) + words(b)) =~= (head
                + words_from(a.skip(1), Seq::empty())) + words(b));
        } else {
            lemma_words_from_split(a.skip(1), c, b, cur.push(a[0]));
        }
    }
}

/// Words are split at the ASCII whitespace characters (space, tab, line
/// feed, form feed, carriage return) and nowhere else: a text that holds
/// none of them, such as `2.5` or `1,5`, is one word whatever else it holds;
/// one of them between two texts adds their words; and an empty text has
/// none.
pub proof fn lemma_words_split_only_at_ascii_whitespace(a: Seq<char>, c: char, b: Seq<char>)
    ensures
        a.len() > 0 && (forall|i: int|
            0 <= i < a.len() ==> #[trigger] a[i] != ' ' && a[i] != '\t' && a[i] != '\n' && a[i]
                != '\x0C' && a[i] != '\r') ==> words(a) == seq![a],
        (c == ' ' || c == '\t' || c == '\n' || c == '\x0C' || c == '\r') ==> words(
            a + seq![c] + b,
        ) == words(a) + words(b),
        words(Seq::empty()) == Seq::<Seq<char>>::empty(),
{
    if a.len() > 0 && (forall|i: int|
        0 <= i < a.len() ==> #[trigger] a[i] != ' ' && a[i] != '\t' && a[i] != '\n' && a[i]
            != '\x0C' && a[i] != '\r') {
        lemma_words_from_solid(a, Seq::empty());
        assert(Seq::<char>::empty() + a =~= a);
    }
    if c == ' ' || c == '\t' || c == '\n' || c == '\x0C' || c == '\r' {
        lemma_words_from_split(a, c, b, Seq::empty());
    }
}

} // verus!
