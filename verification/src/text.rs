//! Character-level text primitives shared by the tools: whitespace, trimming,
//! splitting, joining and line breaking, each stated over `Seq<char>`.
use vstd::prelude::*;

verus! {

/// The Unicode `White_Space` property, as `char::is_whitespace` documents it.
pub open spec fn is_ws(c: char) -> bool {
    let u = c as u32;
    (0x09 <= u && u <= 0x0d) || u == 0x20 || u == 0x85 || u == 0xa0 || u == 0x1680 || (0x2000
        <= u && u <= 0x200a) || u == 0x2028 || u == 0x2029 || u == 0x202f || u == 0x205f || u
        == 0x3000
}

pub fn is_whitespace(c: char) -> (b: bool)
    ensures
        b == is_ws(c),
{
    let u = c as u32;
    (0x09 <= u && u <= 0x0d) || u == 0x20 || u == 0x85 || u == 0xa0 || u == 0x1680 || (0x2000
        <= u && u <= 0x200a) || u == 0x2028 || u == 0x2029 || u == 0x202f || u == 0x205f || u
        == 0x3000
}

/// Number of bytes of `c` in UTF-8, as `char::len_utf8` documents it.
pub open spec fn char_utf8_len(c: char) -> nat {
    let u = c as u32;
    if u < 0x80 {
        1
    } else if u < 0x800 {
        2
    } else if u < 0x10000 {
        3
    } else {
        4
    }
}

/// Number of bytes of `s` in UTF-8 (what `str::len` returns).
pub open spec fn utf8_len(s: Seq<char>) -> nat
    decreases s.len(),
{
    if s.len() == 0 {
        0
    } else {
        utf8_len(s.drop_last()) + char_utf8_len(s.last())
    }
}

pub proof fn lemma_utf8_len_bounds(s: Seq<char>)
    ensures
        s.len() <= utf8_len(s) <= 4 * s.len(),
    decreases s.len(),
{
    if s.len() > 0 {
        lemma_utf8_len_bounds(s.drop_last());
    }
}

pub fn utf8_length(s: &[char]) -> (n: usize)
    requires
        s@.len() <= usize::MAX / 4,
    ensures
        n == utf8_len(s@),
{
    let mut n: usize = 0;
    let mut i: usize = 0;
    while i < s.len()
        invariant
            i <= s@.len() <= usize::MAX / 4,
            n == utf8_len(s@.take(i as int)),
            n <= 4 * i,
        decreases s@.len() - i,
    {
        assert(s@.take(i + 1).drop_last() == s@.take(i as int));
        let u = s[i] as u32;
        if u < 0x80 {
            n = n + 1;
        } else if u < 0x800 {
            n = n + 2;
        } else if u < 0x10000 {
            n = n + 3;
        } else {
            n = n + 4;
        }
        i = i + 1;
    }
    assert(s@.take(i as int) == s@);
    n
}

/// `s` with its leading whitespace removed (`str::trim_start`).
pub open spec fn trim_start(s: Seq<char>) -> Seq<char>
    decreases s.len(),
{
    if s.len() > 0 && is_ws(s[0]) {
        trim_start(s.drop_first())
    } else {
        s
    }
}

/// `s` with its trailing whitespace removed (`str::trim_end`).
pub open spec fn trim_end(s: Seq<char>) -> Seq<char>
    decreases s.len(),
{
    if s.len() > 0 && is_ws(s.last()) {
        trim_end(s.drop_last())
    } else {
        s
    }
}

/// `s` with whitespace removed at both ends (`str::trim`).
pub open spec fn trim(s: Seq<char>) -> Seq<char> {
    trim_end(trim_start(s))
}

pub(crate) proof fn lemma_trim_start_skip(s: Seq<char>, i: int)
    requires
        0 <= i <= s.len(),
        forall|k: int| 0 <= k < i ==> is_ws(#[trigger] s[k]),
    ensures
        trim_start(s) == trim_start(s.skip(i)),
    decreases i,
{
    if i > 0 {
        assert(s.skip(1) == s.drop_first());
        lemma_trim_start_skip(s.drop_first(), i - 1);
        assert(s.drop_first().skip(i - 1) == s.skip(i));
    } else {
        assert(s.skip(0) == s);
    }
}

pub(crate) proof fn lemma_trim_end_take(s: Seq<char>, j: int)
    requires
        0 <= j <= s.len(),
        forall|k: int| j <= k < s.len() ==> is_ws(#[trigger] s[k]),
    ensures
        trim_end(s) == trim_end(s.take(j)),
    decreases s.len() - j,
{
    if j < s.len() {
        assert(s.take(s.len() - 1) == s.drop_last());
        lemma_trim_end_take(s.drop_last(), j);
        assert(s.drop_last().take(j) == s.take(j));
    } else {
        assert(s.take(j) == s);
    }
}

pub fn trim_start_chars(s: &[char]) -> (r: Vec<char>)
    ensures
        r@ == trim_start(s@),
{
    let mut i: usize = 0;
    while i < s.len() && is_whitespace(s[i])
        invariant
            i <= s@.len(),
            forall|k: int| 0 <= k < i ==> is_ws(#[trigger] s@[k]),
        decreases s@.len() - i,
    {
        i = i + 1;
    }
    proof {
        lemma_trim_start_skip(s@, i as int);
    }
    slice_range(s, i, s.len())
}

pub fn trim_chars(s: &[char]) -> (r: Vec<char>)
    ensures
        r@ == trim(s@),
{
    let mut i: usize = 0;
    while i < s.len() && is_whitespace(s[i])
        invariant
            i <= s@.len(),
            forall|k: int| 0 <= k < i ==> is_ws(#[trigger] s@[k]),
        decreases s@.len() - i,
    {
        i = i + 1;
    }
    proof {
        lemma_trim_start_skip(s@, i as int);
    }
    let ghost t = s@.skip(i as int);
    let mut j: usize = s.len();
    while j > i && is_whitespace(s[j - 1])
        invariant
            i <= j <= s@.len(),
            t == s@.skip(i as int),
            forall|k: int| j - i <= k < t.len() ==> is_ws(#[trigger] t[k]),
        decreases j,
    {
        j = j - 1;
    }
    proof {
        assert(t.len() == s@.len() - i);
        if i < s@.len() {
            lemma_trim_start_skip(s@, i as int);
            if s@.len() - i > 0 {
                assert(!is_ws(t[0]));
            }
        }
        lemma_trim_start_skip(s@, i as int);
        assert(trim_start(t) == t) by {
            if t.len() > 0 {
                assert(!is_ws(s@[i as int]));
                assert(t[0] == s@[i as int]);
            }
        }
        lemma_trim_end_take(t, j - i);
        assert(t.take(j - i) == s@.subrange(i as int, j as int));
    }
    slice_range(s, i, j)
}

/// A copy of `s[from..to]`.
pub fn slice_range(s: &[char], from: usize, to: usize) -> (r: Vec<char>)
    requires
        from <= to <= s@.len(),
    ensures
        r@ == s@.subrange(from as int, to as int),
{
    let mut r: Vec<char> = Vec::new();
    let mut k: usize = from;
    while k < to
        invariant
            from <= k <= to <= s@.len(),
            r@ == s@.subrange(from as int, k as int),
        decreases to - k,
    {
        r.push(s[k]);
        k = k + 1;
    }
    r
}

/// Whether `a` and `b` hold the same characters.
pub fn chars_eq(a: &[char], b: &[char]) -> (r: bool)
    ensures
        r == (a@ == b@),
{
    if a.len() != b.len() {
        return false;
    }
    let mut i: usize = 0;
    while i < a.len()
        invariant
            a@.len() == b@.len(),
            i <= a@.len(),
            forall|k: int| 0 <= k < i ==> a@[k] == b@[k],
        decreases a@.len() - i,
    {
        if a[i] != b[i] {
            return false;
        }
        i = i + 1;
    }
    assert(a@ =~= b@);
    true
}

/// Whether the text `s` is exactly `lit`.
pub fn str_is(s: &str, lit: &str) -> (r: bool)
    ensures
        r == (s@ == lit@),
{
    chars_eq(&chars_of(s), &chars_of(lit))
}

/// Whether `s` starts with `p`.
pub fn starts_with(s: &[char], p: &[char]) -> (r: bool)
    ensures
        r == (p@.len() <= s@.len() && s@.take(p@.len() as int) == p@),
{
    if p.len() > s.len() {
        return false;
    }
    let mut i: usize = 0;
    while i < p.len()
        invariant
            p@.len() <= s@.len(),
            i <= p@.len(),
            forall|k: int| 0 <= k < i ==> s@[k] == p@[k],
        decreases p@.len() - i,
    {
        if s[i] != p[i] {
            assert(s@.take(p@.len() as int)[i as int] != p@[i as int]);
            return false;
        }
        i = i + 1;
    }
    assert(s@.take(p@.len() as int) =~= p@);
    true
}

/// Whether `s` ends with `p`.
pub fn ends_with(s: &[char], p: &[char]) -> (r: bool)
    ensures
        r == (p@.len() <= s@.len() && s@.skip(s@.len() - p@.len()) == p@),
{
    if p.len() > s.len() {
        return false;
    }
    let off = s.len() - p.len();
    let mut i: usize = 0;
    while i < p.len()
        invariant
            p@.len() <= s@.len(),
            off == s@.len() - p@.len(),
            off + p@.len() == s@.len(),
            i <= p@.len(),
            forall|k: int| 0 <= k < i ==> s@[off + k] == p@[k],
        decreases p@.len() - i,
    {
        assert(off + i < s@.len());
        assert(s@.len() == s.len());
        if s[off + i] != p[i] {
            assert(s@.skip(off as int)[i as int] != p@[i as int]);
            return false;
        }
        i = i + 1;
    }
    assert(s@.skip(off as int) =~= p@);
    true
}

/// Whether `c` occurs in `s`.
pub fn contains_char(s: &[char], c: char) -> (r: bool)
    ensures
        r == s@.contains(c),
{
    let mut i: usize = 0;
    while i < s.len()
        invariant
            i <= s@.len(),
            forall|k: int| 0 <= k < i ==> s@[k] != c,
        decreases s@.len() - i,
    {
        if s[i] == c {
            assert(s@[i as int] == c);
            return true;
        }
        i = i + 1;
    }
    false
}

/// The pieces of `s` between occurrences of `sep` (`str::split` on a `char`).
pub open spec fn split_on(s: Seq<char>, sep: char) -> Seq<Seq<char>>
    decreases s.len(),
{
    if s.len() == 0 {
        seq![Seq::empty()]
    } else if s[0] == sep {
        seq![Seq::empty()] + split_on(s.drop_first(), sep)
    } else {
        let r = split_on(s.drop_first(), sep);
        r.update(0, seq![s[0]] + r[0])
    }
}

pub proof fn lemma_split_on_nonempty(s: Seq<char>, sep: char)
    ensures
        split_on(s, sep).len() >= 1,
    decreases s.len(),
{
    if s.len() > 0 {
        lemma_split_on_nonempty(s.drop_first(), sep);
    }
}

/// Splitting at a separator splits the text on either side of it.
pub proof fn lemma_split_on_concat(x: Seq<char>, y: Seq<char>, sep: char)
    ensures
        split_on(x + seq![sep] + y, sep) == split_on(x, sep) + split_on(y, sep),
    decreases x.len(),
{
    let s = x + seq![sep] + y;
    if x.len() == 0 {
        assert(s =~= seq![sep] + y);
        assert(s.drop_first() =~= y);
        assert(split_on(s, sep) =~= split_on(x, sep) + split_on(y, sep));
    } else {
        assert(s.drop_first() =~= x.drop_first() + seq![sep] + y);
        lemma_split_on_concat(x.drop_first(), y, sep);
        lemma_split_on_nonempty(x.drop_first(), sep);
        let r = split_on(s.drop_first(), sep);
        let rx = split_on(x.drop_first(), sep);
        assert(r == rx + split_on(y, sep));
        assert(s[0] == x[0]);
        if x[0] == sep {
            assert(split_on(s, sep) =~= split_on(x, sep) + split_on(y, sep));
        } else {
            assert(r[0] == rx[0]);
            assert(split_on(s, sep) =~= split_on(x, sep) + split_on(y, sep));
        }
    }
}

/// Text without the separator is a single piece.
pub proof fn lemma_split_on_free(x: Seq<char>, sep: char)
    requires
        !x.contains(sep),
    ensures
        split_on(x, sep) == seq![x],
    decreases x.len(),
{
    if x.len() > 0 {
        assert(x[0] != sep);
        assert(!x.drop_first().contains(sep)) by {
            if x.drop_first().contains(sep) {
                let i = choose|i: int| 0 <= i < x.drop_first().len() && x.drop_first()[i] == sep;
                assert(x[i + 1] == sep);
            }
        }
        lemma_split_on_free(x.drop_first(), sep);
        let r = split_on(x.drop_first(), sep);
        assert(r == seq![x.drop_first()]);
        assert(seq![x[0]] + x.drop_first() =~= x);
        assert(split_on(x, sep) == r.update(0, seq![x[0]] + r[0]));
        assert(split_on(x, sep) =~= seq![x]);
    } else {
        assert(x =~= Seq::<char>::empty());
    }
}

/// Splitting pieces joined by the separator gives the pieces back, where
/// none of them holds it.
pub proof fn lemma_split_on_join(ps: Seq<Seq<char>>, sep: char)
    requires
        ps.len() >= 1,
        forall|i: int| 0 <= i < ps.len() ==> !(#[trigger] ps[i]).contains(sep),
    ensures
        split_on(join(ps, seq![sep]), sep) == ps,
    decreases ps.len(),
{
    if ps.len() == 1 {
        lemma_split_on_free(ps[0], sep);
        assert(seq![ps[0]] =~= ps);
    } else {
        let init = ps.drop_last();
        assert forall|i: int| 0 <= i < init.len() implies !(#[trigger] init[i]).contains(sep) by {
            assert(init[i] == ps[i]);
        }
        lemma_split_on_join(init, sep);
        lemma_split_on_concat(join(init, seq![sep]), ps.last(), sep);
        lemma_split_on_free(ps.last(), sep);
        assert(init + seq![ps.last()] =~= ps);
    }
}

/// No piece of a split holds the separator.
pub proof fn lemma_split_on_pieces(s: Seq<char>, sep: char)
    ensures
        forall|i: int| 0 <= i < split_on(s, sep).len() ==> !(#[trigger] split_on(s, sep)[i]).contains(sep),
    decreases s.len(),
{
    if s.len() > 0 {
        lemma_split_on_pieces(s.drop_first(), sep);
        lemma_split_on_nonempty(s.drop_first(), sep);
        let r = split_on(s.drop_first(), sep);
        if s[0] != sep {
            let p = seq![s[0]] + r[0];
            assert(!p.contains(sep)) by {
                if p.contains(sep) {
                    let k = choose|k: int| 0 <= k < p.len() && p[k] == sep;
                    assert(k > 0);
                    assert(r[0][k - 1] == sep);
                }
            }
            assert forall|i: int| 0 <= i < split_on(s, sep).len() implies !(#[trigger] split_on(
                s,
                sep,
            )[i]).contains(sep) by {
                if i > 0 {
                    assert(split_on(s, sep)[i] == r[i]);
                }
            }
        } else {
            assert forall|i: int| 0 <= i < split_on(s, sep).len() implies !(#[trigger] split_on(
                s,
                sep,
            )[i]).contains(sep) by {
                if i > 0 {
                    assert(split_on(s, sep)[i] == r[i - 1]);
                }
            }
        }
    }
}

spec fn prepend_first(cur: Seq<char>, r: Seq<Seq<char>>) -> Seq<Seq<char>> {
    r.update(0, cur + r[0])
}

pub fn split_chars(s: &[char], sep: char) -> (r: Vec<Vec<char>>)
    ensures
        r@.map_values(|v: Vec<char>| v@) == split_on(s@, sep),
{
    let mut done: Vec<Vec<char>> = Vec::new();
    let mut cur: Vec<char> = Vec::new();
    let mut i: usize = 0;
    proof {
        assert(s@.skip(0) == s@);
        lemma_split_on_nonempty(s@, sep);
        assert(prepend_first(Seq::empty(), split_on(s@, sep)) =~= split_on(s@, sep));
    }
    while i < s.len()
        invariant
            i <= s@.len(),
            split_on(s@, sep) == done@.map_values(|v: Vec<char>| v@) + prepend_first(
                cur@,
                split_on(s@.skip(i as int), sep),
            ),
        decreases s@.len() - i,
    {
        let ghost rest = s@.skip(i as int);
        let ghost rest2 = s@.skip(i + 1);
        proof {
            assert(rest.drop_first() == rest2);
            lemma_split_on_nonempty(rest2, sep);
        }
        if s[i] == sep {
            let ghost old_done = done@.map_values(|v: Vec<char>| v@);
            let ghost old_cur = cur@;
            done.push(cur);
            cur = Vec::new();
            proof {
                assert(done@.map_values(|v: Vec<char>| v@) =~= old_done.push(old_cur));
                assert(prepend_first(old_cur, split_on(rest, sep)) =~= seq![old_cur]
                    + prepend_first(Seq::empty(), split_on(rest2, sep)));
            }
        } else {
            let ghost old_cur = cur@;
            cur.push(s[i]);
            proof {
                let r = split_on(rest2, sep);
                assert(rest[0] == s@[i as int]);
                assert(split_on(rest, sep) == r.update(0, seq![s@[i as int]] + r[0]));
                assert(old_cur + (seq![s@[i as int]] + r[0]) =~= cur@ + r[0]);
                assert(prepend_first(old_cur, split_on(rest, sep)) =~= prepend_first(
                    cur@,
                    split_on(rest2, sep),
                ));
            }
        }
        i = i + 1;
    }
    proof {
        assert(s@.skip(i as int) =~= Seq::<char>::empty());
    }
    let ghost old_done = done@.map_values(|v: Vec<char>| v@);
    let ghost old_cur = cur@;
    done.push(cur);
    proof {
        assert(done@.map_values(|v: Vec<char>| v@) =~= old_done.push(old_cur));
        assert(prepend_first(old_cur, split_on(Seq::<char>::empty(), sep)) =~= seq![old_cur]);
    }
    done
}

/// `s` without one trailing carriage return.
pub open spec fn strip_cr(s: Seq<char>) -> Seq<char> {
    if s.len() > 0 && s.last() == '\r' {
        s.drop_last()
    } else {
        s
    }
}

/// The lines of `s`, as `str::lines` yields them: split at `\n`, a `\r` just
/// before a `\n` dropped, and no empty last line after a final `\n`.
pub open spec fn lines_of(s: Seq<char>) -> Seq<Seq<char>> {
    let p = split_on(s, '\n');
    let k = p.len() - 1;
    p.take(k).map_values(|l: Seq<char>| strip_cr(l)) + if p[k].len() == 0 {
        Seq::empty()
    } else {
        seq![p[k]]
    }
}

pub fn lines_chars(s: &[char]) -> (r: Vec<Vec<char>>)
    ensures
        r@.map_values(|v: Vec<char>| v@) == lines_of(s@),
{
    let pieces = split_chars(s, '\n');
    let ghost p = split_on(s@, '\n');
    proof {
        lemma_split_on_nonempty(s@, '\n');
    }
    let k = pieces.len() - 1;
    let mut out: Vec<Vec<char>> = Vec::new();
    let mut i: usize = 0;
    while i < k
        invariant
            pieces@.map_values(|v: Vec<char>| v@) == p,
            k == p.len() - 1,
            i <= k,
            out@.map_values(|v: Vec<char>| v@) == p.take(i as int).map_values(
                |l: Seq<char>| strip_cr(l),
            ),
        decreases k - i,
    {
        let line = &pieces[i];
        assert(line@ == p[i as int]);
        let n = line.len();
        let stripped = if n > 0 && line[n - 1] == '\r' {
            slice_range(line, 0, n - 1)
        } else {
            slice_range(line, 0, n)
        };
        proof {
            assert(line@.subrange(0, n as int) == line@);
            assert(line@.subrange(0, n - 1) == line@.drop_last());
        }
        let ghost old_out = out@.map_values(|v: Vec<char>| v@);
        out.push(stripped);
        proof {
            assert(out@.map_values(|v: Vec<char>| v@) =~= old_out.push(strip_cr(p[i as int])));
            assert(p.take(i + 1).map_values(|l: Seq<char>| strip_cr(l)) =~= p.take(
                i as int,
            ).map_values(|l: Seq<char>| strip_cr(l)).push(strip_cr(p[i as int])));
        }
        i = i + 1;
    }
    let last = &pieces[k];
    assert(last@ == p[k as int]);
    if last.len() > 0 {
        let ghost old_out = out@.map_values(|v: Vec<char>| v@);
        out.push(slice_range(last, 0, last.len()));
        proof {
            assert(last@.subrange(0, last@.len() as int) == last@);
            assert(out@.map_values(|v: Vec<char>| v@) =~= old_out.push(p[k as int]));
        }
    }
    proof {
        assert(out@.map_values(|v: Vec<char>| v@) =~= lines_of(s@));
    }
    out
}

/// The pieces of `ls` joined with `sep` between them (`[T]::join`).
pub open spec fn join(ls: Seq<Seq<char>>, sep: Seq<char>) -> Seq<char>
    decreases ls.len(),
{
    if ls.len() == 0 {
        Seq::empty()
    } else if ls.len() == 1 {
        ls[0]
    } else {
        join(ls.drop_last(), sep) + sep + ls.last()
    }
}

/// Appends `b` to `a`.
pub fn append_chars(a: &mut Vec<char>, b: &[char])
    ensures
        final(a)@ == old(a)@ + b@,
{
    let mut i: usize = 0;
    while i < b.len()
        invariant
            i <= b@.len(),
            a@ == old(a)@ + b@.take(i as int),
        decreases b@.len() - i,
    {
        a.push(b[i]);
        i = i + 1;
        assert(b@.take(i as int) == b@.take(i - 1).push(b[i - 1]));
    }
    assert(b@.take(b@.len() as int) == b@);
}

pub fn join_chars(ls: &Vec<Vec<char>>, sep: &[char]) -> (r: Vec<char>)
    ensures
        r@ == join(ls@.map_values(|v: Vec<char>| v@), sep@),
{
    let ghost vs = ls@.map_values(|v: Vec<char>| v@);
    let mut r: Vec<char> = Vec::new();
    let mut i: usize = 0;
    while i < ls.len()
        invariant
            vs == ls@.map_values(|v: Vec<char>| v@),
            i <= ls@.len(),
            r@ == join(vs.take(i as int), sep@),
        decreases ls@.len() - i,
    {
        if i > 0 {
            append_chars(&mut r, sep);
        }
        append_chars(&mut r, &ls[i]);
        proof {
            assert(vs.take(i + 1).drop_last() == vs.take(i as int));
            assert(vs.take(i + 1).last() == ls@[i as int]@);
            if i == 0 {
                assert(vs.take(1).len() == 1);
            }
        }
        i = i + 1;
    }
    assert(vs.take(ls@.len() as int) == vs);
    r
}

/// Pushes `c` onto `s` (`String::push`).
#[verifier::external_body]
pub(crate) fn push_char(s: &mut String, c: char)
    ensures
        final(s)@ == old(s)@.push(c),
{
    s.push(c)
}

/// The characters of `s`.
pub fn chars_of(s: &str) -> (r: Vec<char>)
    ensures
        r@ == s@,
{
    let mut r: Vec<char> = Vec::new();
    for c in it: s.chars()
        invariant
            r@ == it.seq().take(it.index() as int),
    {
        r.push(c);
    }
    r
}

/// A `String` holding the characters of `v`.
pub fn string_of(v: &[char]) -> (r: String)
    ensures
        r@ == v@,
{
    let mut r = String::new();
    let mut i: usize = 0;
    while i < v.len()
        invariant
            i <= v@.len(),
            r@ == v@.take(i as int),
        decreases v@.len() - i,
    {
        push_char(&mut r, v[i]);
        i = i + 1;
        assert(v@.take(i as int) == v@.take(i - 1).push(v[i - 1]));
    }
    assert(v@.take(v@.len() as int) == v@);
    r
}

/// What `str::to_uppercase` returns for a string (full Unicode case mapping).
pub uninterp spec fn uppercase(s: Seq<char>) -> Seq<char>;

/// What `str::to_lowercase` returns for a string (full Unicode case mapping).
pub uninterp spec fn lowercase(s: Seq<char>) -> Seq<char>;

/// Calls `str::to_uppercase`; the result is named `uppercase`.
#[verifier::external_body]
pub(crate) fn to_uppercase(s: &str) -> (r: String)
    ensures
        r@ == uppercase(s@),
{
    s.to_uppercase()
}

/// Calls `str::to_lowercase`; the result is named `lowercase`.
#[verifier::external_body]
pub(crate) fn to_lowercase(s: &str) -> (r: String)
    ensures
        r@ == lowercase(s@),
{
    s.to_lowercase()
}

/// The concatenation of all pieces of `ss`.
pub open spec fn concat(ss: Seq<Seq<char>>) -> Seq<char>
    decreases ss.len(),
{
    if ss.len() == 0 {
        Seq::empty()
    } else {
        concat(ss.drop_last()) + ss.last()
    }
}

/// The part of `s` before the first `c`, or all of `s` when `c` does not
/// occur (the first piece of `str::split`).
pub open spec fn take_until(s: Seq<char>, c: char) -> Seq<char>
    decreases s.len(),
{
    if s.len() == 0 {
        Seq::empty()
    } else if s[0] == c {
        Seq::empty()
    } else {
        seq![s[0]] + take_until(s.skip(1), c)
    }
}

/// Where the first `c` of `s` stands, or the length of `s` when none does.
pub open spec fn index_of_or_len(s: Seq<char>, c: char) -> int
    decreases s.len(),
{
    if s.len() == 0 {
        0
    } else if s[0] == c {
        0
    } else {
        1 + index_of_or_len(s.skip(1), c)
    }
}

pub proof fn lemma_take_until(s: Seq<char>, c: char)
    ensures
        0 <= index_of_or_len(s, c) <= s.len(),
        take_until(s, c) == s.take(index_of_or_len(s, c)),
        index_of_or_len(s, c) < s.len() ==> s[index_of_or_len(s, c)] == c,
        forall|k: int| 0 <= k < index_of_or_len(s, c) ==> s[k] != c,
    decreases s.len(),
{
    if s.len() > 0 && s[0] != c {
        lemma_take_until(s.skip(1), c);
        assert(take_until(s, c) =~= s.take(index_of_or_len(s, c)));
        assert forall|k: int| 0 <= k < index_of_or_len(s, c) implies s[k] != c by {
            if k > 0 {
                assert(s[k] == s.skip(1)[k - 1]);
            }
        }
    }
}

/// The index of the first `c` in `s`, or the length of `s`.
pub fn find_char_or_len(s: &[char], c: char) -> (r: usize)
    ensures
        r == index_of_or_len(s@, c),
{
    proof {
        lemma_take_until(s@, c);
    }
    let mut i: usize = 0;
    while i < s.len() && s[i] != c
        invariant
            i <= s@.len(),
            forall|k: int| 0 <= k < i ==> s@[k] != c,
            0 <= index_of_or_len(s@, c) <= s@.len(),
            index_of_or_len(s@, c) < s@.len() ==> s@[index_of_or_len(s@, c)] == c,
            forall|k: int| 0 <= k < index_of_or_len(s@, c) ==> s@[k] != c,
        decreases s@.len() - i,
    {
        i = i + 1;
    }
    i
}

/// Whether `s` takes at most `limit` bytes in UTF-8.
pub fn utf8_len_at_most(s: &[char], limit: usize) -> (r: bool)
    requires
        limit <= 1000,
    ensures
        r == (utf8_len(s@) <= limit),
{
    let mut n: usize = 0;
    let mut i: usize = 0;
    while i < s.len()
        invariant
            i <= s@.len(),
            limit <= 1000,
            n == utf8_len(s@.take(i as int)),
            n <= limit,
        decreases s@.len() - i,
    {
        assert(s@.take(i + 1).drop_last() =~= s@.take(i as int));
        let u = s[i] as u32;
        let w: usize = if u < 0x80 {
            1
        } else if u < 0x800 {
            2
        } else if u < 0x10000 {
            3
        } else {
            4
        };
        n = n + w;
        i = i + 1;
        if n > limit {
            proof {
                lemma_utf8_len_prefix(s@, i as int);
            }
            return false;
        }
    }
    assert(s@.take(i as int) =~= s@);
    true
}

pub proof fn lemma_utf8_len_prefix(s: Seq<char>, i: int)
    requires
        0 <= i <= s.len(),
    ensures
        utf8_len(s.take(i)) <= utf8_len(s),
    decreases s.len() - i,
{
    if i < s.len() {
        lemma_utf8_len_prefix(s, i + 1);
        assert(s.take(i + 1).drop_last() =~= s.take(i));
    } else {
        assert(s.take(i) =~= s);
    }
}

} // verus!
