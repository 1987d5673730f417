//! Aligns Markdown tables.
//!
//! Contiguous runs of lines starting with `|` (after leading whitespace) are
//! treated as tables; every other line passes through unchanged.
use vstd::prelude::*;
use crate::text::{
    append_chars, chars_of, is_ws, join, join_chars, lemma_split_on_concat, lemma_split_on_join,
    lemma_split_on_nonempty, strip_cr,
    lemma_split_on_pieces, lemma_trim_end_take, lemma_trim_start_skip, lines_chars, lines_of,
    slice_range, split_chars, split_on, string_of, trim, trim_chars, trim_end, trim_start,
    trim_start_chars, utf8_len, utf8_length,
};

verus! {

/// A line belongs to a table when, after leading whitespace, it starts with `|`.
pub open spec fn is_row(line: Seq<char>) -> bool {
    let t = trim_start(line);
    t.len() > 0 && t[0] == '|'
}

/// The text between the outer pipes of a trimmed row.  A leading `|` is
/// dropped; a trailing `|` is dropped from what remains, and when there is none
/// the whole trimmed row is kept.
pub open spec fn strip_pipes(t: Seq<char>) -> Seq<char> {
    let a = if t.len() > 0 && t[0] == '|' {
        t.drop_first()
    } else {
        t
    };
    if a.len() > 0 && a.last() == '|' {
        a.drop_last()
    } else {
        t
    }
}

/// The trimmed cells of a row: `| a | b |` has the cells `a` and `b`.
pub open spec fn cells(line: Seq<char>) -> Seq<Seq<char>> {
    split_on(strip_pipes(trim(line)), '|').map_values(|c: Seq<char>| trim(c))
}

/// A separator cell holds only `-`, with an optional `:` at either end, and
/// is not empty.
pub open spec fn is_sep(cell: Seq<char>) -> bool {
    let s = trim(cell);
    &&& s.len() > 0
    &&& s[0] == '-' || s[0] == ':'
    &&& s.last() == '-' || s.last() == ':'
    &&& forall|i: int| 0 < i < s.len() - 1 ==> s[i] == '-'
}

/// `n` copies of `c`.
pub open spec fn repeat(c: char, n: nat) -> Seq<char> {
    Seq::new(n, |i: int| c)
}

/// A separator cell rebuilt at `width`, keeping its alignment colons.
pub open spec fn separator(cell: Seq<char>, width: nat) -> Seq<char> {
    let left = cell.len() > 0 && cell[0] == ':';
    let right = cell.len() > 0 && cell.last() == ':';
    let dashes = width - (if left {
        1int
    } else {
        0int
    }) - (if right {
        1int
    } else {
        0int
    });
    (if left {
        seq![':']
    } else {
        Seq::empty()
    }) + repeat('-', dashes as nat) + (if right {
        seq![':']
    } else {
        Seq::empty()
    })
}

/// `cell` padded with spaces on the right to `width` characters.
pub open spec fn pad(cell: Seq<char>, width: nat) -> Seq<char> {
    if cell.len() < width {
        cell + repeat(' ', (width - cell.len()) as nat)
    } else {
        cell
    }
}

/// The width a cell asks of its column: 3 for a separator, else its length in
/// UTF-8 bytes.
pub open spec fn min_width(cell: Seq<char>) -> nat {
    if is_sep(cell) {
        3
    } else {
        utf8_len(cell)
    }
}

pub open spec fn max_nat(a: nat, b: nat) -> nat {
    if a < b {
        b
    } else {
        a
    }
}

/// The number of columns of a table: the length of its longest row.
pub open spec fn num_cols(rows: Seq<Seq<Seq<char>>>) -> nat
    decreases rows.len(),
{
    if rows.len() == 0 {
        0
    } else {
        max_nat(num_cols(rows.drop_last()), rows.last().len())
    }
}

/// The width of column `i`: the largest width asked by a cell in it.
pub open spec fn col_width(rows: Seq<Seq<Seq<char>>>, i: int) -> nat
    decreases rows.len(),
{
    if rows.len() == 0 {
        0
    } else {
        max_nat(
            col_width(rows.drop_last(), i),
            if 0 <= i < rows.last().len() {
                min_width(rows.last()[i])
            } else {
                0
            },
        )
    }
}

/// The cell of `row` in column `i`, empty where the row is short.
pub open spec fn cell_at(row: Seq<Seq<char>>, i: int) -> Seq<char> {
    if 0 <= i < row.len() {
        row[i]
    } else {
        Seq::empty()
    }
}

pub open spec fn render_cell(cell: Seq<char>, width: nat) -> Seq<char> {
    if is_sep(cell) {
        separator(cell, width)
    } else {
        pad(cell, width)
    }
}

/// A row rendered at the given column widths: `| c1 | c2 |`.
pub open spec fn render_row(row: Seq<Seq<char>>, widths: Seq<nat>) -> Seq<char> {
    seq!['|', ' '] + join(
        Seq::new(widths.len(), |i: int| render_cell(cell_at(row, i), widths[i])),
        seq![' ', '|', ' '],
    ) + seq![' ', '|']
}

/// The widths of all columns of a table.
pub open spec fn widths_of(rows: Seq<Seq<Seq<char>>>) -> Seq<nat> {
    Seq::new(num_cols(rows), |i: int| col_width(rows, i))
}

/// A block of table lines, aligned.
pub open spec fn align_block(block: Seq<Seq<char>>) -> Seq<Seq<char>> {
    let rows = block.map_values(|l: Seq<char>| cells(l));
    rows.map_values(|r: Seq<Seq<char>>| render_row(r, widths_of(rows)))
}

/// The number of table lines at the start of `ls`.
pub open spec fn table_run(ls: Seq<Seq<char>>) -> nat
    decreases ls.len(),
{
    if ls.len() > 0 && is_row(ls[0]) {
        1 + table_run(ls.drop_first())
    } else {
        0
    }
}

/// The output lines for the input lines `ls`: every maximal run of table lines
/// aligned, every other line unchanged.
pub open spec fn process_lines(ls: Seq<Seq<char>>) -> Seq<Seq<char>>
    decreases ls.len(),
{
    if ls.len() == 0 {
        Seq::empty()
    } else if is_row(ls[0]) {
        let k = table_run(ls);
        if 0 < k <= ls.len() {
            align_block(ls.take(k as int)) + process_lines(ls.skip(k as int))
        } else {
            Seq::empty()
        }
    } else {
        seq![ls[0]] + process_lines(ls.drop_first())
    }
}

/// The whole transformation: lines processed, joined by `\n`, with a final `\n`
/// exactly when the input has one.
pub open spec fn aligned_text(input: Seq<char>) -> Seq<char> {
    join(process_lines(lines_of(input)), seq!['\n']) + if input.len() > 0 && input.last()
        == '\n' {
        seq!['\n']
    } else {
        Seq::empty()
    }
}

// ---- lengths ----
proof fn lemma_trim_start_len(s: Seq<char>)
    ensures
        trim_start(s).len() <= s.len(),
    decreases s.len(),
{
    if s.len() > 0 && is_ws(s[0]) {
        lemma_trim_start_len(s.drop_first());
    }
}

proof fn lemma_trim_end_len(s: Seq<char>)
    ensures
        trim_end(s).len() <= s.len(),
    decreases s.len(),
{
    if s.len() > 0 && is_ws(s.last()) {
        lemma_trim_end_len(s.drop_last());
    }
}

proof fn lemma_trim_len(s: Seq<char>)
    ensures
        trim(s).len() <= s.len(),
{
    lemma_trim_start_len(s);
    lemma_trim_end_len(trim_start(s));
}

proof fn lemma_split_lens(s: Seq<char>, sep: char)
    ensures
        forall|k: int|
            0 <= k < split_on(s, sep).len() ==> #[trigger] split_on(s, sep)[k].len() <= s.len(),
    decreases s.len(),
{
    lemma_split_on_nonempty(s, sep);
    if s.len() > 0 {
        lemma_split_lens(s.drop_first(), sep);
        lemma_split_on_nonempty(s.drop_first(), sep);
    }
}

proof fn lemma_cells_lens(line: Seq<char>)
    ensures
        forall|k: int| 0 <= k < cells(line).len() ==> #[trigger] cells(line)[k].len() <= line.len(),
{
    let t = trim(line);
    lemma_trim_len(line);
    let p = strip_pipes(t);
    assert(p.len() <= t.len());
    lemma_split_lens(p, '|');
    assert forall|k: int| 0 <= k < cells(line).len() implies #[trigger] cells(line)[k].len()
        <= line.len() by {
        lemma_trim_len(split_on(p, '|')[k]);
    }
}

proof fn lemma_lines_lens(s: Seq<char>)
    ensures
        forall|k: int| 0 <= k < lines_of(s).len() ==> #[trigger] lines_of(s)[k].len() <= s.len(),
{
    lemma_split_lens(s, '\n');
    lemma_split_on_nonempty(s, '\n');
}

// ---- executable parts ----
/// Whether `line` belongs to a table.
pub fn is_table_row(line: &[char]) -> (r: bool)
    ensures
        r == is_row(line@),
{
    let t = trim_start_chars(line);
    t.len() > 0 && t[0] == '|'
}

/// Splits a `| a | b | c |` row into its trimmed cells `a`, `b`, `c`.
pub fn parse_cells(line: &[char]) -> (r: Vec<Vec<char>>)
    ensures
        r@.map_values(|v: Vec<char>| v@) == cells(line@),
{
    let trimmed = trim_chars(line);
    let n = trimmed.len();
    let a_start: usize = if n > 0 && trimmed[0] == '|' {
        1
    } else {
        0
    };
    let inner = if a_start < n && trimmed[n - 1] == '|' {
        slice_range(&trimmed, a_start, n - 1)
    } else {
        slice_range(&trimmed, 0, n)
    };
    proof {
        let t = trimmed@;
        let a = if t.len() > 0 && t[0] == '|' {
            t.drop_first()
        } else {
            t
        };
        assert(a == t.subrange(a_start as int, n as int));
        if a.len() > 0 && a.last() == '|' {
            assert(a.drop_last() == t.subrange(a_start as int, n - 1));
        }
        assert(t.subrange(0, n as int) == t);
        assert(inner@ == strip_pipes(t));
    }
    let pieces = split_chars(&inner, '|');
    let mut out: Vec<Vec<char>> = Vec::new();
    let mut i: usize = 0;
    let ghost p = split_on(inner@, '|');
    while i < pieces.len()
        invariant
            pieces@.map_values(|v: Vec<char>| v@) == p,
            i <= pieces@.len(),
            out@.map_values(|v: Vec<char>| v@) == p.take(i as int).map_values(
                |c: Seq<char>| trim(c),
            ),
        decreases pieces@.len() - i,
    {
        let c = trim_chars(&pieces[i]);
        let ghost old_out = out@.map_values(|v: Vec<char>| v@);
        out.push(c);
        proof {
            assert(pieces@[i as int]@ == p[i as int]);
            assert(out@.map_values(|v: Vec<char>| v@) =~= old_out.push(trim(p[i as int])));
            assert(p.take(i + 1).map_values(|c: Seq<char>| trim(c)) =~= p.take(
                i as int,
            ).map_values(|c: Seq<char>| trim(c)).push(trim(p[i as int])));
        }
        i = i + 1;
    }
    assert(p.take(p.len() as int) == p);
    out
}

/// Whether a cell (after trimming) holds only `-`, with an optional `:` at
/// either end, and is not empty.
pub fn is_separator_cell(cell: &[char]) -> (r: bool)
    ensures
        r == is_sep(cell@),
{
    let s = trim_chars(cell);
    let n = s.len();
    if n == 0 {
        return false;
    }
    if (s[0] != '-' && s[0] != ':') || (s[n - 1] != '-' && s[n - 1] != ':') {
        return false;
    }
    let mut i: usize = 1;
    while i < n - 1
        invariant
            1 <= i <= n,
            n == s@.len(),
            s@ == trim(cell@),
            forall|k: int| 0 < k < i && k < n - 1 ==> s@[k] == '-',
        decreases n - i,
    {
        if s[i] != '-' {
            return false;
        }
        i = i + 1;
    }
    true
}

fn push_repeat(out: &mut Vec<char>, c: char, n: usize)
    ensures
        final(out)@ == old(out)@ + repeat(c, n as nat),
{
    let mut k: usize = 0;
    while k < n
        invariant
            k <= n,
            out@ == old(out)@ + repeat(c, k as nat),
        decreases n - k,
    {
        out.push(c);
        k = k + 1;
        assert(repeat(c, k as nat) == repeat(c, (k - 1) as nat).push(c));
    }
}

/// Rebuilds a separator cell (`---`, `:---`, `---:`, `:---:`) at the given width.
pub fn format_separator(cell: &[char], width: usize) -> (r: Vec<char>)
    requires
        width >= (if cell@.len() > 0 && cell@[0] == ':' {
            1int
        } else {
            0int
        }) + (if cell@.len() > 0 && cell@.last() == ':' {
            1int
        } else {
            0int
        }),
    ensures
        r@ == separator(cell@, width as nat),
{
    let n = cell.len();
    let left = n > 0 && cell[0] == ':';
    let right = n > 0 && cell[n - 1] == ':';
    let dashes = width - (if left {
        1usize
    } else {
        0usize
    }) - (if right {
        1usize
    } else {
        0usize
    });
    let mut buf: Vec<char> = Vec::new();
    if left {
        buf.push(':');
    }
    push_repeat(&mut buf, '-', dashes);
    if right {
        buf.push(':');
    }
    proof {
        let l: Seq<char> = if left {
            seq![':']
        } else {
            Seq::empty()
        };
        let rr: Seq<char> = if right {
            seq![':']
        } else {
            Seq::empty()
        };
        assert(buf@ =~= l + repeat('-', dashes as nat) + rr);
    }
    buf
}

/// `cell` padded with spaces to `width` characters.
fn pad_cell(cell: &[char], width: usize) -> (r: Vec<char>)
    ensures
        r@ == pad(cell@, width as nat),
{
    let mut out = slice_range(cell, 0, cell.len());
    assert(cell@.subrange(0, cell@.len() as int) == cell@);
    if cell.len() < width {
        push_repeat(&mut out, ' ', width - cell.len());
    }
    out
}

fn max_usize(a: usize, b: usize) -> (r: usize)
    ensures
        r == max_nat(a as nat, b as nat),
{
    if a < b {
        b
    } else {
        a
    }
}

fn render_table_row(row: &Vec<Vec<char>>, widths: &Vec<usize>) -> (r: Vec<char>)
    requires
        forall|i: int|
            0 <= i < widths@.len() && 0 <= i < row@.len() && #[trigger] is_sep(row@[i]@)
                ==> widths@[i] >= 3,
        forall|i: int| 0 <= i < row@.len() ==> trim(#[trigger] row@[i]@) == row@[i]@,
    ensures
        r@ == render_row(
            row@.map_values(|v: Vec<char>| v@),
            widths@.map_values(|w: usize| w as nat),
        ),
{
    let ghost rowv = row@.map_values(|v: Vec<char>| v@);
    let ghost ws = widths@.map_values(|w: usize| w as nat);
    let ghost target = Seq::new(ws.len(), |i: int| render_cell(cell_at(rowv, i), ws[i]));
    let mut rendered: Vec<Vec<char>> = Vec::new();
    let empty: Vec<char> = Vec::new();
    let mut i: usize = 0;
    while i < widths.len()
        invariant
            rowv == row@.map_values(|v: Vec<char>| v@),
            ws == widths@.map_values(|w: usize| w as nat),
            target == Seq::new(ws.len(), |i: int| render_cell(cell_at(rowv, i), ws[i])),
            empty@.len() == 0,
            i <= widths@.len(),
            forall|i: int|
                0 <= i < widths@.len() && 0 <= i < row@.len() && #[trigger] is_sep(row@[i]@)
                    ==> widths@[i] >= 3,
            forall|i: int| 0 <= i < row@.len() ==> trim(#[trigger] row@[i]@) == row@[i]@,
            rendered@.map_values(|v: Vec<char>| v@) == target.take(i as int),
        decreases widths@.len() - i,
    {
        let cell: &Vec<char> = if i < row.len() {
            &row[i]
        } else {
            &empty
        };
        assert(cell@ == cell_at(rowv, i as int));
        let w = widths[i];
        let rc = if is_separator_cell(cell) {
            proof {
                assert(i < row@.len()) by {
                    if i >= row@.len() {
                        assert(trim(cell@).len() == 0);
                    }
                }
                assert(is_sep(row@[i as int]@));
            }
            format_separator(cell, w)
        } else {
            pad_cell(cell, w)
        };
        let ghost old_r = rendered@.map_values(|v: Vec<char>| v@);
        rendered.push(rc);
        proof {
            assert(rendered@.map_values(|v: Vec<char>| v@) =~= old_r.push(rc@));
            assert(target.take(i + 1) =~= target.take(i as int).push(target[i as int]));
        }
        i = i + 1;
    }
    assert(target.take(ws.len() as int) == target);
    let sep: [char; 3] = [' ', '|', ' '];
    let joined = join_chars(&rendered, &sep);
    let mut out: Vec<char> = Vec::new();
    out.push('|');
    out.push(' ');
    append_chars(&mut out, &joined);
    out.push(' ');
    out.push('|');
    proof {
        assert(sep@ =~= seq![' ', '|', ' ']);
        assert(out@ =~= seq!['|', ' '] + joined@ + seq![' ', '|']);
    }
    out
}

proof fn lemma_trim_start_idem(s: Seq<char>)
    ensures
        trim_start(trim_start(s)) == trim_start(s),
        trim_start(s).len() > 0 ==> !is_ws(trim_start(s)[0]),
    decreases s.len(),
{
    if s.len() > 0 && is_ws(s[0]) {
        lemma_trim_start_idem(s.drop_first());
    }
}

proof fn lemma_trim_end_keeps_start(s: Seq<char>)
    requires
        s.len() > 0 ==> !is_ws(s[0]),
    ensures
        trim_end(s).len() > 0 ==> !is_ws(trim_end(s)[0]),
        trim_end(trim_end(s)) == trim_end(s),
        trim_end(s).len() > 0 ==> !is_ws(trim_end(s).last()),
    decreases s.len(),
{
    if s.len() > 0 && is_ws(s.last()) {
        lemma_trim_end_keeps_start(s.drop_last());
    }
}

proof fn lemma_trim_idem(s: Seq<char>)
    ensures
        trim(trim(s)) == trim(s),
{
    lemma_trim_start_idem(s);
    let t = trim_start(s);
    lemma_trim_end_keeps_start(t);
    let u = trim_end(t);
    assert(trim_start(u) == u);
}

fn table_widths(rows: &Vec<Vec<Vec<char>>>) -> (r: Vec<usize>)
    requires
        forall|j: int, k: int|
            0 <= j < rows@.len() && 0 <= k < rows@[j]@.len() ==> #[trigger] rows@[j]@[k]@.len()
                <= usize::MAX / 4,
    ensures
        r@.map_values(|w: usize| w as nat) == widths_of(
            rows@.map_values(|r: Vec<Vec<char>>| r@.map_values(|v: Vec<char>| v@)),
        ),
{
    let ghost rs = rows@.map_values(|r: Vec<Vec<char>>| r@.map_values(|v: Vec<char>| v@));
    let mut ncols: usize = 0;
    let mut j: usize = 0;
    while j < rows.len()
        invariant
            rs == rows@.map_values(|r: Vec<Vec<char>>| r@.map_values(|v: Vec<char>| v@)),
            j <= rows@.len(),
            ncols == num_cols(rs.take(j as int)),
        decreases rows@.len() - j,
    {
        assert(rs.take(j + 1).drop_last() == rs.take(j as int));
        ncols = max_usize(ncols, rows[j].len());
        j = j + 1;
    }
    assert(rs.take(rows@.len() as int) == rs);
    let mut widths: Vec<usize> = Vec::new();
    let mut c: usize = 0;
    while c < ncols
        invariant
            c <= ncols,
            widths@.len() == c,
            forall|k: int| 0 <= k < c ==> widths@[k] == 0,
        decreases ncols - c,
    {
        widths.push(0);
        c = c + 1;
    }
    j = 0;
    while j < rows.len()
        invariant
            rs == rows@.map_values(|r: Vec<Vec<char>>| r@.map_values(|v: Vec<char>| v@)),
            forall|j: int, k: int|
                0 <= j < rows@.len() && 0 <= k < rows@[j]@.len() ==> #[trigger] rows@[j]@[k]@.len()
                    <= usize::MAX / 4,
            j <= rows@.len(),
            ncols == num_cols(rs),
            widths@.len() == ncols,
            forall|k: int| 0 <= k < ncols ==> #[trigger] widths@[k] == col_width(rs.take(j as int), k),
        decreases rows@.len() - j,
    {
        let row = &rows[j];
        proof {
            lemma_num_cols_ge(rs, j as int);
        }
        let mut i: usize = 0;
        while i < row.len()
            invariant
                rs == rows@.map_values(|r: Vec<Vec<char>>| r@.map_values(|v: Vec<char>| v@)),
                j < rows@.len(),
                row == rows@[j as int],
                forall|j: int, k: int|
                    0 <= j < rows@.len() && 0 <= k < rows@[j]@.len() ==> #[trigger] rows@[j]@[k]@.len()
                        <= usize::MAX / 4,
                row@.len() <= ncols,
                i <= row@.len(),
                widths@.len() == ncols,
                forall|k: int|
                    0 <= k < ncols ==> #[trigger] widths@[k] == (if k < i {
                        col_width(rs.take(j + 1), k)
                    } else {
                        col_width(rs.take(j as int), k)
                    }),
            decreases row@.len() - i,
        {
            let cell = &row[i];
            assert(cell@.len() <= usize::MAX / 4) by {
                assert(rows@[j as int]@[i as int]@.len() <= usize::MAX / 4);
            }
            let m: usize = if is_separator_cell(cell) {
                3
            } else {
                utf8_length(cell)
            };
            let nw = max_usize(widths[i], m);
            widths.set(i, nw);
            proof {
                assert(rs.take(j + 1).drop_last() == rs.take(j as int));
                assert(rs.take(j + 1).last() == rs[j as int]);
                assert(rs[j as int][i as int] == cell@);
            }
            i = i + 1;
        }
        proof {
            assert forall|k: int| 0 <= k < ncols implies #[trigger] widths@[k] == col_width(
                rs.take(j + 1),
                k,
            ) by {
                if k >= row@.len() {
                    assert(rs.take(j + 1).drop_last() == rs.take(j as int));
                    assert(rs.take(j + 1).last() == rs[j as int]);
                }
            }
        }
        j = j + 1;
    }
    assert(rs.take(rows@.len() as int) == rs);
    assert(widths@.map_values(|w: usize| w as nat) =~= widths_of(rs));
    widths
}

proof fn lemma_num_cols_ge(rs: Seq<Seq<Seq<char>>>, j: int)
    requires
        0 <= j < rs.len(),
    ensures
        rs[j].len() <= num_cols(rs),
    decreases rs.len(),
{
    if j < rs.len() - 1 {
        lemma_num_cols_ge(rs.drop_last(), j);
    }
}

proof fn lemma_col_width_ge(rs: Seq<Seq<Seq<char>>>, j: int, k: int)
    requires
        0 <= j < rs.len(),
        0 <= k < rs[j].len(),
    ensures
        min_width(rs[j][k]) <= col_width(rs, k),
    decreases rs.len(),
{
    if j < rs.len() - 1 {
        lemma_col_width_ge(rs.drop_last(), j, k);
    }
}

/// Aligns a block of contiguous table rows.
pub fn align_table(lines: &Vec<Vec<char>>) -> (r: Vec<Vec<char>>)
    requires
        forall|k: int| 0 <= k < lines@.len() ==> #[trigger] lines@[k]@.len() <= usize::MAX / 4,
    ensures
        r@.map_values(|v: Vec<char>| v@) == align_block(lines@.map_values(|v: Vec<char>| v@)),
{
    let ghost block = lines@.map_values(|v: Vec<char>| v@);
    let mut rows: Vec<Vec<Vec<char>>> = Vec::new();
    let mut j: usize = 0;
    while j < lines.len()
        invariant
            block == lines@.map_values(|v: Vec<char>| v@),
            forall|k: int| 0 <= k < lines@.len() ==> #[trigger] lines@[k]@.len() <= usize::MAX / 4,
            j <= lines@.len(),
            rows@.len() == j,
            forall|a: int|
                0 <= a < j ==> (#[trigger] rows@[a])@.map_values(|v: Vec<char>| v@) == cells(
                    block[a],
                ),
            forall|a: int, k: int|
                0 <= a < j && 0 <= k < rows@[a]@.len() ==> #[trigger] rows@[a]@[k]@.len()
                    <= usize::MAX / 4,
        decreases lines@.len() - j,
    {
        let cs = parse_cells(&lines[j]);
        proof {
            lemma_cells_lens(block[j as int]);
            assert forall|k: int| 0 <= k < cs@.len() implies #[trigger] cs@[k]@.len()
                <= usize::MAX / 4 by {
                assert(cs@.map_values(|v: Vec<char>| v@)[k] == cs@[k]@);
            }
        }
        rows.push(cs);
        j = j + 1;
    }
    let ghost rs = rows@.map_values(|r: Vec<Vec<char>>| r@.map_values(|v: Vec<char>| v@));
    assert(rs =~= block.map_values(|l: Seq<char>| cells(l)));
    let widths = table_widths(&rows);
    let ghost ws = widths@.map_values(|w: usize| w as nat);
    let mut out: Vec<Vec<char>> = Vec::new();
    j = 0;
    while j < rows.len()
        invariant
            rs == rows@.map_values(|r: Vec<Vec<char>>| r@.map_values(|v: Vec<char>| v@)),
            rs == block.map_values(|l: Seq<char>| cells(l)),
            ws == widths@.map_values(|w: usize| w as nat),
            ws == widths_of(rs),
            j <= rows@.len(),
            out@.map_values(|v: Vec<char>| v@) == rs.take(j as int).map_values(
                |r: Seq<Seq<char>>| render_row(r, widths_of(rs)),
            ),
        decreases rows@.len() - j,
    {
        let row = &rows[j];
        proof {
            assert(rs[j as int] == row@.map_values(|v: Vec<char>| v@));
            assert forall|i: int|
                0 <= i < widths@.len() && 0 <= i < row@.len() && #[trigger] is_sep(
                    row@[i]@,
                ) implies widths@[i] >= 3 by {
                assert(rs[j as int][i] == row@[i]@);
                lemma_col_width_ge(rs, j as int, i);
                assert(ws.len() == widths@.len());
                assert(widths_of(rs)[i] == col_width(rs, i));
                assert(ws[i] == widths@[i] as nat);
            }
            assert forall|i: int| 0 <= i < row@.len() implies trim(#[trigger] row@[i]@)
                == row@[i]@ by {
                assert(rs[j as int][i] == row@[i]@);
                let line = block[j as int];
                lemma_cells_clean(line);
                assert(clean_cell(cells(line)[i]));
            }
        }
        let rendered = render_table_row(row, &widths);
        let ghost old_out = out@.map_values(|v: Vec<char>| v@);
        out.push(rendered);
        proof {
            assert(out@.map_values(|v: Vec<char>| v@) =~= old_out.push(rendered@));
            assert(rs.take(j + 1).map_values(|r: Seq<Seq<char>>| render_row(r, widths_of(rs)))
                =~= rs.take(j as int).map_values(
                |r: Seq<Seq<char>>| render_row(r, widths_of(rs)),
            ).push(render_row(rs[j as int], widths_of(rs))));
        }
        j = j + 1;
    }
    assert(rs.take(rows@.len() as int) == rs);
    out
}

proof fn lemma_table_run(ls: Seq<Seq<char>>, k: int)
    requires
        0 <= k <= ls.len(),
        forall|a: int| 0 <= a < k ==> is_row(#[trigger] ls[a]),
        k == ls.len() || !is_row(ls[k]),
    ensures
        table_run(ls) == k,
    decreases k,
{
    if k > 0 {
        lemma_table_run(ls.drop_first(), k - 1);
    }
}

proof fn lemma_table_run_rows(ls: Seq<Seq<char>>)
    ensures
        table_run(ls) <= ls.len(),
        forall|a: int| 0 <= a < table_run(ls) ==> is_row(#[trigger] ls[a]),
    decreases ls.len(),
{
    if ls.len() > 0 && is_row(ls[0]) {
        let rest = ls.drop_first();
        lemma_table_run_rows(rest);
        assert forall|a: int| 0 <= a < table_run(ls) implies is_row(#[trigger] ls[a]) by {
            if a > 0 {
                assert(ls[a] == rest[a - 1]);
            }
        }
    }
}

/// Aligning keeps the lines: the output has one line for each input line,
/// and every line that is not a table row comes out unchanged, in its place.
pub proof fn lemma_lines_kept(ls: Seq<Seq<char>>)
    ensures
        process_lines(ls).len() == ls.len(),
        forall|i: int| 0 <= i < ls.len() && !is_row(ls[i]) ==> #[trigger] process_lines(ls)[i] == ls[i],
    decreases ls.len(),
{
    if ls.len() > 0 {
        if is_row(ls[0]) {
            lemma_table_run_rows(ls);
            let k = table_run(ls) as int;
            assert(k >= 1) by {
                assert(table_run(ls) == 1 + table_run(ls.drop_first()));
            }
            let rest = ls.skip(k);
            lemma_lines_kept(rest);
            let head = align_block(ls.take(k));
            assert(head.len() == k);
            assert(process_lines(ls) == head + process_lines(rest));
            assert forall|i: int| 0 <= i < ls.len() && !is_row(ls[i]) implies #[trigger] process_lines(
                ls,
            )[i] == ls[i] by {
                assert(i >= k);
                assert(ls[i] == rest[i - k]);
            }
        } else {
            let rest = ls.drop_first();
            lemma_lines_kept(rest);
            assert forall|i: int| 0 <= i < ls.len() && !is_row(ls[i]) implies #[trigger] process_lines(
                ls,
            )[i] == ls[i] by {
                if i > 0 {
                    assert(ls[i] == rest[i - 1]);
                }
            }
        }
    }
}

/// Aligns every table in `input`, leaving other lines as they are.
pub fn process(input: &str) -> (out: String)
    requires
        input@.len() <= usize::MAX / 4,
    ensures
        out@ == aligned_text(input@),
{
    let chars = chars_of(input);
    let lines = lines_chars(&chars);
    let ghost ls = lines@.map_values(|v: Vec<char>| v@);
    proof {
        lemma_lines_lens(chars@);
    }
    let mut result: Vec<Vec<char>> = Vec::new();
    let mut i: usize = 0;
    proof {
        assert(ls.skip(0) == ls);
    }
    while i < lines.len()
        invariant
            ls == lines@.map_values(|v: Vec<char>| v@),
            ls == lines_of(input@),
            forall|k: int| 0 <= k < ls.len() ==> #[trigger] ls[k].len() <= usize::MAX / 4,
            i <= lines@.len(),
            process_lines(ls) == result@.map_values(|v: Vec<char>| v@) + process_lines(
                ls.skip(i as int),
            ),
        decreases lines@.len() - i,
    {
        let ghost rest = ls.skip(i as int);
        if is_table_row(&lines[i]) {
            let start = i;
            while i < lines.len() && is_table_row(&lines[i])
                invariant
                    ls == lines@.map_values(|v: Vec<char>| v@),
                    start <= i <= lines@.len(),
                    forall|a: int| start <= a < i ==> is_row(#[trigger] ls[a]),
                decreases lines@.len() - i,
            {
                i = i + 1;
            }
            let mut block: Vec<Vec<char>> = Vec::new();
            let mut k: usize = start;
            while k < i
                invariant
                    ls == lines@.map_values(|v: Vec<char>| v@),
                    start <= k <= i <= lines@.len(),
                    block@.map_values(|v: Vec<char>| v@) == ls.subrange(start as int, k as int),
                    forall|k: int| 0 <= k < ls.len() ==> #[trigger] ls[k].len() <= usize::MAX / 4,
                decreases i - k,
            {
                let line = &lines[k];
                let copy = slice_range(line, 0, line.len());
                let ghost old_b = block@.map_values(|v: Vec<char>| v@);
                block.push(copy);
                proof {
                    assert(line@.subrange(0, line@.len() as int) == line@);
                    assert(block@.map_values(|v: Vec<char>| v@) =~= old_b.push(ls[k as int]));
                    assert(ls.subrange(start as int, k + 1) =~= ls.subrange(
                        start as int,
                        k as int,
                    ).push(ls[k as int]));
                }
                k = k + 1;
            }
            proof {
                assert forall|b: int| 0 <= b < block@.len() implies #[trigger] block@[b]@.len()
                    <= usize::MAX / 4 by {
                    assert(block@.map_values(|v: Vec<char>| v@)[b] == block@[b]@);
                    assert(ls.subrange(start as int, i as int)[b] == ls[start + b]);
                }
            }
            let aligned = align_table(&block);
            let ghost old_res = result@.map_values(|v: Vec<char>| v@);
            let mut a: usize = 0;
            while a < aligned.len()
                invariant
                    a <= aligned@.len(),
                    result@.map_values(|v: Vec<char>| v@) == old_res + aligned@.map_values(
                        |v: Vec<char>| v@,
                    ).take(a as int),
                decreases aligned@.len() - a,
            {
                let line = &aligned[a];
                let copy = slice_range(line, 0, line.len());
                let ghost before = result@.map_values(|v: Vec<char>| v@);
                result.push(copy);
                proof {
                    assert(line@.subrange(0, line@.len() as int) == line@);
                    assert(result@.map_values(|v: Vec<char>| v@) =~= before.push(line@));
                    assert(aligned@.map_values(|v: Vec<char>| v@).take(a + 1) =~= aligned@.map_values(
                        |v: Vec<char>| v@,
                    ).take(a as int).push(line@));
                }
                a = a + 1;
            }
            proof {
                let n = (i - start) as int;
                assert(aligned@.map_values(|v: Vec<char>| v@).take(aligned@.len() as int)
                    == aligned@.map_values(|v: Vec<char>| v@));
                assert forall|b: int| 0 <= b < n implies is_row(#[trigger] rest[b]) by {
                    assert(rest[b] == ls[start + b]);
                }
                if i < lines@.len() {
                    assert(rest[n] == ls[i as int]);
                }
                lemma_table_run(rest, n);
                assert(rest.take(n) =~= ls.subrange(start as int, i as int));
                assert(rest.skip(n) =~= ls.skip(i as int));
                assert(result@.map_values(|v: Vec<char>| v@) =~= old_res + align_block(rest.take(n)));
            }
        } else {
            let line = &lines[i];
            let copy = slice_range(line, 0, line.len());
            let ghost before = result@.map_values(|v: Vec<char>| v@);
            result.push(copy);
            proof {
                assert(line@.subrange(0, line@.len() as int) == line@);
                assert(result@.map_values(|v: Vec<char>| v@) =~= before.push(ls[i as int]));
                assert(rest[0] == ls[i as int]);
                assert(rest.drop_first() =~= ls.skip(i + 1));
            }
            i = i + 1;
        }
    }
    proof {
        assert(ls.skip(i as int) =~= Seq::<Seq<char>>::empty());
        assert(result@.map_values(|v: Vec<char>| v@) =~= process_lines(ls));
    }
    let nl: [char; 1] = ['\n'];
    let mut joined = join_chars(&result, &nl);
    assert(nl@ =~= seq!['\n']);
    let n = chars.len();
    if n > 0 && chars[n - 1] == '\n' {
        joined.push('\n');
    }
    proof {
        if n > 0 && chars@.last() == '\n' {
            assert(joined@ =~= join(process_lines(ls), seq!['\n']) + seq!['\n']);
        } else {
            assert(joined@ =~= join(process_lines(ls), seq!['\n']) + Seq::<char>::empty());
        }
    }
    string_of(&joined)
}

// ---- aligning twice ----
/// Whitespace around text whose ends are not whitespace goes.
proof fn lemma_trim_around(a: Seq<char>, c: Seq<char>, b: Seq<char>)
    requires
        forall|k: int| 0 <= k < a.len() ==> is_ws(#[trigger] a[k]),
        forall|k: int| 0 <= k < b.len() ==> is_ws(#[trigger] b[k]),
        c.len() > 0 ==> !is_ws(c[0]) && !is_ws(c.last()),
    ensures
        trim(a + c + b) == c,
{
    let s = a + c + b;
    lemma_trim_start_skip(s, a.len() as int);
    assert(s.skip(a.len() as int) =~= c + b);
    if c.len() > 0 {
        assert((c + b)[0] == c[0]);
        assert(trim_start(c + b) == c + b);
        lemma_trim_end_take(c + b, c.len() as int);
        assert((c + b).take(c.len() as int) =~= c);
        assert(trim_end(c) == c);
    } else {
        assert(c + b =~= b);
        lemma_trim_start_skip(b, b.len() as int);
        assert(b.skip(b.len() as int) =~= Seq::<char>::empty());
    }
}

/// The ends of a trimmed text are not whitespace.
proof fn lemma_trimmed_ends(x: Seq<char>)
    ensures
        trim(x).len() > 0 ==> !is_ws(trim(x)[0]) && !is_ws(trim(x).last()),
{
    lemma_trim_start_idem(x);
    lemma_trim_end_keeps_start(trim_start(x));
}

proof fn lemma_trim_start_free(x: Seq<char>, c: char)
    requires
        !x.contains(c),
    ensures
        !trim_start(x).contains(c),
    decreases x.len(),
{
    if x.len() > 0 && is_ws(x[0]) {
        assert(!x.drop_first().contains(c)) by {
            if x.drop_first().contains(c) {
                let i = choose|i: int| 0 <= i < x.drop_first().len() && x.drop_first()[i] == c;
                assert(x[i + 1] == c);
            }
        }
        lemma_trim_start_free(x.drop_first(), c);
    }
}

proof fn lemma_trim_end_free(x: Seq<char>, c: char)
    requires
        !x.contains(c),
    ensures
        !trim_end(x).contains(c),
    decreases x.len(),
{
    if x.len() > 0 && is_ws(x.last()) {
        assert(!x.drop_last().contains(c)) by {
            if x.drop_last().contains(c) {
                let i = choose|i: int| 0 <= i < x.drop_last().len() && x.drop_last()[i] == c;
                assert(x[i] == c);
            }
        }
        lemma_trim_end_free(x.drop_last(), c);
    }
}

/// A cell as rows hold them: trimmed, and without a pipe.
pub open spec fn clean_cell(c: Seq<char>) -> bool {
    trim(c) == c && !c.contains('|')
}

/// The cells of a row are clean.
proof fn lemma_cells_clean(line: Seq<char>)
    ensures
        cells(line).len() >= 1,
        forall|j: int| 0 <= j < cells(line).len() ==> clean_cell(#[trigger] cells(line)[j]),
{
    let ps = split_on(strip_pipes(trim(line)), '|');
    lemma_split_on_nonempty(strip_pipes(trim(line)), '|');
    lemma_split_on_pieces(strip_pipes(trim(line)), '|');
    assert forall|j: int| 0 <= j < cells(line).len() implies clean_cell(#[trigger] cells(line)[j]) by {
        assert(cells(line)[j] == trim(ps[j]));
        lemma_trim_idem(ps[j]);
        assert(!ps[j].contains('|'));
        lemma_trim_start_free(ps[j], '|');
        lemma_trim_end_free(trim_start(ps[j]), '|');
    }
}

/// What a cell becomes when a rendered row is read again: a separator is
/// rebuilt at the column's width, any other cell stays.
pub open spec fn reread_cell(c: Seq<char>, w: nat) -> Seq<char> {
    if is_sep(c) {
        separator(c, w)
    } else {
        c
    }
}

/// A separator rebuilt at a width of three or more: its length is the width,
/// it holds only `-` and `:`, and it keeps the cell's colons.
proof fn lemma_separator_shape(c: Seq<char>, w: nat)
    requires
        w >= 3,
    ensures
        separator(c, w).len() == w,
        forall|k: int| 0 <= k < w ==> #[trigger] separator(c, w)[k] == '-' || separator(c, w)[k] == ':',
        (separator(c, w)[0] == ':') == (c.len() > 0 && c[0] == ':'),
        (separator(c, w).last() == ':') == (c.len() > 0 && c.last() == ':'),
        forall|k: int| 0 < k < w - 1 ==> #[trigger] separator(c, w)[k] == '-',
{
    let left = c.len() > 0 && c[0] == ':';
    let right = c.len() > 0 && c.last() == ':';
    let l: Seq<char> = if left {
        seq![':']
    } else {
        Seq::empty()
    };
    let r: Seq<char> = if right {
        seq![':']
    } else {
        Seq::empty()
    };
    let d = (w - (if left {
        1int
    } else {
        0int
    }) - (if right {
        1int
    } else {
        0int
    })) as nat;
    let s = separator(c, w);
    assert(s == l + repeat('-', d) + r);
    assert(d >= 1);
    assert forall|k: int| 0 <= k < w implies #[trigger] s[k] == '-' || s[k] == ':' by {
        if k < l.len() {
            assert(s[k] == l[k]);
        } else if k < l.len() + d {
            assert(s[k] == repeat('-', d)[k - l.len()]);
        } else {
            assert(s[k] == r[k - l.len() - d]);
        }
    }
    assert forall|k: int| 0 < k < w - 1 implies #[trigger] s[k] == '-' by {
        if k < l.len() {
            assert(k == 0);
        } else if k < l.len() + d {
            assert(s[k] == repeat('-', d)[k - l.len()]);
        } else {
            assert(k - l.len() - d < r.len());
            assert(k == w - 1);
        }
    }
    if !left {
        assert(s[0] == repeat('-', d)[0]);
    }
    if !right {
        assert(s.last() == repeat('-', d)[d - 1]);
    }
}

/// A rebuilt separator is a separator, with no whitespace at its ends.
proof fn lemma_separator_is_sep(c: Seq<char>, w: nat)
    requires
        w >= 3,
    ensures
        is_sep(separator(c, w)),
        trim(separator(c, w)) == separator(c, w),
        !separator(c, w).contains('|'),
{
    lemma_separator_shape(c, w);
    let s = separator(c, w);
    assert(!is_ws(s[0]));
    assert(!is_ws(s.last()));
    lemma_trim_around(Seq::empty(), s, Seq::empty());
    assert(Seq::<char>::empty() + s + Seq::<char>::empty() =~= s);
    assert(!s.contains('|')) by {
        if s.contains('|') {
            let k = choose|k: int| 0 <= k < s.len() && s[k] == '|';
            assert(s[k] == '-' || s[k] == ':');
        }
    }
}

/// A rendered cell has no pipe, and read back between its spaces it is the
/// reread cell.
proof fn lemma_render_cell_reread(c: Seq<char>, w: nat)
    requires
        clean_cell(c),
        is_sep(c) ==> w >= 3,
    ensures
        !render_cell(c, w).contains('|'),
        trim(seq![' '] + render_cell(c, w) + seq![' ']) == reread_cell(c, w),
{
    let sp = seq![' '];
    assert(is_ws(' '));
    if is_sep(c) {
        lemma_separator_is_sep(c, w);
        lemma_separator_shape(c, w);
        let s = separator(c, w);
        assert(!is_ws(s[0]));
        assert(!is_ws(s.last()));
        lemma_trim_around(sp, s, sp);
    } else {
        lemma_trimmed_ends(c);
        let padding: Seq<char> = if c.len() < w {
            repeat(' ', (w - c.len()) as nat)
        } else {
            Seq::empty()
        };
        assert(render_cell(c, w) =~= c + padding);
        assert(sp + render_cell(c, w) + sp =~= sp + c + (padding + sp));
        assert forall|k: int| 0 <= k < (padding + sp).len() implies is_ws(#[trigger] (padding + sp)[k]) by {
            if k < padding.len() {
                assert((padding + sp)[k] == padding[k]);
            } else {
                assert((padding + sp)[k] == sp[k - padding.len()]);
            }
        }
        lemma_trim_around(sp, c, padding + sp);
        assert(!render_cell(c, w).contains('|')) by {
            if render_cell(c, w).contains('|') {
                let k = choose|k: int| 0 <= k < render_cell(c, w).len() && render_cell(c, w)[k] == '|';
                if k < c.len() {
                    assert(c[k] == '|');
                } else {
                    assert(padding[k - c.len()] == ' ');
                }
            }
        }
    }
}

/// Pieces joined by ` | ` between single spaces are the pieces, each between
/// spaces, joined by `|`.
proof fn lemma_join_spaced(rc: Seq<Seq<char>>)
    requires
        rc.len() >= 1,
    ensures
        seq![' '] + join(rc, seq![' ', '|', ' ']) + seq![' '] == join(
            rc.map_values(|c: Seq<char>| seq![' '] + c + seq![' ']),
            seq!['|'],
        ),
    decreases rc.len(),
{
    let q = rc.map_values(|c: Seq<char>| seq![' '] + c + seq![' ']);
    if rc.len() == 1 {
        assert(seq![' '] + join(rc, seq![' ', '|', ' ']) + seq![' '] =~= q[0]);
    } else {
        let init = rc.drop_last();
        lemma_join_spaced(init);
        assert(q.drop_last() =~= init.map_values(|c: Seq<char>| seq![' '] + c + seq![' ']));
        assert(seq![' '] + join(rc, seq![' ', '|', ' ']) + seq![' '] =~= (seq![' '] + join(
            init,
            seq![' ', '|', ' '],
        ) + seq![' ']) + seq!['|'] + q.last());
    }
}

/// The cells of a row rendered at `ws`.
pub open spec fn rendered_cells(row: Seq<Seq<char>>, ws: Seq<nat>) -> Seq<Seq<char>> {
    Seq::new(ws.len(), |i: int| render_cell(cell_at(row, i), ws[i]))
}

/// The cells a row rendered at `ws` has when read again.
pub open spec fn reread_row(row: Seq<Seq<char>>, ws: Seq<nat>) -> Seq<Seq<char>> {
    Seq::new(ws.len(), |i: int| reread_cell(cell_at(row, i), ws[i]))
}

/// A row of clean cells whose separators have columns three wide reads back
/// as its reread cells.
proof fn lemma_row_reread(row: Seq<Seq<char>>, ws: Seq<nat>)
    requires
        ws.len() >= 1,
        forall|i: int| 0 <= i < row.len() ==> clean_cell(#[trigger] row[i]),
        forall|i: int| 0 <= i < row.len() && i < ws.len() && is_sep(#[trigger] row[i]) ==> ws[i] >= 3,
    ensures
        is_row(render_row(row, ws)),
        cells(render_row(row, ws)) == reread_row(row, ws),
{
    let rc = rendered_cells(row, ws);
    let line = render_row(row, ws);
    let mid = join(rc, seq![' ', '|', ' ']);
    assert(line == seq!['|', ' '] + mid + seq![' ', '|']);
    assert(line[0] == '|');
    assert(line.last() == '|');
    assert(!is_ws('|'));
    lemma_trim_around(Seq::empty(), line, Seq::empty());
    assert(Seq::<char>::empty() + line + Seq::<char>::empty() =~= line);
    assert(trim(line) == line);
    assert(trim_start(line) == line) by {
        assert(!is_ws(line[0]));
    }
    let inner = seq![' '] + mid + seq![' '];
    assert(line.drop_first() =~= seq![' '] + mid + seq![' ', '|']);
    assert(line.drop_first().drop_last() =~= inner);
    assert(strip_pipes(line) == inner);
    let q = rc.map_values(|c: Seq<char>| seq![' '] + c + seq![' ']);
    lemma_join_spaced(rc);
    assert forall|i: int| 0 <= i < q.len() implies !(#[trigger] q[i]).contains('|') by {
        let c = cell_at(row, i);
        if 0 <= i < row.len() {
            assert(clean_cell(row[i]));
        } else {
            lemma_trim_around(Seq::empty(), Seq::empty(), Seq::empty());
            assert(Seq::<char>::empty() + Seq::<char>::empty() + Seq::<char>::empty() =~= Seq::<
                char,
            >::empty());
        }
        assert(clean_cell(c));
        lemma_render_cell_reread(c, ws[i]);
        assert(rc[i] == render_cell(c, ws[i]));
        assert(q[i] == seq![' '] + rc[i] + seq![' ']);
        if q[i].contains('|') {
            let k = choose|k: int| 0 <= k < q[i].len() && q[i][k] == '|';
            assert(k > 0 && k < q[i].len() - 1);
            assert(rc[i][k - 1] == '|');
        }
    }
    lemma_split_on_join(q, '|');
    assert(split_on(strip_pipes(trim(line)), '|') == q);
    assert forall|i: int| 0 <= i < ws.len() implies #[trigger] cells(line)[i] == reread_row(row, ws)[i] by {
        let c = cell_at(row, i);
        if 0 <= i < row.len() {
            assert(clean_cell(row[i]));
        } else {
            lemma_trim_around(Seq::empty(), Seq::empty(), Seq::empty());
            assert(Seq::<char>::empty() + Seq::<char>::empty() + Seq::<char>::empty() =~= Seq::<
                char,
            >::empty());
        }
        lemma_render_cell_reread(c, ws[i]);
        assert(cells(line)[i] == trim(q[i]));
    }
    assert(cells(line) =~= reread_row(row, ws));
}

proof fn lemma_num_cols_uniform(rs: Seq<Seq<Seq<char>>>, n: nat)
    requires
        rs.len() >= 1,
        forall|k: int| 0 <= k < rs.len() ==> (#[trigger] rs[k]).len() == n,
    ensures
        num_cols(rs) == n,
    decreases rs.len(),
{
    if rs.len() > 1 {
        let init = rs.drop_last();
        assert forall|k: int| 0 <= k < init.len() implies (#[trigger] init[k]).len() == n by {
            assert(init[k] == rs[k]);
        }
        lemma_num_cols_uniform(init, n);
    } else {
        assert(num_cols(rs.drop_last()) == 0);
    }
    assert(rs.last() == rs[rs.len() - 1]);
}

/// The rows of a table read again after rendering at `ws`.
pub open spec fn reread_rows(rs: Seq<Seq<Seq<char>>>, ws: Seq<nat>) -> Seq<Seq<Seq<char>>> {
    rs.map_values(|r: Seq<Seq<char>>| reread_row(r, ws))
}

/// Rows whose cells are clean, and whose separators stand in columns at
/// least three wide under `ws`.
pub open spec fn rows_fit(rs: Seq<Seq<Seq<char>>>, ws: Seq<nat>) -> bool {
    &&& forall|k: int, i: int| 0 <= k < rs.len() && 0 <= i < rs[k].len() ==> clean_cell(#[trigger] rs[k][i])
    &&& forall|k: int, i: int|
        0 <= k < rs.len() && 0 <= i < rs[k].len() && i < ws.len() && is_sep(#[trigger] rs[k][i]) ==> ws[i]
            >= 3
}

proof fn lemma_reread_min_width(c: Seq<char>, w: nat)
    requires
        is_sep(c) ==> w >= 3,
    ensures
        min_width(reread_cell(c, w)) == min_width(c),
{
    if is_sep(c) {
        lemma_separator_is_sep(c, w);
    }
}

/// Reading rendered rows again leaves each column as wide as it was.
proof fn lemma_col_width_reread(rs: Seq<Seq<Seq<char>>>, ws: Seq<nat>, j: int)
    requires
        rows_fit(rs, ws),
        0 <= j < ws.len(),
    ensures
        col_width(reread_rows(rs, ws), j) == col_width(rs, j),
    decreases rs.len(),
{
    if rs.len() > 0 {
        let init = rs.drop_last();
        assert(reread_rows(rs, ws).drop_last() =~= reread_rows(init, ws));
        assert(rows_fit(init, ws)) by {
            assert forall|k: int, i: int| 0 <= k < init.len() && 0 <= i < init[k].len() implies clean_cell(
                #[trigger] init[k][i],
            ) by {
                assert(init[k] == rs[k]);
            }
            assert forall|k: int, i: int|
                0 <= k < init.len() && 0 <= i < init[k].len() && i < ws.len() && is_sep(
                    #[trigger] init[k][i],
                ) implies ws[i] >= 3 by {
                assert(init[k] == rs[k]);
            }
        }
        lemma_col_width_reread(init, ws, j);
        let r = rs.last();
        let c = cell_at(r, j);
        assert(reread_rows(rs, ws).last() == reread_row(r, ws));
        if j < r.len() {
            assert(rs[rs.len() - 1][j] == r[j]);
            lemma_reread_min_width(c, ws[j]);
        } else {
            lemma_reread_min_width(c, ws[j]);
        }
    }
}

/// Reading rendered rows again gives the same column widths.
proof fn lemma_widths_reread(rs: Seq<Seq<Seq<char>>>)
    requires
        rs.len() >= 1,
        rows_fit(rs, widths_of(rs)),
        num_cols(rs) >= 1,
    ensures
        widths_of(reread_rows(rs, widths_of(rs))) == widths_of(rs),
{
    let ws = widths_of(rs);
    let rr = reread_rows(rs, ws);
    lemma_num_cols_uniform(rr, ws.len());
    assert forall|j: int| 0 <= j < ws.len() implies #[trigger] widths_of(rr)[j] == ws[j] by {
        lemma_col_width_reread(rs, ws, j);
    }
    assert(widths_of(rr) =~= ws);
}

/// Rendering a reread cell gives what rendering the cell gave.
proof fn lemma_render_reread(c: Seq<char>, w: nat)
    requires
        is_sep(c) ==> w >= 3,
    ensures
        render_cell(reread_cell(c, w), w) == render_cell(c, w),
{
    if is_sep(c) {
        lemma_separator_is_sep(c, w);
        lemma_separator_shape(c, w);
        let s = separator(c, w);
        assert((s.len() > 0 && s[0] == ':') == (c.len() > 0 && c[0] == ':'));
        assert((s.len() > 0 && s.last() == ':') == (c.len() > 0 && c.last() == ':'));
        assert(separator(s, w) == separator(c, w));
    }
}

/// Aligning an aligned block changes nothing.
proof fn lemma_align_block_idem(b: Seq<Seq<char>>)
    requires
        b.len() >= 1,
    ensures
        align_block(align_block(b)) == align_block(b),
        align_block(b).len() == b.len(),
        forall|k: int| 0 <= k < b.len() ==> is_row(#[trigger] align_block(b)[k]),
{
    let rs = b.map_values(|l: Seq<char>| cells(l));
    let ws = widths_of(rs);
    let a = align_block(b);
    assert(a == rs.map_values(|r: Seq<Seq<char>>| render_row(r, ws)));
    assert forall|k: int, i: int| 0 <= k < rs.len() && 0 <= i < rs[k].len() implies clean_cell(
        #[trigger] rs[k][i],
    ) by {
        lemma_cells_clean(b[k]);
    }
    assert forall|k: int, i: int|
        0 <= k < rs.len() && 0 <= i < rs[k].len() && i < ws.len() && is_sep(#[trigger] rs[k][i]) implies ws[i]
            >= 3 by {
        lemma_col_width_ge(rs, k, i);
    }
    assert(rows_fit(rs, ws));
    lemma_cells_clean(b[0]);
    lemma_num_cols_ge(rs, 0);
    assert(num_cols(rs) >= 1);
    lemma_widths_reread(rs);
    let rr = reread_rows(rs, ws);
    assert forall|k: int| 0 <= k < b.len() implies #[trigger] cells(a[k]) == rr[k] && is_row(a[k]) by {
        assert forall|i: int| 0 <= i < rs[k].len() implies clean_cell(#[trigger] rs[k][i]) by {}
        assert forall|i: int| 0 <= i < rs[k].len() && i < ws.len() && is_sep(#[trigger] rs[k][i]) implies ws[i]
            >= 3 by {}
        lemma_row_reread(rs[k], ws);
    }
    let rs2 = a.map_values(|l: Seq<char>| cells(l));
    assert(rs2 =~= rr);
    assert forall|k: int| 0 <= k < b.len() implies #[trigger] render_row(rr[k], ws) == a[k] by {
        let r = rs[k];
        assert forall|i: int| 0 <= i < ws.len() implies #[trigger] rendered_cells(rr[k], ws)[i]
            == rendered_cells(r, ws)[i] by {
            let c = cell_at(r, i);
            assert(cell_at(rr[k], i) == reread_cell(c, ws[i]));
            if 0 <= i < r.len() && is_sep(r[i]) {
                assert(ws[i] >= 3);
            }
            lemma_render_reread(c, ws[i]);
        }
        assert(rendered_cells(rr[k], ws) =~= rendered_cells(r, ws));
    }
    assert(align_block(a) =~= a);
}

proof fn lemma_table_run_stops(ls: Seq<Seq<char>>)
    ensures
        table_run(ls) < ls.len() ==> !is_row(ls[table_run(ls) as int]),
    decreases ls.len(),
{
    if ls.len() > 0 && is_row(ls[0]) {
        let rest = ls.drop_first();
        lemma_table_run_stops(rest);
        if table_run(ls) < ls.len() {
            assert(ls[table_run(ls) as int] == rest[table_run(rest) as int]);
        }
    }
}

/// Aligning is idempotent: aligning lines already aligned changes nothing.
pub proof fn lemma_align_idempotent(ls: Seq<Seq<char>>)
    ensures
        process_lines(process_lines(ls)) == process_lines(ls),
    decreases ls.len(),
{
    let out = process_lines(ls);
    if ls.len() > 0 {
        if is_row(ls[0]) {
            lemma_table_run_rows(ls);
            lemma_table_run_stops(ls);
            let k = table_run(ls) as int;
            assert(k >= 1) by {
                assert(table_run(ls) == 1 + table_run(ls.drop_first()));
            }
            let rest = ls.skip(k);
            let block = ls.take(k);
            let a = align_block(block);
            lemma_align_block_idem(block);
            lemma_lines_kept(rest);
            lemma_align_idempotent(rest);
            let pr = process_lines(rest);
            assert(out == a + pr);
            assert(a.len() == k);
            if rest.len() > 0 {
                assert(rest[0] == ls[k]);
                assert(!is_row(rest[0]));
                assert(pr[0] == rest[0]);
                assert(out[k] == pr[0]);
            }
            assert forall|i: int| 0 <= i < k implies is_row(#[trigger] out[i]) by {
                assert(out[i] == a[i]);
            }
            lemma_table_run(out, k);
            assert(is_row(out[0]));
            assert(out.take(k) =~= a);
            assert(out.skip(k) =~= pr);
        } else {
            let rest = ls.drop_first();
            lemma_align_idempotent(rest);
            assert(out == seq![ls[0]] + process_lines(rest));
            assert(out[0] == ls[0]);
            assert(out.drop_first() =~= process_lines(rest));
        }
    }
}

// ---- the law on whole texts ----
proof fn lemma_join_free(ps: Seq<Seq<char>>, sep: Seq<char>, c: char)
    requires
        !sep.contains(c),
        forall|i: int| 0 <= i < ps.len() ==> !(#[trigger] ps[i]).contains(c),
    ensures
        !join(ps, sep).contains(c),
    decreases ps.len(),
{
    if ps.len() > 1 {
        let init = ps.drop_last();
        assert forall|i: int| 0 <= i < init.len() implies !(#[trigger] init[i]).contains(c) by {
            assert(init[i] == ps[i]);
        }
        lemma_join_free(init, sep, c);
        let j = join(init, sep) + sep + ps.last();
        assert(!ps.last().contains(c)) by {
            assert(ps[ps.len() - 1] == ps.last());
        }
        if j.contains(c) {
            let k = choose|k: int| 0 <= k < j.len() && j[k] == c;
            let a = join(init, sep).len() as int;
            if k < a {
                assert(join(init, sep)[k] == c);
            } else if k < a + sep.len() {
                assert(sep[k - a] == c);
            } else {
                assert(ps.last()[k - a - sep.len()] == c);
            }
        }
    } else if ps.len() == 1 {
        assert(!ps[0].contains(c));
    }
}

/// The pieces of a text without `c` are without `c`.
proof fn lemma_split_on_free_pieces(s: Seq<char>, sep: char, c: char)
    requires
        !s.contains(c),
    ensures
        forall|i: int| 0 <= i < split_on(s, sep).len() ==> !(#[trigger] split_on(s, sep)[i]).contains(c),
    decreases s.len(),
{
    if s.len() > 0 {
        let rest = s.drop_first();
        assert(!rest.contains(c)) by {
            if rest.contains(c) {
                let k = choose|k: int| 0 <= k < rest.len() && rest[k] == c;
                assert(s[k + 1] == c);
            }
        }
        lemma_split_on_free_pieces(rest, sep, c);
        lemma_split_on_nonempty(rest, sep);
        let r = split_on(rest, sep);
        if s[0] != sep {
            let p = seq![s[0]] + r[0];
            assert(!p.contains(c)) by {
                if p.contains(c) {
                    let k = choose|k: int| 0 <= k < p.len() && p[k] == c;
                    if k == 0 {
                        assert(s[0] == c);
                    } else {
                        assert(r[0][k - 1] == c);
                    }
                }
            }
            assert forall|i: int| 0 <= i < split_on(s, sep).len() implies !(#[trigger] split_on(s, sep)[i]).contains(
                c,
            ) by {
                if i > 0 {
                    assert(split_on(s, sep)[i] == r[i]);
                }
            }
        } else {
            assert forall|i: int| 0 <= i < split_on(s, sep).len() implies !(#[trigger] split_on(s, sep)[i]).contains(
                c,
            ) by {
                if i > 0 {
                    assert(split_on(s, sep)[i] == r[i - 1]);
                }
            }
        }
    }
}

proof fn lemma_subrange_free(s: Seq<char>, a: int, b: int, c: char)
    requires
        0 <= a <= b <= s.len(),
        !s.contains(c),
    ensures
        !s.subrange(a, b).contains(c),
{
    if s.subrange(a, b).contains(c) {
        let k = choose|k: int| 0 <= k < b - a && s.subrange(a, b)[k] == c;
        assert(s[a + k] == c);
    }
}

/// The cells of a line without `c` are without `c`.
proof fn lemma_cells_free(line: Seq<char>, c: char)
    requires
        !line.contains(c),
    ensures
        forall|j: int| 0 <= j < cells(line).len() ==> !(#[trigger] cells(line)[j]).contains(c),
{
    lemma_trim_start_free(line, c);
    lemma_trim_end_free(trim_start(line), c);
    let t = trim(line);
    let a = if t.len() > 0 && t[0] == '|' {
        t.drop_first()
    } else {
        t
    };
    if t.len() > 0 && t[0] == '|' {
        lemma_subrange_free(t, 1, t.len() as int, c);
        assert(a =~= t.subrange(1, t.len() as int));
    }
    if a.len() > 0 && a.last() == '|' {
        lemma_subrange_free(a, 0, a.len() - 1, c);
        assert(a.drop_last() =~= a.subrange(0, a.len() - 1));
    }
    let ps = split_on(strip_pipes(t), '|');
    lemma_split_on_free_pieces(strip_pipes(t), '|', c);
    assert forall|j: int| 0 <= j < cells(line).len() implies !(#[trigger] cells(line)[j]).contains(c) by {
        assert(cells(line)[j] == trim(ps[j]));
        lemma_trim_start_free(ps[j], c);
        lemma_trim_end_free(trim_start(ps[j]), c);
    }
}

/// A row rendered from cells without `\n` is without `\n`, and ends with `|`.
proof fn lemma_render_row_free(row: Seq<Seq<char>>, ws: Seq<nat>)
    requires
        forall|j: int| 0 <= j < row.len() ==> !(#[trigger] row[j]).contains('\n'),
        forall|j: int| 0 <= j < row.len() && j < ws.len() && is_sep(#[trigger] row[j]) ==> ws[j] >= 3,
    ensures
        !render_row(row, ws).contains('\n'),
        render_row(row, ws).len() > 0 && render_row(row, ws).last() == '|',
{
    let rc = Seq::new(ws.len(), |i: int| render_cell(cell_at(row, i), ws[i]));
    assert forall|i: int| 0 <= i < rc.len() implies !(#[trigger] rc[i]).contains('\n') by {
        let cell = cell_at(row, i);
        if is_sep(cell) {
            assert(0 <= i < row.len()) by {
                if !(0 <= i < row.len()) {
                    assert(cell =~= Seq::<char>::empty());
                }
            }
            lemma_separator_shape(cell, ws[i]);
            if rc[i].contains('\n') {
                let k = choose|k: int| 0 <= k < rc[i].len() && rc[i][k] == '\n';
                assert(separator(cell, ws[i])[k] == '-' || separator(cell, ws[i])[k] == ':');
            }
        } else {
            assert(!cell.contains('\n')) by {
                if 0 <= i < row.len() {
                    assert(cell == row[i]);
                }
            }
            if rc[i].contains('\n') {
                let k = choose|k: int| 0 <= k < rc[i].len() && rc[i][k] == '\n';
                if k < cell.len() {
                    assert(cell[k] == '\n');
                } else {
                    assert(rc[i][k] == ' ');
                }
            }
        }
    }
    lemma_join_free(rc, seq![' ', '|', ' '], '\n');
    let r = seq!['|', ' '] + join(rc, seq![' ', '|', ' ']) + seq![' ', '|'];
    assert(r == render_row(row, ws));
    if r.contains('\n') {
        let k = choose|k: int| 0 <= k < r.len() && r[k] == '\n';
        let m = join(rc, seq![' ', '|', ' ']);
        if 2 <= k < 2 + m.len() {
            assert(m[k - 2] == '\n');
        }
    }
}

/// Every line of an aligned block is a row without `\n` ending in `|`, when
/// the block's lines have no `\n`.
proof fn lemma_align_block_free(block: Seq<Seq<char>>)
    requires
        forall|i: int| 0 <= i < block.len() ==> !(#[trigger] block[i]).contains('\n'),
    ensures
        align_block(block).len() == block.len(),
        forall|i: int| 0 <= i < block.len() ==> !(#[trigger] align_block(block)[i]).contains('\n') && align_block(
            block,
        )[i].len() > 0 && align_block(block)[i].last() == '|',
{
    let rows = block.map_values(|l: Seq<char>| cells(l));
    let ws = widths_of(rows);
    assert forall|i: int| 0 <= i < block.len() implies !(#[trigger] align_block(block)[i]).contains('\n')
        && align_block(block)[i].len() > 0 && align_block(block)[i].last() == '|' by {
        lemma_cells_free(block[i], '\n');
        assert(rows[i] == cells(block[i]));
        assert forall|j: int| 0 <= j < rows[i].len() && j < ws.len() && is_sep(#[trigger] rows[i][j]) implies ws[j]
            >= 3 by {
            lemma_col_width_ge(rows, i, j);
        }
        lemma_render_row_free(rows[i], ws);
        assert(align_block(block)[i] == render_row(rows[i], ws));
    }
}

/// Output lines have no `\n` when input lines have none, and each is its
/// input line or a rendered row, which ends with `|`.
proof fn lemma_process_lines_free(ls: Seq<Seq<char>>)
    requires
        forall|i: int| 0 <= i < ls.len() ==> !(#[trigger] ls[i]).contains('\n'),
    ensures
        process_lines(ls).len() == ls.len(),
        forall|i: int| 0 <= i < ls.len() ==> !(#[trigger] process_lines(ls)[i]).contains('\n') && (
        process_lines(ls)[i] == ls[i] || (process_lines(ls)[i].len() > 0 && process_lines(ls)[i].last()
            == '|')),
    decreases ls.len(),
{
    lemma_lines_kept(ls);
    if ls.len() > 0 {
        let out = process_lines(ls);
        if is_row(ls[0]) {
            lemma_table_run_rows(ls);
            let k = table_run(ls) as int;
            assert(k >= 1) by {
                assert(table_run(ls) == 1 + table_run(ls.drop_first()));
            }
            let rest = ls.skip(k);
            let block = ls.take(k);
            assert forall|i: int| 0 <= i < block.len() implies !(#[trigger] block[i]).contains('\n') by {
                assert(block[i] == ls[i]);
            }
            assert forall|i: int| 0 <= i < rest.len() implies !(#[trigger] rest[i]).contains('\n') by {
                assert(rest[i] == ls[i + k]);
            }
            lemma_align_block_free(block);
            lemma_process_lines_free(rest);
            assert(out == align_block(block) + process_lines(rest));
            assert forall|i: int| 0 <= i < ls.len() implies !(#[trigger] out[i]).contains('\n') && (out[i] == ls[i]
                || (out[i].len() > 0 && out[i].last() == '|')) by {
                if i < k {
                    assert(out[i] == align_block(block)[i]);
                } else {
                    assert(out[i] == process_lines(rest)[i - k]);
                    assert(rest[i - k] == ls[i]);
                }
            }
        } else {
            let rest = ls.drop_first();
            assert forall|i: int| 0 <= i < rest.len() implies !(#[trigger] rest[i]).contains('\n') by {
                assert(rest[i] == ls[i + 1]);
            }
            lemma_process_lines_free(rest);
            assert(out == seq![ls[0]] + process_lines(rest));
            assert forall|i: int| 0 <= i < ls.len() implies !(#[trigger] out[i]).contains('\n') && (out[i] == ls[i]
                || (out[i].len() > 0 && out[i].last() == '|')) by {
                if i > 0 {
                    assert(out[i] == process_lines(rest)[i - 1]);
                    assert(rest[i - 1] == ls[i]);
                }
            }
        }
    }
}

/// A text that does not end with the separator has a last piece that is not
/// empty.
proof fn lemma_split_on_last(s: Seq<char>, sep: char)
    requires
        s.len() > 0,
        s.last() != sep,
    ensures
        split_on(s, sep).len() >= 1,
        split_on(s, sep).last().len() > 0,
    decreases s.len(),
{
    let rest = s.drop_first();
    lemma_split_on_nonempty(rest, sep);
    let r = split_on(rest, sep);
    if s[0] == sep {
        assert(rest.len() > 0);
        assert(rest.last() == s.last());
        lemma_split_on_last(rest, sep);
    } else if rest.len() == 0 {
        assert(r =~= seq![Seq::<char>::empty()]);
    } else {
        assert(rest.last() == s.last());
        lemma_split_on_last(rest, sep);
        if r.len() > 1 {
            assert(split_on(s, sep).last() == r.last());
        }
    }
}

/// The lines of a text have no `\n`, and a text that does not end with `\n`
/// has a last line that is not empty.
proof fn lemma_lines_of_free(x: Seq<char>)
    ensures
        forall|i: int| 0 <= i < lines_of(x).len() ==> !(#[trigger] lines_of(x)[i]).contains('\n'),
        x.len() > 0 && x.last() != '\n' ==> lines_of(x).len() > 0 && lines_of(x).last().len() > 0,
        x.len() == 0 ==> lines_of(x).len() == 0,
{
    let p = split_on(x, '\n');
    lemma_split_on_nonempty(x, '\n');
    lemma_split_on_pieces(x, '\n');
    let k = p.len() - 1;
    assert forall|i: int| 0 <= i < lines_of(x).len() implies !(#[trigger] lines_of(x)[i]).contains('\n') by {
        if i < k {
            assert(lines_of(x)[i] == strip_cr(p[i]));
            assert(!p[i].contains('\n'));
            if p[i].len() > 0 && p[i].last() == '\r' {
                lemma_subrange_free(p[i], 0, p[i].len() - 1, '\n');
                assert(p[i].drop_last() =~= p[i].subrange(0, p[i].len() - 1));
            }
        } else {
            assert(lines_of(x)[i] == p[k]);
        }
    }
    if x.len() > 0 && x.last() != '\n' {
        lemma_split_on_last(x, '\n');
        assert(lines_of(x).last() == p[k]);
    }
    if x.len() == 0 {
        assert(p =~= seq![Seq::<char>::empty()]);
    }
}

/// `s` ends with a carriage return.
pub open spec fn ends_with_cr(s: Seq<char>) -> bool {
    s.len() > 0 && s.last() == '\r'
}

/// Aligning a whole text is idempotent: the aligned text, aligned again, is
/// unchanged.  Reading text drops one carriage return before each newline, so
/// this holds where no aligned line that a newline follows ends in a carriage
/// return.
pub proof fn lemma_aligned_text_idempotent(x: Seq<char>)
    requires
        forall|i: int|
            0 <= i < process_lines(lines_of(x)).len() && (i < process_lines(lines_of(x)).len() - 1 || (x.len()
                > 0 && x.last() == '\n')) ==> !ends_with_cr(#[trigger] process_lines(lines_of(x))[i]),
    ensures
        aligned_text(aligned_text(x)) == aligned_text(x),
{
    let ls = lines_of(x);
    let p = process_lines(ls);
    let t = x.len() > 0 && x.last() == '\n';
    lemma_lines_of_free(x);
    lemma_process_lines_free(ls);
    lemma_align_idempotent(ls);
    let y = aligned_text(x);
    let j = join(p, seq!['\n']);
    if p.len() == 0 {
        assert(ls.len() == 0);
        assert(!t) by {
            if t {
                assert(lines_of(x).len() > 0) by {
                    let q = split_on(x, '\n');
                    lemma_split_on_nonempty(x, '\n');
                    assert(x =~= x.drop_last() + seq!['\n'] + Seq::<char>::empty());
                    lemma_split_on_concat(x.drop_last(), Seq::<char>::empty(), '\n');
                    lemma_split_on_nonempty(x.drop_last(), '\n');
                }
            }
        }
        assert(y =~= Seq::<char>::empty());
        lemma_lines_of_free(y);
        assert(process_lines(lines_of(y)) =~= Seq::<Seq<char>>::empty());
    } else {
        assert forall|i: int| 0 <= i < p.len() implies !(#[trigger] p[i]).contains('\n') by {}
        lemma_split_on_join(p, '\n');
        assert(p.last() == p[p.len() - 1]);
        if t {
            assert(y == j + seq!['\n']);
            assert(y =~= j + seq!['\n'] + Seq::<char>::empty());
            lemma_split_on_concat(j, Seq::<char>::empty(), '\n');
            let q = split_on(y, '\n');
            assert(split_on(Seq::<char>::empty(), '\n') =~= seq![Seq::<char>::empty()]);
            assert(q =~= p + seq![Seq::<char>::empty()]);
            assert(q.take(p.len() as int) =~= p);
            assert(lines_of(y) =~= p) by {
                assert forall|i: int| 0 <= i < p.len() implies strip_cr(#[trigger] p[i]) == p[i] by {
                    assert(!ends_with_cr(p[i]));
                }
                assert(q[p.len() as int] =~= Seq::<char>::empty());
            }
            assert(y.len() > 0 && y.last() == '\n');
        } else {
            assert(y =~= j);
            assert(ls.last().len() > 0);
            assert(p.last().len() > 0) by {
                assert(p[p.len() - 1] == ls[ls.len() - 1] || p[p.len() - 1].last() == '|');
            }
            let q = split_on(y, '\n');
            assert(q == p);
            assert(lines_of(y) =~= p) by {
                assert forall|i: int| 0 <= i < p.len() - 1 implies strip_cr(#[trigger] p[i]) == p[i] by {
                    assert(!ends_with_cr(p[i]));
                }
            }
            assert(y.len() > 0 && y.last() != '\n') by {
                if p.len() == 1 {
                    assert(j == p[0]);
                } else {
                    assert(j == join(p.drop_last(), seq!['\n']) + seq!['\n'] + p.last());
                }
                assert(y.last() == p.last().last());
                assert(p.last().contains(p.last().last()));
            }
        }
    }
}

/// The lines of a text without `c` are without `c`.
proof fn lemma_lines_of_free_of(x: Seq<char>, c: char)
    requires
        !x.contains(c),
    ensures
        forall|i: int| 0 <= i < lines_of(x).len() ==> !(#[trigger] lines_of(x)[i]).contains(c),
{
    let p = split_on(x, '\n');
    lemma_split_on_nonempty(x, '\n');
    lemma_split_on_free_pieces(x, '\n', c);
    let k = p.len() - 1;
    assert forall|i: int| 0 <= i < lines_of(x).len() implies !(#[trigger] lines_of(x)[i]).contains(c) by {
        if i < k {
            assert(lines_of(x)[i] == strip_cr(p[i]));
            if p[i].len() > 0 && p[i].last() == '\r' {
                lemma_subrange_free(p[i], 0, p[i].len() - 1, c);
                assert(p[i].drop_last() =~= p[i].subrange(0, p[i].len() - 1));
            }
        } else {
            assert(lines_of(x)[i] == p[k]);
        }
    }
}

/// `process` is idempotent on text without carriage returns: `process`
/// returns `aligned_text` of its input, and the aligned text, aligned again,
/// is unchanged, so `process(&process(s)) == process(s)`.
pub proof fn lemma_process_idempotent(x: Seq<char>)
    requires
        !x.contains('\r'),
    ensures
        aligned_text(aligned_text(x)) == aligned_text(x),
{
    let ls = lines_of(x);
    lemma_lines_of_free(x);
    lemma_lines_of_free_of(x, '\r');
    lemma_process_lines_free(ls);
    let p = process_lines(ls);
    assert forall|i: int| 0 <= i < p.len() implies !ends_with_cr(#[trigger] p[i]) by {
        if p[i] == ls[i] && p[i].len() > 0 {
            assert(p[i].contains(p[i].last()));
        }
    }
    lemma_aligned_text_idempotent(x);
}

} // verus!
