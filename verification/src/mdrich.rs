//! The two renderings of a Markdown document for the clipboard: its HTML,
//! which comrak renders with the GitHub extensions the tool turns on, and its
//! plain text, read from the tree comrak parses.  Reading the input and the
//! clipboard are the program's business.
use vstd::prelude::*;
use comrak::arena_tree::NodeEdge;
use comrak::nodes::NodeValue;
use crate::text::{append_chars, chars_of, join, str_is, string_of};

verus! {

/// A node of a parsed Markdown document, as far as the plain text needs it.
#[derive(Debug)]
pub enum MdNode {
    Text(String),
    Code(String),
    SoftBreak,
    LineBreak,
    HtmlInline,
    Paragraph(Vec<MdNode>),
    Heading(Vec<MdNode>),
    BlockQuote(Vec<MdNode>),
    List(Vec<MdNode>),
    Item(Vec<MdNode>),
    CodeBlock(String),
    ThematicBreak,
    /// Any other node (a document, emphasis, a link, a table, ...): its kind,
    /// as comrak names it, and its children.
    Other(String, Vec<MdNode>),
}

/// What a node gives inside running text: its text, a space for a soft
/// break, a newline for a hard one, nothing for inline HTML, and for any
/// other node the text of its children.
pub open spec fn inline_of(n: MdNode) -> Seq<char>
    decreases n,
{
    match n {
        MdNode::Text(t) => t@,
        MdNode::Code(c) => c@,
        MdNode::SoftBreak => " "@,
        MdNode::LineBreak => "\n"@,
        MdNode::HtmlInline => Seq::empty(),
        MdNode::Paragraph(cs) => inline_list(cs@),
        MdNode::Heading(cs) => inline_list(cs@),
        MdNode::BlockQuote(cs) => inline_list(cs@),
        MdNode::List(cs) => inline_list(cs@),
        MdNode::Item(cs) => inline_list(cs@),
        MdNode::CodeBlock(_) => Seq::empty(),
        MdNode::ThematicBreak => Seq::empty(),
        MdNode::Other(_, cs) => inline_list(cs@),
    }
}

/// The running text of the nodes `cs`.
pub open spec fn inline_list(cs: Seq<MdNode>) -> Seq<char>
    decreases cs,
{
    if cs.len() == 0 {
        Seq::empty()
    } else {
        inline_list(cs.drop_last()) + inline_of(cs.last())
    }
}

/// `s` without its trailing newlines.
pub open spec fn trim_newlines(s: Seq<char>) -> Seq<char>
    decreases s.len(),
{
    if s.len() > 0 && s.last() == '\n' {
        trim_newlines(s.drop_last())
    } else {
        s
    }
}

/// The blocks among `cs` and their text: paragraphs and headings give their
/// running text, quotes and lists and items the blocks inside them, code
/// blocks their code without trailing newlines, and thematic breaks nothing;
/// other nodes are left out.
pub open spec fn block_parts(cs: Seq<MdNode>) -> Seq<Seq<char>>
    decreases cs, 0nat,
{
    if cs.len() == 0 {
        Seq::empty()
    } else {
        block_parts(cs.drop_last()) + match cs.last() {
            MdNode::Paragraph(xs) => seq![inline_list(xs@)],
            MdNode::Heading(xs) => seq![inline_list(xs@)],
            MdNode::BlockQuote(xs) => seq![block_text(xs@)],
            MdNode::List(xs) => seq![block_text(xs@)],
            MdNode::Item(xs) => seq![block_text(xs@)],
            MdNode::CodeBlock(code) => seq![trim_newlines(code@)],
            MdNode::ThematicBreak => seq![Seq::<char>::empty()],
            _ => Seq::empty(),
        }
    }
}

/// The text of the blocks among `cs`, separated by blank lines.
pub open spec fn block_text(cs: Seq<MdNode>) -> Seq<char>
    decreases cs, 1nat,
{
    join(block_parts(cs), "\n\n"@)
}

/// The children of a node.
pub open spec fn children_of(n: MdNode) -> Seq<MdNode> {
    match n {
        MdNode::Paragraph(cs) => cs@,
        MdNode::Heading(cs) => cs@,
        MdNode::BlockQuote(cs) => cs@,
        MdNode::List(cs) => cs@,
        MdNode::Item(cs) => cs@,
        MdNode::Other(_, cs) => cs@,
        _ => Seq::empty(),
    }
}

/// The plain text of a document: the text of its blocks, ending in a newline
/// unless it is empty.
pub open spec fn plain_text(root: MdNode) -> Seq<char> {
    let t = block_text(children_of(root));
    if t.len() > 0 && t.last() != '\n' {
        t.push('\n')
    } else {
        t
    }
}

/// Two trees with the same shape, kinds and texts.
pub open spec fn node_eq(a: MdNode, b: MdNode) -> bool
    decreases a, 0nat,
{
    match a {
        MdNode::Text(x) => b matches MdNode::Text(y) && x@ == y@,
        MdNode::Code(x) => b matches MdNode::Code(y) && x@ == y@,
        MdNode::SoftBreak => b is SoftBreak,
        MdNode::LineBreak => b is LineBreak,
        MdNode::HtmlInline => b is HtmlInline,
        MdNode::Paragraph(xs) => b matches MdNode::Paragraph(ys) && list_eq(xs@, ys@),
        MdNode::Heading(xs) => b matches MdNode::Heading(ys) && list_eq(xs@, ys@),
        MdNode::BlockQuote(xs) => b matches MdNode::BlockQuote(ys) && list_eq(xs@, ys@),
        MdNode::List(xs) => b matches MdNode::List(ys) && list_eq(xs@, ys@),
        MdNode::Item(xs) => b matches MdNode::Item(ys) && list_eq(xs@, ys@),
        MdNode::CodeBlock(x) => b matches MdNode::CodeBlock(y) && x@ == y@,
        MdNode::ThematicBreak => b is ThematicBreak,
        MdNode::Other(k, xs) => b matches MdNode::Other(l, ys) && k@ == l@ && list_eq(xs@, ys@),
    }
}

pub open spec fn list_eq(xs: Seq<MdNode>, ys: Seq<MdNode>) -> bool
    decreases xs, 1nat,
{
    xs.len() == ys.len() && forall|i: int| 0 <= i < xs.len() ==> node_eq(#[trigger] xs[i], ys[i])
}

proof fn lemma_list_eq_drop_last(xs: Seq<MdNode>, ys: Seq<MdNode>)
    requires
        list_eq(xs, ys),
        xs.len() > 0,
    ensures
        list_eq(xs.drop_last(), ys.drop_last()),
        node_eq(xs.last(), ys.last()),
{
    assert forall|i: int| 0 <= i < xs.drop_last().len() implies node_eq(#[trigger] xs.drop_last()[i], ys.drop_last()[i]) by {
        assert(node_eq(xs[i], ys[i]));
    }
    assert(node_eq(xs[xs.len() - 1], ys[ys.len() - 1]));
}

proof fn lemma_eq_inline(a: MdNode, b: MdNode)
    requires
        node_eq(a, b),
    ensures
        inline_of(a) == inline_of(b),
    decreases a, 0nat,
{
    match a {
        MdNode::Paragraph(xs) => { if let MdNode::Paragraph(ys) = b { lemma_eq_inline_list(xs@, ys@); } },
        MdNode::Heading(xs) => { if let MdNode::Heading(ys) = b { lemma_eq_inline_list(xs@, ys@); } },
        MdNode::BlockQuote(xs) => { if let MdNode::BlockQuote(ys) = b { lemma_eq_inline_list(xs@, ys@); } },
        MdNode::List(xs) => { if let MdNode::List(ys) = b { lemma_eq_inline_list(xs@, ys@); } },
        MdNode::Item(xs) => { if let MdNode::Item(ys) = b { lemma_eq_inline_list(xs@, ys@); } },
        MdNode::Other(_, xs) => { if let MdNode::Other(_, ys) = b { lemma_eq_inline_list(xs@, ys@); } },
        _ => {},
    }
}

proof fn lemma_eq_inline_list(xs: Seq<MdNode>, ys: Seq<MdNode>)
    requires
        list_eq(xs, ys),
    ensures
        inline_list(xs) == inline_list(ys),
    decreases xs, 1nat,
{
    if xs.len() > 0 {
        lemma_list_eq_drop_last(xs, ys);
        lemma_eq_inline_list(xs.drop_last(), ys.drop_last());
        lemma_eq_inline(xs.last(), ys.last());
    }
}

proof fn lemma_eq_blocks(xs: Seq<MdNode>, ys: Seq<MdNode>)
    requires
        list_eq(xs, ys),
    ensures
        block_parts(xs) == block_parts(ys),
        block_text(xs) == block_text(ys),
    decreases xs, 0nat,
{
    if xs.len() > 0 {
        lemma_list_eq_drop_last(xs, ys);
        lemma_eq_blocks(xs.drop_last(), ys.drop_last());
        let a = xs.last();
        let b = ys.last();
        match a {
            MdNode::Paragraph(p) => { if let MdNode::Paragraph(q) = b { lemma_eq_inline_list(p@, q@); } },
            MdNode::Heading(p) => { if let MdNode::Heading(q) = b { lemma_eq_inline_list(p@, q@); } },
            MdNode::BlockQuote(p) => { if let MdNode::BlockQuote(q) = b { lemma_eq_blocks(p@, q@); } },
            MdNode::List(p) => { if let MdNode::List(q) = b { lemma_eq_blocks(p@, q@); } },
            MdNode::Item(p) => { if let MdNode::Item(q) = b { lemma_eq_blocks(p@, q@); } },
            _ => {},
        }
    }
}

/// Trees of the same shape, kinds and texts have the same plain text.
proof fn lemma_eq_plain(a: MdNode, b: MdNode)
    requires
        node_eq(a, b),
    ensures
        plain_text(a) == plain_text(b),
{
    match a {
        MdNode::Paragraph(xs) => { if let MdNode::Paragraph(ys) = b { lemma_eq_blocks(xs@, ys@); } },
        MdNode::Heading(xs) => { if let MdNode::Heading(ys) = b { lemma_eq_blocks(xs@, ys@); } },
        MdNode::BlockQuote(xs) => { if let MdNode::BlockQuote(ys) = b { lemma_eq_blocks(xs@, ys@); } },
        MdNode::List(xs) => { if let MdNode::List(ys) = b { lemma_eq_blocks(xs@, ys@); } },
        MdNode::Item(xs) => { if let MdNode::Item(ys) = b { lemma_eq_blocks(xs@, ys@); } },
        MdNode::Other(_, xs) => { if let MdNode::Other(_, ys) = b { lemma_eq_blocks(xs@, ys@); } },
        _ => {},
    }
}

/// Appends the running text of the nodes `children`.
pub fn append_inline_text(children: &Vec<MdNode>, out: &mut Vec<char>)
    ensures
        final(out)@ == old(out)@ + inline_list(children@),
    decreases children@,
{
    let ghost start = out@;
    let mut i: usize = 0;
    assert(children@.take(0) =~= Seq::<MdNode>::empty());
    assert(start + inline_list(Seq::<MdNode>::empty()) =~= start);
    while i < children.len()
        invariant
            i <= children@.len(),
            out@ == start + inline_list(children@.take(i as int)),
        decreases children@.len() - i,
    {
        let child = &children[i];
        let ghost before = out@;
        proof {
            assert(decreases_to!(children@ => children@[i as int]));
        }
        match child {
            MdNode::Text(t) => append_chars(out, &chars_of(t.as_str())),
            MdNode::Code(c) => append_chars(out, &chars_of(c.as_str())),
            MdNode::SoftBreak => out.push(' '),
            MdNode::LineBreak => out.push('\n'),
            MdNode::HtmlInline => {},
            MdNode::CodeBlock(_) => {},
            MdNode::ThematicBreak => {},
            MdNode::Paragraph(cs) => append_inline_text(cs, out),
            MdNode::Heading(cs) => append_inline_text(cs, out),
            MdNode::BlockQuote(cs) => append_inline_text(cs, out),
            MdNode::List(cs) => append_inline_text(cs, out),
            MdNode::Item(cs) => append_inline_text(cs, out),
            MdNode::Other(_, cs) => append_inline_text(cs, out),
        }
        proof {
            reveal_strlit(" ");
            reveal_strlit("\n");
            assert(out@ =~= before + inline_of(children@[i as int]));
            assert(children@.take(i + 1).drop_last() =~= children@.take(i as int));
            assert(children@.take(i + 1).last() == children@[i as int]);
        }
        i = i + 1;
    }
    assert(children@.take(children@.len() as int) =~= children@);
}

/// The text of `code` without its trailing newlines.
fn trim_trailing_newlines(code: &str) -> (r: Vec<char>)
    ensures
        r@ == trim_newlines(code@),
{
    let c = chars_of(code);
    let mut n: usize = c.len();
    assert(c@.take(n as int) =~= c@);
    while n > 0 && c[n - 1] == '\n'
        invariant
            n <= c@.len(),
            c@ == code@,
            trim_newlines(code@) == trim_newlines(c@.take(n as int)),
        decreases n,
    {
        assert(c@.take(n as int).drop_last() =~= c@.take(n - 1));
        n = n - 1;
    }
    crate::text::slice_range(&c, 0, n)
}

proof fn lemma_join_push(ls: Seq<Seq<char>>, p: Seq<char>, sep: Seq<char>)
    ensures
        join(ls.push(p), sep) == if ls.len() == 0 {
            p
        } else {
            join(ls, sep) + sep + p
        },
{
    assert(ls.push(p).drop_last() =~= ls);
    if ls.len() == 0 {
        assert(ls.push(p)[0] == p);
    }
}

/// Appends the text of the blocks among the nodes `children`.
pub fn append_block_text(children: &Vec<MdNode>, out: &mut Vec<char>)
    ensures
        final(out)@ == old(out)@ + block_text(children@),
    decreases children@,
{
    let ghost start = out@;
    let mut first = true;
    let mut i: usize = 0;
    assert(children@.take(0) =~= Seq::<MdNode>::empty());
    assert(start + join(Seq::<Seq<char>>::empty(), "\n\n"@) =~= start);
    while i < children.len()
        invariant
            i <= children@.len(),
            out@ == start + join(block_parts(children@.take(i as int)), "\n\n"@),
            first == (block_parts(children@.take(i as int)).len() == 0),
        decreases children@.len() - i,
    {
        let child = &children[i];
        let ghost parts = block_parts(children@.take(i as int));
        let ghost before = out@;
        proof {
            assert(decreases_to!(children@ => children@[i as int]));
            assert(children@.take(i + 1).drop_last() =~= children@.take(i as int));
            assert(children@.take(i + 1).last() == children@[i as int]);
            reveal_strlit("\n\n");
        }
        let counts = match child {
            MdNode::Paragraph(_) | MdNode::Heading(_) | MdNode::BlockQuote(_) | MdNode::List(_)
            | MdNode::Item(_) | MdNode::CodeBlock(_) | MdNode::ThematicBreak => true,
            _ => false,
        };
        if counts {
            if !first {
                append_chars(out, &chars_of("\n\n"));
            }
            let ghost mid = out@;
            match child {
                MdNode::Paragraph(cs) => append_inline_text(cs, out),
                MdNode::Heading(cs) => append_inline_text(cs, out),
                MdNode::BlockQuote(cs) => append_block_text(cs, out),
                MdNode::List(cs) => append_block_text(cs, out),
                MdNode::Item(cs) => append_block_text(cs, out),
                MdNode::CodeBlock(code) => append_chars(out, &trim_trailing_newlines(code.as_str())),
                _ => {},
            }
            proof {
                let p = match children@[i as int] {
                    MdNode::Paragraph(xs) => inline_list(xs@),
                    MdNode::Heading(xs) => inline_list(xs@),
                    MdNode::BlockQuote(xs) => block_text(xs@),
                    MdNode::List(xs) => block_text(xs@),
                    MdNode::Item(xs) => block_text(xs@),
                    MdNode::CodeBlock(code) => trim_newlines(code@),
                    _ => Seq::<char>::empty(),
                };
                assert(out@ =~= mid + p);
                assert(block_parts(children@.take(i + 1)) =~= parts.push(p));
                lemma_join_push(parts, p, "\n\n"@);
                if first {
                    assert(parts.len() == 0);
                    assert(join(parts, "\n\n"@) =~= Seq::<char>::empty());
                    assert(out@ =~= start + p);
                } else {
                    assert(out@ =~= start + join(parts, "\n\n"@) + "\n\n"@ + p);
                }
            }
            first = false;
        } else {
            proof {
                assert(block_parts(children@.take(i + 1)) =~= parts);
            }
        }
        i = i + 1;
    }
    assert(children@.take(children@.len() as int) =~= children@);
}

/// Render a parsed document as plain text.
pub fn render_plain(root: &MdNode) -> (r: String)
    ensures
        r@ == plain_text(*root),
{
    let mut out: Vec<char> = Vec::new();
    let empty: Vec<MdNode> = Vec::new();
    let children = match root {
        MdNode::Paragraph(cs) => cs,
        MdNode::Heading(cs) => cs,
        MdNode::BlockQuote(cs) => cs,
        MdNode::List(cs) => cs,
        MdNode::Item(cs) => cs,
        MdNode::Other(_, cs) => cs,
        _ => &empty,
    };
    assert(children@ =~= children_of(*root));
    append_block_text(children, &mut out);
    assert(out@ =~= block_text(children_of(*root)));
    if out.len() > 0 && out[out.len() - 1] != '\n' {
        out.push('\n');
    }
    string_of(&out)
}

/// What `comrak::markdown_to_html` renders from the Markdown `md` with the
/// default options and the autolink, strikethrough, table and tasklist
/// extensions set as given.
pub uninterp spec fn comrak_html(
    md: Seq<char>,
    autolink: bool,
    strikethrough: bool,
    table: bool,
    tasklist: bool,
) -> Seq<char>;

/// Calls `comrak::markdown_to_html` on `md` with comrak's default options and
/// the four extensions set as given.  Claimed: the result is `comrak_html` of
/// these arguments (comrak renders from its input and options alone).
#[verifier::external_body]
fn markdown_to_html(md: &str, autolink: bool, strikethrough: bool, table: bool, tasklist: bool) -> (r:
    String)
    ensures
        r@ == comrak_html(md@, autolink, strikethrough, table, tasklist),
{
    let mut options = comrak::Options::default();
    options.extension.autolink = autolink;
    options.extension.strikethrough = strikethrough;
    options.extension.table = table;
    options.extension.tasklist = tasklist;
    comrak::markdown_to_html(md, &options)
}

/// Render Markdown as HTML, with autolinks, strikethrough, tables and task
/// lists on.
pub fn render_html(markdown: &str) -> (r: String)
    ensures
        r@ == comrak_html(markdown@, true, true, true, true),
{
    markdown_to_html(markdown, true, true, true, true)
}

/// One step of comrak's walk over a parsed document: the start of a node
/// (`true`, its kind as `NodeValue::xml_node_name` names it, and the literal
/// of a text, code or code block node, else nothing), or the end of one
/// (`false` and nothing).
pub open spec fn outline_view(v: Seq<(bool, String, String)>) -> Seq<(bool, Seq<char>, Seq<char>)> {
    v.map_values(|e: (bool, String, String)| (e.0, e.1@, e.2@))
}

/// The walk over the document that `comrak::parse_document` reads from the
/// Markdown `md` with the default options, as `Node::traverse` takes it.
pub uninterp spec fn comrak_tree(md: Seq<char>) -> Seq<(bool, Seq<char>, Seq<char>)>;

/// Parses `md` with `comrak::parse_document` (default options) and lists the
/// steps of `Node::traverse` over the document, each node by its
/// `xml_node_name` and, for text, code and code blocks, its literal.
/// Claimed: the list is `comrak_tree` of `md` (comrak parses from its input
/// and options alone).
#[verifier::external_body]
fn comrak_outline(md: &str) -> (r: Vec<(bool, String, String)>)
    ensures
        outline_view(r@) == comrak_tree(md@),
{
    let arena = comrak::Arena::new();
    let mut out = Vec::new();
    for edge in comrak::parse_document(&arena, md, &comrak::Options::default()).traverse() {
        let NodeEdge::Start(node) = edge else { out.push((false, String::new(), String::new())); continue };
        let value = node.data.borrow().value.clone();
        let text = match &value {
            NodeValue::Text(t) => t.to_string(),
            NodeValue::Code(c) => c.literal.clone(),
            NodeValue::CodeBlock(b) => b.literal.clone(),
            _ => String::new(),
        };
        out.push((true, value.xml_node_name().to_string(), text));
    }
    out
}

/// The end of a node in the walk.
pub open spec fn end_step() -> (bool, Seq<char>, Seq<char>) {
    (false, Seq::empty(), Seq::empty())
}

/// A node without children: its start, with its literal, and its end.
pub open spec fn leaf_steps(kind: Seq<char>, text: Seq<char>) -> Seq<(bool, Seq<char>, Seq<char>)> {
    seq![(true, kind, text), end_step()]
}

/// A node with children: its start, the children's steps, and its end.
pub open spec fn branch_steps(kind: Seq<char>, inner: Seq<(bool, Seq<char>, Seq<char>)>) -> Seq<
    (bool, Seq<char>, Seq<char>),
> {
    seq![(true, kind, Seq::empty())] + inner + seq![end_step()]
}

/// The kinds of node the plain text tells apart.
pub open spec fn known_kind(k: Seq<char>) -> bool {
    ||| k == "text"@
    ||| k == "code"@
    ||| k == "softbreak"@
    ||| k == "linebreak"@
    ||| k == "html_inline"@
    ||| k == "paragraph"@
    ||| k == "heading"@
    ||| k == "block_quote"@
    ||| k == "list"@
    ||| k == "item"@
    ||| k == "code_block"@
    ||| k == "thematic_break"@
}

/// The walk over the node `n`.
pub open spec fn node_steps(n: MdNode) -> Seq<(bool, Seq<char>, Seq<char>)>
    decreases n,
{
    match n {
        MdNode::Text(t) => leaf_steps("text"@, t@),
        MdNode::Code(c) => leaf_steps("code"@, c@),
        MdNode::SoftBreak => leaf_steps("softbreak"@, Seq::empty()),
        MdNode::LineBreak => leaf_steps("linebreak"@, Seq::empty()),
        MdNode::HtmlInline => leaf_steps("html_inline"@, Seq::empty()),
        MdNode::Paragraph(cs) => branch_steps("paragraph"@, list_steps(cs@)),
        MdNode::Heading(cs) => branch_steps("heading"@, list_steps(cs@)),
        MdNode::BlockQuote(cs) => branch_steps("block_quote"@, list_steps(cs@)),
        MdNode::List(cs) => branch_steps("list"@, list_steps(cs@)),
        MdNode::Item(cs) => branch_steps("item"@, list_steps(cs@)),
        MdNode::CodeBlock(c) => leaf_steps("code_block"@, c@),
        MdNode::ThematicBreak => leaf_steps("thematic_break"@, Seq::empty()),
        MdNode::Other(k, cs) => branch_steps(k@, list_steps(cs@)),
    }
}

/// The walk over the nodes `cs`, one after the other.
pub open spec fn list_steps(cs: Seq<MdNode>) -> Seq<(bool, Seq<char>, Seq<char>)>
    decreases cs,
{
    if cs.len() == 0 {
        Seq::empty()
    } else {
        node_steps(cs[0]) + list_steps(cs.drop_first())
    }
}

/// A tree as the walk makes it: a node of another kind is not of a kind the
/// plain text tells apart.
pub open spec fn well_kinded(n: MdNode) -> bool
    decreases n,
{
    match n {
        MdNode::Paragraph(cs) => list_well_kinded(cs@),
        MdNode::Heading(cs) => list_well_kinded(cs@),
        MdNode::BlockQuote(cs) => list_well_kinded(cs@),
        MdNode::List(cs) => list_well_kinded(cs@),
        MdNode::Item(cs) => list_well_kinded(cs@),
        MdNode::Other(k, cs) => !known_kind(k@) && list_well_kinded(cs@),
        _ => true,
    }
}

pub open spec fn list_well_kinded(cs: Seq<MdNode>) -> bool
    decreases cs,
{
    if cs.len() == 0 {
        true
    } else {
        well_kinded(cs[0]) && list_well_kinded(cs.drop_first())
    }
}

/// Whether the steps of `ev` from `i` on begin with the walk `w`.
pub open spec fn steps_at(ev: Seq<(bool, Seq<char>, Seq<char>)>, i: int, w: Seq<(bool, Seq<char>, Seq<char>)>) -> bool {
    0 <= i && i + w.len() <= ev.len() && ev.subrange(i, i + w.len()) == w
}

proof fn lemma_steps_split(
    ev: Seq<(bool, Seq<char>, Seq<char>)>,
    i: int,
    a: Seq<(bool, Seq<char>, Seq<char>)>,
    b: Seq<(bool, Seq<char>, Seq<char>)>,
)
    requires
        steps_at(ev, i, a + b),
    ensures
        steps_at(ev, i, a),
        steps_at(ev, i + a.len(), b),
{
    let w = ev.subrange(i, i + a.len() + b.len());
    assert(w == a + b);
    assert forall|k: int| 0 <= k < a.len() implies ev.subrange(i, i + a.len())[k] == a[k] by {
        assert(w[k] == ev[i + k]);
        assert((a + b)[k] == a[k]);
    }
    assert(ev.subrange(i, i + a.len()) =~= a);
    assert forall|k: int| 0 <= k < b.len() implies ev.subrange(i + a.len(), i + a.len() + b.len())[k]
        == b[k] by {
        assert(w[a.len() + k] == ev[i + a.len() + k]);
        assert((a + b)[a.len() + k] == b[k]);
    }
    assert(ev.subrange(i + a.len(), i + a.len() + b.len()) =~= b);
}

proof fn lemma_steps_join(
    ev: Seq<(bool, Seq<char>, Seq<char>)>,
    i: int,
    a: Seq<(bool, Seq<char>, Seq<char>)>,
    b: Seq<(bool, Seq<char>, Seq<char>)>,
)
    requires
        steps_at(ev, i, a),
        steps_at(ev, i + a.len(), b),
    ensures
        steps_at(ev, i, a + b),
{
    assert(ev.subrange(i, i + a.len() + b.len()) =~= ev.subrange(i, i + a.len()) + ev.subrange(
        i + a.len(),
        i + a.len() + b.len(),
    ));
}

proof fn lemma_node_steps_start(n: MdNode)
    ensures
        node_steps(n).len() >= 2,
        node_steps(n)[0].0,
{
}

fn is_end_step(ev: &Vec<(bool, String, String)>, i: usize) -> (r: bool)
    requires
        i < ev@.len(),
    ensures
        r == (outline_view(ev@)[i as int] == end_step()),
{
    let e = &ev[i];
    assert(outline_view(ev@)[i as int] == (e.0, e.1@, e.2@));
    let k = chars_of(e.1.as_str());
    let t = chars_of(e.2.as_str());
    if k.len() == 0 {
        assert(e.1@ =~= Seq::<char>::empty());
    }
    if t.len() == 0 {
        assert(e.2@ =~= Seq::<char>::empty());
    }
    !e.0 && k.len() == 0 && t.len() == 0
}

proof fn lemma_kinds_differ()
    ensures
        "text"@ != "code"@,
        "text"@ != "softbreak"@,
        "text"@ != "linebreak"@,
        "text"@ != "html_inline"@,
        "text"@ != "code_block"@,
        "text"@ != "thematic_break"@,
        "code"@ != "softbreak"@,
        "code"@ != "linebreak"@,
        "code"@ != "html_inline"@,
        "code"@ != "code_block"@,
        "code"@ != "thematic_break"@,
        "softbreak"@ != "linebreak"@,
        "softbreak"@ != "html_inline"@,
        "softbreak"@ != "code_block"@,
        "softbreak"@ != "thematic_break"@,
        "linebreak"@ != "html_inline"@,
        "linebreak"@ != "code_block"@,
        "linebreak"@ != "thematic_break"@,
        "html_inline"@ != "code_block"@,
        "html_inline"@ != "thematic_break"@,
        "code_block"@ != "thematic_break"@,
        "paragraph"@ != "heading"@,
        "paragraph"@ != "block_quote"@,
        "paragraph"@ != "list"@,
        "paragraph"@ != "item"@,
        "heading"@ != "block_quote"@,
        "heading"@ != "list"@,
        "heading"@ != "item"@,
        "block_quote"@ != "list"@,
        "block_quote"@ != "item"@,
        "list"@ != "item"@,
        "paragraph"@ != "text"@,
        "paragraph"@ != "code"@,
        "paragraph"@ != "softbreak"@,
        "paragraph"@ != "linebreak"@,
        "paragraph"@ != "html_inline"@,
        "paragraph"@ != "code_block"@,
        "paragraph"@ != "thematic_break"@,
        "heading"@ != "text"@,
        "heading"@ != "code"@,
        "heading"@ != "softbreak"@,
        "heading"@ != "linebreak"@,
        "heading"@ != "html_inline"@,
        "heading"@ != "code_block"@,
        "heading"@ != "thematic_break"@,
        "block_quote"@ != "text"@,
        "block_quote"@ != "code"@,
        "block_quote"@ != "softbreak"@,
        "block_quote"@ != "linebreak"@,
        "block_quote"@ != "html_inline"@,
        "block_quote"@ != "code_block"@,
        "block_quote"@ != "thematic_break"@,
        "list"@ != "text"@,
        "list"@ != "code"@,
        "list"@ != "softbreak"@,
        "list"@ != "linebreak"@,
        "list"@ != "html_inline"@,
        "list"@ != "code_block"@,
        "list"@ != "thematic_break"@,
        "item"@ != "text"@,
        "item"@ != "code"@,
        "item"@ != "softbreak"@,
        "item"@ != "linebreak"@,
        "item"@ != "html_inline"@,
        "item"@ != "code_block"@,
        "item"@ != "thematic_break"@,
        !leaf_kind_spec("paragraph"@),
        !leaf_kind_spec("heading"@),
        !leaf_kind_spec("block_quote"@),
        !leaf_kind_spec("list"@),
        !leaf_kind_spec("item"@),
{
    reveal_strlit("text");
    reveal_strlit("code");
    reveal_strlit("softbreak");
    reveal_strlit("linebreak");
    reveal_strlit("html_inline");
    reveal_strlit("code_block");
    reveal_strlit("thematic_break");
    reveal_strlit("paragraph");
    reveal_strlit("heading");
    reveal_strlit("block_quote");
    reveal_strlit("list");
    reveal_strlit("item");
    assert("text"@[0] != "code"@[0]);
    assert("text"@.len() != "softbreak"@.len());
    assert("text"@.len() != "linebreak"@.len());
    assert("text"@.len() != "html_inline"@.len());
    assert("text"@.len() != "code_block"@.len());
    assert("text"@.len() != "thematic_break"@.len());
    assert("code"@.len() != "softbreak"@.len());
    assert("code"@.len() != "linebreak"@.len());
    assert("code"@.len() != "html_inline"@.len());
    assert("code"@.len() != "code_block"@.len());
    assert("code"@.len() != "thematic_break"@.len());
    assert("softbreak"@[0] != "linebreak"@[0]);
    assert("softbreak"@.len() != "html_inline"@.len());
    assert("softbreak"@.len() != "code_block"@.len());
    assert("softbreak"@.len() != "thematic_break"@.len());
    assert("linebreak"@.len() != "html_inline"@.len());
    assert("linebreak"@.len() != "code_block"@.len());
    assert("linebreak"@.len() != "thematic_break"@.len());
    assert("html_inline"@.len() != "code_block"@.len());
    assert("html_inline"@.len() != "thematic_break"@.len());
    assert("code_block"@.len() != "thematic_break"@.len());
    assert("paragraph"@.len() != "heading"@.len());
    assert("paragraph"@.len() != "block_quote"@.len());
    assert("paragraph"@.len() != "list"@.len());
    assert("paragraph"@.len() != "item"@.len());
    assert("heading"@.len() != "block_quote"@.len());
    assert("heading"@.len() != "list"@.len());
    assert("heading"@.len() != "item"@.len());
    assert("block_quote"@.len() != "list"@.len());
    assert("block_quote"@.len() != "item"@.len());
    assert("list"@[0] != "item"@[0]);
    assert("paragraph"@.len() != "text"@.len());
    assert("paragraph"@.len() != "code"@.len());
    assert("paragraph"@[0] != "softbreak"@[0]);
    assert("paragraph"@[0] != "linebreak"@[0]);
    assert("paragraph"@.len() != "html_inline"@.len());
    assert("paragraph"@.len() != "code_block"@.len());
    assert("paragraph"@.len() != "thematic_break"@.len());
    assert("heading"@.len() != "text"@.len());
    assert("heading"@.len() != "code"@.len());
    assert("heading"@.len() != "softbreak"@.len());
    assert("heading"@.len() != "linebreak"@.len());
    assert("heading"@.len() != "html_inline"@.len());
    assert("heading"@.len() != "code_block"@.len());
    assert("heading"@.len() != "thematic_break"@.len());
    assert("block_quote"@.len() != "text"@.len());
    assert("block_quote"@.len() != "code"@.len());
    assert("block_quote"@.len() != "softbreak"@.len());
    assert("block_quote"@.len() != "linebreak"@.len());
    assert("block_quote"@[0] != "html_inline"@[0]);
    assert("block_quote"@.len() != "code_block"@.len());
    assert("block_quote"@.len() != "thematic_break"@.len());
    assert("list"@[0] != "text"@[0]);
    assert("list"@[0] != "code"@[0]);
    assert("list"@.len() != "softbreak"@.len());
    assert("list"@.len() != "linebreak"@.len());
    assert("list"@.len() != "html_inline"@.len());
    assert("list"@.len() != "code_block"@.len());
    assert("list"@.len() != "thematic_break"@.len());
    assert("item"@[0] != "text"@[0]);
    assert("item"@[0] != "code"@[0]);
    assert("item"@.len() != "softbreak"@.len());
    assert("item"@.len() != "linebreak"@.len());
    assert("item"@.len() != "html_inline"@.len());
    assert("item"@.len() != "code_block"@.len());
    assert("item"@.len() != "thematic_break"@.len());
}

/// The kinds of node without children.
pub open spec fn leaf_kind_spec(k: Seq<char>) -> bool {
    ||| k == "text"@
    ||| k == "code"@
    ||| k == "softbreak"@
    ||| k == "linebreak"@
    ||| k == "html_inline"@
    ||| k == "code_block"@
    ||| k == "thematic_break"@
}

fn leaf_kind(k: &str) -> (r: bool)
    ensures
        r == leaf_kind_spec(k@),
{
    str_is(k, "text") || str_is(k, "code") || str_is(k, "softbreak") || str_is(k, "linebreak")
        || str_is(k, "html_inline") || str_is(k, "code_block") || str_is(k, "thematic_break")
}

/// Reads the node whose walk starts at step `i`, and where its walk ends.
fn read_node(ev: &Vec<(bool, String, String)>, i: usize) -> (r: Option<(MdNode, usize)>)
    ensures
        r matches Some((n, j)) ==> i < j <= ev@.len() && well_kinded(n) && steps_at(
            outline_view(ev@),
            i as int,
            node_steps(n),
        ) && j == i + node_steps(n).len(),
        forall|m: MdNode|
            well_kinded(m) && #[trigger] steps_at(outline_view(ev@), i as int, node_steps(m)) ==> (r matches Some(
                (n, j),
            ) && node_steps(n) == node_steps(m) && node_eq(n, m)),
    decreases ev@.len() - i, 1nat,
{
    let ghost ov = outline_view(ev@);
    proof {
        lemma_kinds_differ();
    }
    if i >= ev.len() {
        proof {
            assert forall|m: MdNode| well_kinded(m) implies !#[trigger] steps_at(ov, i as int, node_steps(m)) by {
                lemma_node_steps_start(m);
            }
        }
        return None;
    }
    let e = &ev[i];
    assert(ov[i as int] == (e.0, e.1@, e.2@));
    let kind = e.1.as_str();
    let text = e.2.as_str();
    proof {
        assert forall|m: MdNode| #[trigger] steps_at(ov, i as int, node_steps(m)) implies ov[i as int]
            == node_steps(m)[0] by {
            lemma_node_steps_start(m);
            assert(ov.subrange(i as int, i + node_steps(m).len())[0] == ov[i as int]);
        }
    }
    if !e.0 {
        return None;
    }
    if leaf_kind(kind) {
        if i + 1 >= ev.len() || !is_end_step(ev, i + 1) {
            proof {
                assert forall|m: MdNode| well_kinded(m) implies !#[trigger] steps_at(ov, i as int, node_steps(m)) by {
                    if steps_at(ov, i as int, node_steps(m)) {
                        assert(node_steps(m).len() == 2);
                        assert(ov.subrange(i as int, i + 2)[1] == ov[i + 1]);
                    }
                }
            }
            return None;
        }
        let empty = chars_of(text).len() == 0;
        proof {
            if empty {
                assert(text@ =~= Seq::<char>::empty());
            }
            assert(ov[i + 1] == end_step());
        }
        let node = if str_is(kind, "text") {
            MdNode::Text(String::from_str(text))
        } else if str_is(kind, "code") {
            MdNode::Code(String::from_str(text))
        } else if str_is(kind, "code_block") {
            MdNode::CodeBlock(String::from_str(text))
        } else if !empty {
            proof {
                assert forall|m: MdNode| well_kinded(m) implies !#[trigger] steps_at(ov, i as int, node_steps(m)) by {
                    if steps_at(ov, i as int, node_steps(m)) {
                        assert(ov[i as int] == node_steps(m)[0]);
                    }
                }
            }
            return None;
        } else if str_is(kind, "softbreak") {
            MdNode::SoftBreak
        } else if str_is(kind, "linebreak") {
            MdNode::LineBreak
        } else if str_is(kind, "html_inline") {
            MdNode::HtmlInline
        } else {
            MdNode::ThematicBreak
        };
        proof {
            assert(ov.subrange(i as int, i + 2) =~= seq![ov[i as int], ov[i + 1]]);
            assert(node_steps(node) =~= seq![ov[i as int], ov[i + 1]]);
            assert forall|m: MdNode| well_kinded(m) && #[trigger] steps_at(ov, i as int, node_steps(m)) implies node_steps(node)
                == node_steps(m) && node_eq(node, m) by {
                assert(ov[i as int] == node_steps(m)[0]);
                if node_steps(m).len() == 2 {
                    assert(ov.subrange(i as int, i + 2)[1] == ov[i + 1]);
                    assert(node_steps(m) =~= seq![ov[i as int], ov[i + 1]]);
                }
            }
        }
        return Some((node, i + 2));
    }
    if chars_of(text).len() != 0 {
        proof {
            assert forall|m: MdNode| well_kinded(m) implies !#[trigger] steps_at(ov, i as int, node_steps(m)) by {
                if steps_at(ov, i as int, node_steps(m)) {
                    assert(ov[i as int] == node_steps(m)[0]);
                }
            }
        }
        return None;
    }
    assert(text@ =~= Seq::<char>::empty());
    let (cs, j) = match read_children(ev, i + 1) {
        Some(x) => x,
        None => {
            proof {
                assert forall|m: MdNode| well_kinded(m) implies !#[trigger] steps_at(ov, i as int, node_steps(m)) by {
                    if steps_at(ov, i as int, node_steps(m)) {
                        assert(ov[i as int] == node_steps(m)[0]);
                        let cm = children_of_branch(m);
                        assert(node_steps(m) =~= seq![node_steps(m)[0]] + (list_steps(cm) + seq![end_step()]));
                        lemma_steps_split(ov, i as int, seq![node_steps(m)[0]], list_steps(cm) + seq![end_step()]);
                        assert(list_well_kinded(cm));
                    }
                }
            }
            return None;
        },
    };
    let ghost cv = cs@;
    let node = if str_is(kind, "paragraph") {
        MdNode::Paragraph(cs)
    } else if str_is(kind, "heading") {
        MdNode::Heading(cs)
    } else if str_is(kind, "block_quote") {
        MdNode::BlockQuote(cs)
    } else if str_is(kind, "list") {
        MdNode::List(cs)
    } else if str_is(kind, "item") {
        MdNode::Item(cs)
    } else {
        MdNode::Other(String::from_str(kind), cs)
    };
    proof {
        assert(children_of_branch(node) == cv);
        assert(node_steps(node) == branch_steps(kind@, list_steps(cv)));
        assert(node_steps(node) =~= seq![ov[i as int]] + (list_steps(cv) + seq![end_step()]));
        assert(steps_at(ov, i as int, seq![ov[i as int]])) by {
            assert(ov.subrange(i as int, i + 1) =~= seq![ov[i as int]]);
        }
        lemma_steps_join(ov, i as int, seq![ov[i as int]], list_steps(cv) + seq![end_step()]);
        assert forall|m: MdNode| well_kinded(m) && #[trigger] steps_at(ov, i as int, node_steps(m)) implies node_steps(node)
            == node_steps(m) && node_eq(node, m) by {
            assert(ov[i as int] == node_steps(m)[0]);
            let cm = children_of_branch(m);
            assert(node_steps(m) =~= seq![node_steps(m)[0]] + (list_steps(cm) + seq![end_step()]));
            lemma_steps_split(ov, i as int, seq![node_steps(m)[0]], list_steps(cm) + seq![end_step()]);
            assert(list_well_kinded(cm));
            assert(list_steps(cv) == list_steps(cm));
            assert(list_eq(cv, cm));
        }
    }
    Some((node, j))
}

/// The children of a node with children.
pub open spec fn children_of_branch(n: MdNode) -> Seq<MdNode> {
    match n {
        MdNode::Paragraph(cs) => cs@,
        MdNode::Heading(cs) => cs@,
        MdNode::BlockQuote(cs) => cs@,
        MdNode::List(cs) => cs@,
        MdNode::Item(cs) => cs@,
        MdNode::Other(_, cs) => cs@,
        _ => Seq::empty(),
    }
}

/// Reads the nodes whose walks follow one another from step `p`, up to the
/// end of their parent, and where that end is.
fn read_children(ev: &Vec<(bool, String, String)>, p: usize) -> (r: Option<(Vec<MdNode>, usize)>)
    ensures
        r matches Some((cs, j)) ==> p < j <= ev@.len() && list_well_kinded(cs@) && steps_at(
            outline_view(ev@),
            p as int,
            list_steps(cs@) + seq![end_step()],
        ) && j == p + list_steps(cs@).len() + 1,
        forall|ms: Seq<MdNode>|
            list_well_kinded(ms) && #[trigger] steps_at(
                outline_view(ev@),
                p as int,
                list_steps(ms) + seq![end_step()],
            ) ==> (r matches Some((cs, j)) && list_steps(cs@) == list_steps(ms) && list_eq(cs@, ms)),
    decreases ev@.len() - p, 2nat,
{
    let ghost ov = outline_view(ev@);
    if p >= ev.len() {
        return None;
    }
    if is_end_step(ev, p) {
        let cs: Vec<MdNode> = Vec::new();
        proof {
            assert(list_steps(cs@) == Seq::<(bool, Seq<char>, Seq<char>)>::empty());
            assert(list_steps(cs@) + seq![end_step()] =~= seq![end_step()]);
            assert(ov.subrange(p as int, p + 1) =~= seq![ov[p as int]]);
            assert forall|ms: Seq<MdNode>|
                list_well_kinded(ms) && #[trigger] steps_at(ov, p as int, list_steps(ms) + seq![end_step()]) implies list_steps(
                cs@,
            ) == list_steps(ms) && list_eq(cs@, ms) by {
                if ms.len() > 0 {
                    lemma_node_steps_start(ms[0]);
                    assert((list_steps(ms) + seq![end_step()])[0] == node_steps(ms[0])[0]);
                    assert(ov.subrange(p as int, p + (list_steps(ms) + seq![end_step()]).len())[0] == ov[p as int]);
                }
            }
        }
        return Some((cs, p + 1));
    }
    let (c, q) = match read_node(ev, p) {
        Some(x) => x,
        None => {
            proof {
                assert forall|ms: Seq<MdNode>|
                    list_well_kinded(ms) implies !#[trigger] steps_at(ov, p as int, list_steps(ms) + seq![end_step()]) by {
                    if steps_at(ov, p as int, list_steps(ms) + seq![end_step()]) {
                        if ms.len() == 0 {
                            assert(ov.subrange(p as int, p + 1)[0] == ov[p as int]);
                        } else {
                            assert(list_steps(ms) + seq![end_step()] =~= node_steps(ms[0]) + (list_steps(ms.drop_first())
                                + seq![end_step()]));
                            lemma_steps_split(ov, p as int, node_steps(ms[0]), list_steps(ms.drop_first()) + seq![end_step()]);
                        }
                    }
                }
            }
            return None;
        },
    };
    let (mut rest, j) = match read_children(ev, q) {
        Some(x) => x,
        None => {
            proof {
                assert forall|ms: Seq<MdNode>|
                    list_well_kinded(ms) implies !#[trigger] steps_at(ov, p as int, list_steps(ms) + seq![end_step()]) by {
                    if steps_at(ov, p as int, list_steps(ms) + seq![end_step()]) {
                        if ms.len() == 0 {
                            assert(ov.subrange(p as int, p + 1)[0] == ov[p as int]);
                        } else {
                            assert(list_steps(ms) + seq![end_step()] =~= node_steps(ms[0]) + (list_steps(ms.drop_first())
                                + seq![end_step()]));
                            lemma_steps_split(ov, p as int, node_steps(ms[0]), list_steps(ms.drop_first()) + seq![end_step()]);
                            assert(node_steps(c) == node_steps(ms[0]));
                        }
                    }
                }
            }
            return None;
        },
    };
    let ghost rv = rest@;
    let ghost cn = c;
    rest.insert(0, c);
    proof {
        assert(rest@ =~= seq![cn] + rv);
        assert(rest@.drop_first() =~= rv);
        assert(list_steps(rest@) == node_steps(cn) + list_steps(rv));
        assert(list_steps(rest@) + seq![end_step()] =~= node_steps(cn) + (list_steps(rv) + seq![end_step()]));
        lemma_steps_join(ov, p as int, node_steps(cn), list_steps(rv) + seq![end_step()]);
        assert forall|ms: Seq<MdNode>|
            list_well_kinded(ms) && #[trigger] steps_at(ov, p as int, list_steps(ms) + seq![end_step()]) implies list_steps(
            rest@,
        ) == list_steps(ms) && list_eq(rest@, ms) by {
            if ms.len() == 0 {
                assert(ov.subrange(p as int, p + 1)[0] == ov[p as int]);
            } else {
                assert(list_steps(ms) + seq![end_step()] =~= node_steps(ms[0]) + (list_steps(ms.drop_first())
                    + seq![end_step()]));
                lemma_steps_split(ov, p as int, node_steps(ms[0]), list_steps(ms.drop_first()) + seq![end_step()]);
                assert(node_steps(cn) == node_steps(ms[0]));
                assert(node_eq(cn, ms[0]));
                assert(list_eq(rv, ms.drop_first()));
                assert forall|k: int| 0 <= k < rest@.len() implies node_eq(#[trigger] rest@[k], ms[k]) by {
                    if k > 0 {
                        assert(rest@[k] == rv[k - 1]);
                        assert(ms.drop_first()[k - 1] == ms[k]);
                    }
                }
            }
        }
    }
    Some((rest, j))
}

/// Render the Markdown `md` as plain text, from the tree comrak parses: the
/// plain text of the tree whose walk is the one comrak gives.
pub fn render_plain_text(md: &str) -> (r: String)
    ensures
        forall|t: MdNode| well_kinded(t) && node_steps(t) == comrak_tree(md@) ==> r@ == plain_text(t),
{
    let ev = comrak_outline(md);
    let ghost ov = outline_view(ev@);
    proof {
        assert forall|t: MdNode| well_kinded(t) && node_steps(t) == ov implies #[trigger] steps_at(ov, 0, node_steps(t)) by {
            assert(ov.subrange(0, ov.len() as int) =~= ov);
        }
    }
    match read_node(&ev, 0) {
        Some((root, _)) => {
            let r = render_plain(&root);
            proof {
                assert forall|t: MdNode| well_kinded(t) && node_steps(t) == comrak_tree(md@) implies r@ == plain_text(t) by {
                    assert(steps_at(ov, 0, node_steps(t)));
                    assert(node_eq(root, t));
                    lemma_eq_plain(root, t);
                }
            }
            r
        },
        None => {
            proof {
                assert forall|t: MdNode| well_kinded(t) && node_steps(t) == comrak_tree(md@) implies false by {
                    assert(steps_at(ov, 0, node_steps(t)));
                }
            }
            String::new()
        },
    }
}

} // verus!
