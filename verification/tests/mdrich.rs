use rust_kart::mdrich::{
    append_block_text, append_inline_text, render_html, render_plain, render_plain_text, MdNode,
};

fn text(s: &str) -> MdNode {
    MdNode::Text(s.to_string())
}

fn para(cs: Vec<MdNode>) -> MdNode {
    MdNode::Paragraph(cs)
}

#[test]
fn blocks_are_separated_by_blank_lines() {
    let doc = MdNode::Other("document".to_string(), vec![
        MdNode::Heading(vec![text("Title")]),
        para(vec![
            text("a"),
            MdNode::SoftBreak,
            MdNode::Other("emph".to_string(), vec![text("b")]),
            MdNode::Code("c".to_string()),
            MdNode::HtmlInline,
            MdNode::LineBreak,
            text("d"),
        ]),
        MdNode::List(vec![
            MdNode::Item(vec![para(vec![text("x")])]),
            MdNode::Item(vec![para(vec![text("y")])]),
        ]),
        MdNode::CodeBlock("fn main() {}\n\n".to_string()),
        MdNode::ThematicBreak,
        MdNode::BlockQuote(vec![para(vec![text("q")])]),
    ]);
    assert_eq!(render_plain(&doc), "Title\n\na bc\nd\n\nx\n\ny\n\nfn main() {}\n\n\n\nq\n");
}

#[test]
fn an_empty_document_stays_empty() {
    assert_eq!(render_plain(&MdNode::Other("document".to_string(), vec![])), "");
    assert_eq!(render_plain(&MdNode::Other("document".to_string(), vec![MdNode::ThematicBreak])), "");
}

#[test]
fn a_trailing_newline_is_not_doubled() {
    let doc = MdNode::Other("document".to_string(), vec![para(vec![text("a"), MdNode::LineBreak])]);
    assert_eq!(render_plain(&doc), "a\n");
}

#[test]
fn inline_and_block_text_append() {
    let mut out: Vec<char> = "> ".chars().collect();
    append_inline_text(&vec![text("x"), MdNode::SoftBreak, text("y")], &mut out);
    assert_eq!(out.iter().collect::<String>(), "> x y");
    let mut out: Vec<char> = Vec::new();
    append_block_text(&vec![text("loose"), para(vec![text("p")]), para(vec![text("q")])], &mut out);
    assert_eq!(out.iter().collect::<String>(), "p\n\nq");
}

#[test]
fn html_has_the_github_extensions() {
    assert_eq!(render_html("~~x~~ **b**"), "<p><del>x</del> <strong>b</strong></p>\n");
    assert!(render_html("| a |\n|---|\n| 1 |\n").contains("<table>"));
    assert!(render_html("see www.example.com").contains("<a href=\"http://www.example.com\">"));
}

#[test]
fn markdown_is_read_by_comrak_then_rendered_plain() {
    assert_eq!(
        render_plain_text("# Title\n\nSome *em* and `code`\nnext\n\n- a\n- b\n\n```\nfn x() {}\n```\n"),
        "Title\n\nSome em and code next\n\na\n\nb\n\nfn x() {}\n"
    );
    assert_eq!(render_plain_text(""), "");
}
