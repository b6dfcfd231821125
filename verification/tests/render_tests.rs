use cmfmt::ast::{
    CodeBlockData, HeadingData, LinkData, ListData, ListDelimType, ListType, Node, NodeValue,
    RenderOptions,
};
use cmfmt::render::format_document;

fn text(s: &str) -> Node {
    Node { value: NodeValue::Text(s.as_bytes().to_vec()), children: vec![] }
}

fn para(children: Vec<Node>) -> Node {
    Node { value: NodeValue::Paragraph, children }
}

fn doc(children: Vec<Node>) -> Node {
    Node { value: NodeValue::Document, children }
}

fn item(children: Vec<Node>) -> Node {
    Node { value: NodeValue::Item, children }
}

fn bullet_list(tight: bool, children: Vec<Node>) -> Node {
    Node {
        value: NodeValue::List(ListData {
            list_type: ListType::Bullet,
            delimiter: ListDelimType::Period,
            tight,
            start: 1,
        }),
        children,
    }
}

fn ordered_list(start: u64, delimiter: ListDelimType, children: Vec<Node>) -> Node {
    Node {
        value: NodeValue::List(ListData { list_type: ListType::Ordered, delimiter, tight: false, start }),
        children,
    }
}

fn code_block(info: &str, literal: &str) -> Node {
    Node {
        value: NodeValue::CodeBlock(CodeBlockData {
            info: info.as_bytes().to_vec(),
            literal: literal.as_bytes().to_vec(),
        }),
        children: vec![],
    }
}

fn link(url: &str, title: &str, children: Vec<Node>) -> Node {
    Node {
        value: NodeValue::Link(LinkData {
            url: url.as_bytes().to_vec(),
            title: title.as_bytes().to_vec(),
        }),
        children,
    }
}

fn render(n: &Node) -> String {
    let opts = RenderOptions { width: 0, hardbreaks: false };
    String::from_utf8(format_document(n, &opts)).unwrap()
}

fn render_width(n: &Node, width: usize) -> String {
    let opts = RenderOptions { width, hardbreaks: false };
    String::from_utf8(format_document(n, &opts)).unwrap()
}

#[test]
fn escapes_ordered_marker_at_start_of_paragraph() {
    let t = doc(vec![para(vec![text("1. Hello")])]);
    assert_eq!(render(&t), "1\\. Hello\n");
}

#[test]
fn no_escape_for_ordered_marker_mid_paragraph() {
    let t = doc(vec![para(vec![text("see 1. here")])]);
    assert_eq!(render(&t), "see 1. here\n");
}

#[test]
fn plain_code_block_without_backticks_gets_three_tick_fence() {
    let t = doc(vec![code_block("rust", "hi\n")]);
    assert_eq!(render(&t), "``` rust\nhi\n```\n");
}

#[test]
fn fence_length_exceeds_longest_run() {
    // a literal holding a run of four backticks must be fenced with five,
    // so the content cannot close the fence early.
    let t = doc(vec![code_block("", " ````x\n")]);
    assert_eq!(render(&t), "`````\n ````x\n`````\n");
}

#[test]
fn fenced_block_with_info_and_interior_run() {
    let t = doc(vec![code_block("x", "a````b")]);
    assert_eq!(render(&t), "````` x\na````b\n`````\n");
}

#[test]
fn indented_code_block_for_plain_content() {
    let t = doc(vec![code_block("", "hi\n")]);
    assert_eq!(render(&t), "    hi\n");
}

#[test]
fn inline_code_uses_shortest_unused_run() {
    let t = doc(vec![para(vec![Node {
        value: NodeValue::Code("a`b".as_bytes().to_vec()),
        children: vec![],
    }])]);
    assert_eq!(render(&t), "``a`b``\n");
}

#[test]
fn empty_inline_code_is_padded() {
    let t = doc(vec![para(vec![Node {
        value: NodeValue::Code(Vec::new()),
        children: vec![],
    }])]);
    // an empty literal is padded on both sides of the delimiters.
    assert_eq!(render(&t), "`  `\n");
}

#[test]
fn tight_list_suppresses_blank_lines() {
    let t = doc(vec![bullet_list(true, vec![
        item(vec![para(vec![text("a")])]),
        item(vec![para(vec![text("b")])]),
    ])]);
    assert_eq!(render(&t), "  - a\n  - b\n");
}

#[test]
fn loose_list_keeps_blank_lines() {
    let t = doc(vec![bullet_list(false, vec![
        item(vec![para(vec![text("a")])]),
        item(vec![para(vec![text("b")])]),
    ])]);
    assert_eq!(render(&t), "  - a\n\n  - b\n");
}

#[test]
fn ordered_list_markers_and_padding() {
    let t = doc(vec![ordered_list(1, ListDelimType::Period, vec![
        item(vec![para(vec![text("a")])]),
        item(vec![para(vec![text("b")])]),
    ])]);
    assert_eq!(render(&t), "1.  a\n\n2.  b\n");
}

#[test]
fn ordered_list_paren_delimiter_and_wide_number() {
    let t = doc(vec![ordered_list(10, ListDelimType::Paren, vec![
        item(vec![para(vec![text("x")])]),
    ])]);
    assert_eq!(render(&t), "10) x\n");
}

#[test]
fn wrap_breaks_at_spaces_within_width() {
    let t = doc(vec![para(vec![text("aaaa bbbb cccc")])]);
    let out = render_width(&t, 10);
    assert_eq!(out, "aaaa bbbb\ncccc\n");
    for line in out.lines() {
        assert!(line.len() <= 10);
    }
    let rejoined: Vec<&str> = out.split_whitespace().collect();
    assert_eq!(rejoined, vec!["aaaa", "bbbb", "cccc"]);
}

#[test]
fn autolink_for_matching_text_and_url() {
    let t = doc(vec![para(vec![link(
        "http://example.com",
        "",
        vec![text("http://example.com")],
    )])]);
    assert_eq!(render(&t), "<http://example.com>\n");
}

#[test]
fn titled_link_uses_bracketed_form() {
    let t = doc(vec![para(vec![link(
        "http://example.com",
        "x",
        vec![text("http://example.com")],
    )])]);
    assert_eq!(render(&t), "[http://example.com](http://example.com \"x\")\n");
}

#[test]
fn mailto_autolink_strips_prefix() {
    let t = doc(vec![para(vec![link("mailto:a@b.c", "", vec![text("a@b.c")])])]);
    assert_eq!(render(&t), "<a@b.c>\n");
}

#[test]
fn mismatched_link_text_uses_bracketed_form() {
    let t = doc(vec![para(vec![link("http://example.com", "", vec![text("here")])])]);
    assert_eq!(render(&t), "[here](http://example.com)\n");
}

#[test]
fn trailing_newline_is_exactly_one_for_heading() {
    let t = doc(vec![Node {
        value: NodeValue::Heading(HeadingData { level: 2 }),
        children: vec![text("Hi")],
    }]);
    assert_eq!(render(&t), "## Hi\n");
}

#[test]
fn empty_document_renders_single_newline() {
    let t = doc(vec![]);
    assert_eq!(render(&t), "\n");
}

#[test]
fn block_quote_prefix() {
    let t = doc(vec![Node {
        value: NodeValue::BlockQuote,
        children: vec![para(vec![text("q")])],
    }]);
    assert_eq!(render(&t), "> q\n");
}

#[test]
fn thematic_break_renders_dashes() {
    let t = doc(vec![Node { value: NodeValue::ThematicBreak, children: vec![] }]);
    assert_eq!(render(&t), "-----\n");
}

#[test]
fn adjacent_lists_get_end_list_comment() {
    let t = doc(vec![
        bullet_list(false, vec![item(vec![para(vec![text("a")])])]),
        bullet_list(false, vec![item(vec![para(vec![text("b")])])]),
    ]);
    assert_eq!(render(&t), "  - a\n\n<!-- end list -->\n\n  - b\n");
}

#[test]
fn line_break_renders_two_spaces() {
    let t = doc(vec![para(vec![text("a"), Node {
        value: NodeValue::LineBreak,
        children: vec![],
    }, text("b")])]);
    assert_eq!(render(&t), "a  \nb\n");
}

#[test]
fn soft_break_is_newline_without_wrap() {
    let t = doc(vec![para(vec![text("a"), Node {
        value: NodeValue::SoftBreak,
        children: vec![],
    }, text("b")])]);
    assert_eq!(render(&t), "a\nb\n");
}

#[test]
fn soft_break_is_space_under_hardbreak_or_width() {
    let t = doc(vec![para(vec![text("a"), Node {
        value: NodeValue::SoftBreak,
        children: vec![],
    }, text("b")])]);
    let out = String::from_utf8(format_document(&t, &RenderOptions {
        width: 80,
        hardbreaks: false,
    })).unwrap();
    assert_eq!(out, "a b\n");
}

#[test]
fn nested_sole_emphasis_uses_underscore() {
    let inner = Node { value: NodeValue::Emph, children: vec![text("x")] };
    let outer = Node { value: NodeValue::Emph, children: vec![inner] };
    let t = doc(vec![para(vec![outer])]);
    assert_eq!(render(&t), "*_x_*\n");
}

#[test]
fn strong_uses_double_stars() {
    let t = doc(vec![para(vec![Node {
        value: NodeValue::Strong,
        children: vec![text("x")],
    }])]);
    assert_eq!(render(&t), "**x**\n");
}

#[test]
fn image_with_title() {
    let t = doc(vec![para(vec![Node {
        value: NodeValue::Image(LinkData {
            url: "u".as_bytes().to_vec(),
            title: "t".as_bytes().to_vec(),
        }),
        children: vec![text("alt")],
    }])]);
    assert_eq!(render(&t), "![alt](u \"t\")\n");
}

#[test]
fn escapes_leading_marker_characters_at_begin_of_content() {
    assert_eq!(render(&doc(vec![para(vec![text("- x")])])), "\\- x\n");
    assert_eq!(render(&doc(vec![para(vec![text("+ x")])])), "\\+ x\n");
    assert_eq!(render(&doc(vec![para(vec![text("= x")])])), "\\= x\n");
    assert_eq!(render(&doc(vec![para(vec![text("1) x")])])), "1\\) x\n");
}

#[test]
fn normal_escaping_of_structural_characters() {
    let t = doc(vec![para(vec![text("a*b_c[d]e")])]);
    assert_eq!(render(&t), "a\\*b\\_c\\[d\\]e\n");
}

#[test]
fn url_escaping_percent_encodes_spaces() {
    let t = doc(vec![para(vec![link("http://e.com/a b", "", vec![text("x")])])]);
    assert_eq!(render(&t), "[x](http://e.com/a%20b)\n");
}

#[test]
fn html_block_passes_through_raw() {
    let t = doc(vec![Node {
        value: NodeValue::HtmlBlock("<div>&amp;</div>\n".as_bytes().to_vec()),
        children: vec![],
    }]);
    assert_eq!(render(&t), "<div>&amp;</div>\n");
}
