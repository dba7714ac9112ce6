use markup::dom::ast::{Alignment, Block, Inline, ListItem};
use markup::dom::parser::Parser;
use markup::dom::renderer::{reparse_rendered, HtmlRenderer};
use std::borrow::Cow;

fn plain(s: &str) -> Inline<'_> {
    Inline::Text(Cow::Borrowed(s))
}

fn render_doc(s: &str) -> String {
    HtmlRenderer::render(&Parser::new(s).parse())
}

#[test]
fn render_small_document() {
    let input = "# Hello World\n\nThis is a paragraph\nwith two lines.\n\n> This is a quote.\n> Second line of quote.\n\nAnd a final paragraph.";
    assert_eq!(
        render_doc(input),
        "<h1>Hello World</h1>\n<p>This is a paragraph\nwith two lines.</p>\n<blockquote>\n<p>This is a quote.\nSecond line of quote.</p>\n</blockquote>\n<p>And a final paragraph.</p>\n"
    );
}

#[test]
fn render_escapes_reserved_characters() {
    assert_eq!(
        HtmlRenderer::escape_html("a & b < c > d \" e ' f"),
        "a &amp; b &lt; c &gt; d &quot; e &#39; f"
    );
    assert_eq!(HtmlRenderer::escape_html("&amp;"), "&amp;amp;");
    assert_eq!(HtmlRenderer::escape_html(""), "");
    assert_eq!(HtmlRenderer::escape_html("世界"), "世界");
}

#[test]
fn render_inline_nodes() {
    let nodes = vec![
        plain("a<b"),
        Inline::Emphasis(vec![plain("e")]),
        Inline::Strong(vec![plain("s")]),
        Inline::Strikethrough(vec![plain("d")]),
        Inline::CodeSpan(Cow::Borrowed("x<y")),
        Inline::Link {
            children: vec![plain("l")],
            url: Cow::Borrowed("u?a=1&b=2"),
        },
        Inline::Image {
            alt: Cow::Borrowed("\"alt\""),
            url: Cow::Borrowed("p.png"),
        },
        Inline::RawHtml(Cow::Borrowed("<br/>")),
    ];
    assert_eq!(
        HtmlRenderer::render_inlines(&nodes),
        "a&lt;b<em>e</em><strong>s</strong><del>d</del><code>x&lt;y</code><a href=\"u?a=1&amp;b=2\">l</a><img src=\"p.png\" alt=\"&quot;alt&quot;\" /><br/>"
    );
}

#[test]
fn render_code_block_and_break() {
    assert_eq!(
        render_doc("```rust\nlet a = 1 < 2;\n```\n---"),
        "<pre><code class=\"language-rust\">let a = 1 &lt; 2;</code></pre>\n<hr />\n"
    );
    assert_eq!(
        render_doc("```\nx\n```"),
        "<pre><code>x</code></pre>\n"
    );
}

#[test]
fn render_lists() {
    assert_eq!(
        render_doc("- a\n  1. b\n- c"),
        "<ul>\n<li><p>a</p>\n<ol>\n<li><p>b</p>\n</li>\n</ol>\n</li>\n<li><p>c</p>\n</li>\n</ul>\n"
    );
}

#[test]
fn render_table_with_alignments() {
    assert_eq!(
        render_doc("| A | B | C | D |\n|---|:-:|:--|--:|\n| 1 | 2 | 3 | 4 | 5 |"),
        "<table>\n<thead>\n<tr>\n<th>A</th>\n<th style=\"text-align: center\">B</th>\n<th style=\"text-align: left\">C</th>\n<th style=\"text-align: right\">D</th>\n</tr>\n</thead>\n<tbody>\n<tr>\n<td>1</td>\n<td style=\"text-align: center\">2</td>\n<td style=\"text-align: left\">3</td>\n<td style=\"text-align: right\">4</td>\n<td>5</td>\n</tr>\n</tbody>\n</table>\n"
    );
}

#[test]
fn render_table_built_by_hand() {
    let table = Block::Table {
        headers: vec![vec![plain("h")]],
        rows: vec![],
        alignments: vec![Alignment::Right, Alignment::Left],
    };
    assert_eq!(
        HtmlRenderer::render(&[table]),
        "<table>\n<thead>\n<tr>\n<th style=\"text-align: right\">h</th>\n</tr>\n</thead>\n<tbody>\n</tbody>\n</table>\n"
    );
}

#[test]
fn render_heading_levels_in_decimal() {
    for (level, tag) in [(1u8, "h1"), (6, "h6"), (10, "h10"), (42, "h42"), (255, "h255"), (100, "h100"), (0, "h0")] {
        let heading = Block::Heading {
            level,
            children: vec![plain("t")],
        };
        assert_eq!(
            HtmlRenderer::render(&[heading]),
            format!("<{}>t</{}>\n", tag, tag)
        );
    }
}

#[test]
fn render_empty_document() {
    assert_eq!(HtmlRenderer::render(&[]), "");
    let list = Block::List {
        ordered: true,
        items: vec![ListItem { children: vec![] }],
    };
    assert_eq!(HtmlRenderer::render(&[list]), "<ol>\n<li></li>\n</ol>\n");
}

#[test]
fn rendered_output_parses_again() {
    let inputs = [
        "",
        "# Hello *World*\n\n> quote\n> > nested\n\n- a\n  - b\n\n1. c\n\n```rust\ncode\n```\n\n| a | b |\n|---|:-:|\n| 1 | 2 |\n\n---\n\n[l](u) ![i](p) `c` ~~s~~ <b>raw</b> \\* ***x***",
        "*unclosed **runs `here ~~ [and](there",
        "\u{FEFF}世界\r\n\ttab\r",
        "> \n>\n-\n1.\n#\n```",
    ];
    for input in inputs {
        let prepared = Parser::preprocess(input);
        let html = HtmlRenderer::render(&Parser::new(&prepared).parse());
        let again = Parser::new(&html).parse();
        let html_again = HtmlRenderer::render(&again);
        assert!(html_again.len() >= again.len());
        assert_eq!(reparse_rendered(&prepared), again);
    }
}
