//! The renderer: walks a document tree and writes it out as HTML.

use crate::dom::ast::{block_views, cell_views, inline_views, item_views, row_views, Alignment,
    Block, BlockView, Inline, InlineView, ListItem};
use crate::dom::parser::{parse_blocks, parse_text};
use crate::text::to_chars;
use std::borrow::Cow;
use vstd::prelude::*;
use vstd::string::StringExecFns;

verus! {

/// What one character becomes in HTML text: the five reserved characters
/// become entities, every other character stays.
pub open spec fn escape_char(c: char) -> Seq<char> {
    if c == '&' {
        "&amp;"@
    } else if c == '<' {
        "&lt;"@
    } else if c == '>' {
        "&gt;"@
    } else if c == '"' {
        "&quot;"@
    } else if c == '\'' {
        "&#39;"@
    } else {
        seq![c]
    }
}

/// A text with every reserved character escaped.
pub open spec fn escape(s: Seq<char>) -> Seq<char>
    decreases s.len(),
{
    if s.len() == 0 {
        seq![]
    } else {
        escape(s.drop_last()) + escape_char(s.last())
    }
}

/// The decimal digits of `n`.
pub open spec fn decimal(n: nat) -> Seq<char>
    decreases n,
{
    if n < 10 {
        seq![(48 + n) as u8 as char]
    } else {
        decimal(n / 10) + seq![(48 + n % 10) as u8 as char]
    }
}

/// The HTML of one inline node. Text, code, urls and alt text are
/// escaped; raw markup is written as it stands.
pub open spec fn render_inline(node: InlineView) -> Seq<char>
    decreases node,
{
    match node {
        InlineView::Text(t) => escape(t),
        InlineView::Strong(children) => "<strong>"@ + render_inlines(children) + "</strong>"@,
        InlineView::Emphasis(children) => "<em>"@ + render_inlines(children) + "</em>"@,
        InlineView::Link { children, url } => "<a href=\""@ + escape(url) + "\">"@ + render_inlines(
            children,
        ) + "</a>"@,
        InlineView::Image { alt, url } => "<img src=\""@ + escape(url) + "\" alt=\""@ + escape(alt)
            + "\" />"@,
        InlineView::CodeSpan(code) => "<code>"@ + escape(code) + "</code>"@,
        InlineView::Strikethrough(children) => "<del>"@ + render_inlines(children) + "</del>"@,
        InlineView::RawHtml(html) => html,
    }
}

/// The HTML of a sequence of inline nodes, one after the other.
pub open spec fn render_inlines(nodes: Seq<InlineView>) -> Seq<char>
    decreases nodes,
{
    if nodes.len() == 0 {
        seq![]
    } else {
        render_inlines(nodes.drop_last()) + render_inline(nodes.last())
    }
}

/// The style attribute for an alignment.
pub open spec fn style_of(alignment: Alignment) -> Seq<char> {
    match alignment {
        Alignment::Left => " style=\"text-align: left\""@,
        Alignment::Center => " style=\"text-align: center\""@,
        Alignment::Right => " style=\"text-align: right\""@,
        Alignment::Unset => ""@,
    }
}

/// The alignment of column `i`; a column without one of its own has none.
pub open spec fn column_alignment(alignments: Seq<Alignment>, i: int) -> Alignment {
    if 0 <= i < alignments.len() {
        alignments[i]
    } else {
        Alignment::Unset
    }
}

/// The HTML of the first `n` cells of a row, each in the element `open`.
pub open spec fn render_cells(
    cells: Seq<Seq<InlineView>>,
    alignments: Seq<Alignment>,
    open: Seq<char>,
    close: Seq<char>,
    n: nat,
) -> Seq<char>
    decreases n,
{
    if n == 0 {
        seq![]
    } else {
        render_cells(cells, alignments, open, close, (n - 1) as nat) + open + style_of(
            column_alignment(alignments, n - 1),
        ) + ">"@ + render_inlines(cells[n - 1]) + close
    }
}

/// The HTML of the rows of a table body.
pub open spec fn render_rows(rows: Seq<Seq<Seq<InlineView>>>, alignments: Seq<Alignment>) -> Seq<
    char,
>
    decreases rows.len(),
{
    if rows.len() == 0 {
        seq![]
    } else {
        render_rows(rows.drop_last(), alignments) + "<tr>\n"@ + render_cells(
            rows.last(),
            alignments,
            "<td"@,
            "</td>\n"@,
            rows.last().len(),
        ) + "</tr>\n"@
    }
}

/// The HTML of one block.
pub open spec fn render_block(block: BlockView) -> Seq<char>
    decreases block,
{
    match block {
        BlockView::Heading { level, children } => "<h"@ + decimal(level as nat) + ">"@
            + render_inlines(children) + "</h"@ + decimal(level as nat) + ">"@,
        BlockView::Paragraph { children } => "<p>"@ + render_inlines(children) + "</p>"@,
        BlockView::BlockQuote(children) => "<blockquote>\n"@ + render_blocks(children)
            + "</blockquote>"@,
        BlockView::CodeBlock { code, language } => "<pre><code"@ + (if language.len() == 0 {
            ""@
        } else {
            " class=\"language-"@ + escape(language) + "\""@
        }) + ">"@ + escape(code) + "</code></pre>"@,
        BlockView::ThematicBreak => "<hr />"@,
        BlockView::List { ordered, items } => (if ordered {
            "<ol>\n"@
        } else {
            "<ul>\n"@
        }) + render_items(items) + (if ordered {
            "</ol>"@
        } else {
            "</ul>"@
        }),
        BlockView::Table { headers, rows, alignments } => "<table>\n<thead>\n<tr>\n"@
            + render_cells(headers, alignments, "<th"@, "</th>\n"@, headers.len())
            + "</tr>\n</thead>\n<tbody>\n"@ + render_rows(rows, alignments)
            + "</tbody>\n</table>"@,
    }
}

/// The HTML of a sequence of blocks, each followed by a line feed.
pub open spec fn render_blocks(blocks: Seq<BlockView>) -> Seq<char>
    decreases blocks,
{
    if blocks.len() == 0 {
        seq![]
    } else {
        render_blocks(blocks.drop_last()) + render_block(blocks.last()) + "\n"@
    }
}

/// The HTML of the items of a list.
pub open spec fn render_items(items: Seq<Seq<BlockView>>) -> Seq<char>
    decreases items,
{
    if items.len() == 0 {
        seq![]
    } else {
        render_items(items.drop_last()) + "<li>"@ + render_blocks(items.last()) + "</li>\n"@
    }
}

/// The renderer. It holds nothing: rendering is a function of the tree.
pub struct HtmlRenderer;

/// The string slice that a `Cow` holds.
pub fn cow_str<'b>(c: &'b Cow<'_, str>) -> (r: &'b str)
    ensures
        r@ == c@,
{
    match c {
        Cow::Borrowed(b) => b,
        Cow::Owned(o) => o.as_str(),
    }
}

/// Appends the decimal digits of `n`.
pub fn push_decimal(out: &mut String, n: u8)
    ensures
        final(out)@ == old(out)@ + decimal(n as nat),
{
    proof {
        reveal_with_fuel(decimal, 3);
    }
    if n >= 100 {
        out.push((48u8 + n / 100) as char);
    }
    if n >= 10 {
        out.push((48u8 + (n / 10) % 10) as char);
    }
    out.push((48u8 + n % 10) as char);
    proof {
        assert(out@ =~= old(out)@ + decimal(n as nat));
    }
}

impl HtmlRenderer {
    /// The HTML of a document: every block followed by a line feed.
    pub fn render(blocks: &[Block]) -> (r: String)
        ensures
            r@ == render_blocks(block_views(blocks@)),
    {
        let mut output = String::new();
        let mut i: usize = 0;
        let ghost views = block_views(blocks@);
        while i < blocks.len()
            invariant
                i <= blocks.len(),
                views == block_views(blocks@),
                output@ == render_blocks(views.take(i as int)),
            decreases blocks.len() - i,
        {
            let piece = Self::render_block(&blocks[i]);
            output.append(piece.as_str());
            output.append("\n");
            proof {
                assert(views.take(i + 1).drop_last() == views.take(i as int));
            }
            i += 1;
        }
        proof {
            assert(views.take(blocks.len() as int) == views);
        }
        output
    }

    /// A text with the five reserved characters escaped.
    pub fn escape_html(s: &str) -> (r: String)
        ensures
            r@ == escape(s@),
    {
        let chars = to_chars(s);
        let mut out = String::new();
        let mut i: usize = 0;
        while i < chars.len()
            invariant
                i <= chars.len(),
                chars@ == s@,
                out@ == escape(s@.take(i as int)),
            decreases chars.len() - i,
        {
            let c = chars[i];
            proof {
                assert(s@.take(i + 1).drop_last() == s@.take(i as int));
            }
            if c == '&' {
                out.append("&amp;");
            } else if c == '<' {
                out.append("&lt;");
            } else if c == '>' {
                out.append("&gt;");
            } else if c == '"' {
                out.append("&quot;");
            } else if c == '\'' {
                out.append("&#39;");
            } else {
                out.push(c);
            }
            i += 1;
        }
        proof {
            assert(s@.take(chars.len() as int) == s@);
        }
        out
    }

    /// The HTML of one inline node.
    pub fn render_inline(inline: &Inline) -> (r: String)
        ensures
            r@ == render_inline(inline@),
        decreases inline,
    {
        let mut out = String::new();
        match inline {
            Inline::Text(text) => {
                out = Self::escape_html(cow_str(text));
            },
            Inline::Strong(children) => {
                out.append("<strong>");
                out.append(Self::render_inlines(children).as_str());
                out.append("</strong>");
            },
            Inline::Emphasis(children) => {
                out.append("<em>");
                out.append(Self::render_inlines(children).as_str());
                out.append("</em>");
            },
            Inline::Link { children, url } => {
                out.append("<a href=\"");
                out.append(Self::escape_html(cow_str(url)).as_str());
                out.append("\">");
                out.append(Self::render_inlines(children).as_str());
                out.append("</a>");
            },
            Inline::Image { alt, url } => {
                out.append("<img src=\"");
                out.append(Self::escape_html(cow_str(url)).as_str());
                out.append("\" alt=\"");
                out.append(Self::escape_html(cow_str(alt)).as_str());
                out.append("\" />");
            },
            Inline::CodeSpan(code) => {
                out.append("<code>");
                out.append(Self::escape_html(cow_str(code)).as_str());
                out.append("</code>");
            },
            Inline::Strikethrough(children) => {
                out.append("<del>");
                out.append(Self::render_inlines(children).as_str());
                out.append("</del>");
            },
            Inline::RawHtml(html) => {
                out.append(cow_str(html));
            },
        }
        proof {
            assert(out@ =~= render_inline(inline@));
        }
        out
    }

    /// The HTML of a sequence of inline nodes.
    pub fn render_inlines(inlines: &Vec<Inline>) -> (r: String)
        ensures
            r@ == render_inlines(inline_views(inlines@)),
        decreases inlines,
    {
        let mut output = String::new();
        let mut i: usize = 0;
        let ghost views = inline_views(inlines@);
        while i < inlines.len()
            invariant
                i <= inlines.len(),
                views == inline_views(inlines@),
                output@ == render_inlines(views.take(i as int)),
            decreases inlines.len() - i,
        {
            proof {
                vstd::std_specs::vec::axiom_vec_index_decreases(*inlines, i as int);
            }
            let piece = Self::render_inline(&inlines[i]);
            output.append(piece.as_str());
            proof {
                assert(views.take(i + 1).drop_last() == views.take(i as int));
            }
            i += 1;
        }
        proof {
            assert(views.take(inlines.len() as int) == views);
        }
        output
    }
}

impl HtmlRenderer {
    /// The HTML of the cells of one table row, each in the element `open`.
    pub fn render_cells(
        cells: &Vec<Vec<Inline>>,
        alignments: &Vec<Alignment>,
        open: &str,
        close: &str,
    ) -> (r: String)
        ensures
            r@ == render_cells(cell_views(cells@), alignments@, open@, close@, cells@.len()),
    {
        let mut out = String::new();
        let mut i: usize = 0;
        let ghost views = cell_views(cells@);
        while i < cells.len()
            invariant
                i <= cells.len(),
                views == cell_views(cells@),
                out@ == render_cells(views, alignments@, open@, close@, i as nat),
            decreases cells.len() - i,
        {
            let alignment = if i < alignments.len() {
                alignments[i]
            } else {
                Alignment::Unset
            };
            out.append(open);
            match alignment {
                Alignment::Left => {
                    out.append(" style=\"text-align: left\"");
                },
                Alignment::Center => {
                    out.append(" style=\"text-align: center\"");
                },
                Alignment::Right => {
                    out.append(" style=\"text-align: right\"");
                },
                Alignment::Unset => {
                    proof {
                        reveal_strlit("");
                    }
                },
            }
            out.append(">");
            out.append(Self::render_inlines(&cells[i]).as_str());
            out.append(close);
            i += 1;
        }
        out
    }

    /// The HTML of the rows of a table body.
    pub fn render_rows(rows: &Vec<Vec<Vec<Inline>>>, alignments: &Vec<Alignment>) -> (r: String)
        ensures
            r@ == render_rows(row_views(rows@), alignments@),
    {
        let mut out = String::new();
        let mut i: usize = 0;
        let ghost views = row_views(rows@);
        while i < rows.len()
            invariant
                i <= rows.len(),
                views == row_views(rows@),
                out@ == render_rows(views.take(i as int), alignments@),
            decreases rows.len() - i,
        {
            out.append("<tr>\n");
            out.append(Self::render_cells(&rows[i], alignments, "<td", "</td>\n").as_str());
            out.append("</tr>\n");
            proof {
                assert(views.take(i + 1).drop_last() == views.take(i as int));
            }
            i += 1;
        }
        proof {
            assert(views.take(rows.len() as int) == views);
        }
        out
    }

    /// The HTML of one block.
    pub fn render_block(block: &Block) -> (r: String)
        ensures
            r@ == render_block(block@),
        decreases block,
    {
        let mut out = String::new();
        match block {
            Block::Heading { level, children } => {
                out.append("<h");
                push_decimal(&mut out, *level);
                out.append(">");
                out.append(Self::render_inlines(children).as_str());
                out.append("</h");
                push_decimal(&mut out, *level);
                out.append(">");
            },
            Block::Paragraph { children } => {
                out.append("<p>");
                out.append(Self::render_inlines(children).as_str());
                out.append("</p>");
            },
            Block::BlockQuote(children) => {
                out.append("<blockquote>\n");
                out.append(Self::render_blocks(children).as_str());
                out.append("</blockquote>");
            },
            Block::CodeBlock { code, language } => {
                out.append("<pre><code");
                let lang = cow_str(language);
                if lang.unicode_len() == 0 {
                    proof {
                        reveal_strlit("");
                    }
                } else {
                    out.append(" class=\"language-");
                    out.append(Self::escape_html(lang).as_str());
                    out.append("\"");
                }
                out.append(">");
                out.append(Self::escape_html(cow_str(code)).as_str());
                out.append("</code></pre>");
            },
            Block::ThematicBreak => {
                out.append("<hr />");
            },
            Block::List { ordered, items } => {
                if *ordered {
                    out.append("<ol>\n");
                } else {
                    out.append("<ul>\n");
                }
                out.append(Self::render_items(items).as_str());
                if *ordered {
                    out.append("</ol>");
                } else {
                    out.append("</ul>");
                }
            },
            Block::Table { headers, rows, alignments } => {
                out.append("<table>\n<thead>\n<tr>\n");
                out.append(Self::render_cells(headers, alignments, "<th", "</th>\n").as_str());
                out.append("</tr>\n</thead>\n<tbody>\n");
                out.append(Self::render_rows(rows, alignments).as_str());
                out.append("</tbody>\n</table>");
            },
        }
        proof {
            assert(out@ =~= render_block(block@));
        }
        out
    }

    /// The HTML of a sequence of blocks, each followed by a line feed.
    pub fn render_blocks(blocks: &Vec<Block>) -> (r: String)
        ensures
            r@ == render_blocks(block_views(blocks@)),
        decreases blocks,
    {
        let mut output = String::new();
        let mut i: usize = 0;
        let ghost views = block_views(blocks@);
        while i < blocks.len()
            invariant
                i <= blocks.len(),
                views == block_views(blocks@),
                output@ == render_blocks(views.take(i as int)),
            decreases blocks.len() - i,
        {
            proof {
                vstd::std_specs::vec::axiom_vec_index_decreases(*blocks, i as int);
            }
            let piece = Self::render_block(&blocks[i]);
            output.append(piece.as_str());
            output.append("\n");
            proof {
                assert(views.take(i + 1).drop_last() == views.take(i as int));
            }
            i += 1;
        }
        proof {
            assert(views.take(blocks.len() as int) == views);
        }
        output
    }

    /// The HTML of the items of a list.
    pub fn render_items(items: &Vec<ListItem>) -> (r: String)
        ensures
            r@ == render_items(item_views(items@)),
        decreases items,
    {
        let mut out = String::new();
        let mut i: usize = 0;
        let ghost views = item_views(items@);
        while i < items.len()
            invariant
                i <= items.len(),
                views == item_views(items@),
                out@ == render_items(views.take(i as int)),
            decreases items.len() - i,
        {
            proof {
                vstd::std_specs::vec::axiom_vec_index_decreases(*items, i as int);
            }
            out.append("<li>");
            out.append(Self::render_blocks(&items[i].children).as_str());
            out.append("</li>\n");
            proof {
                assert(views.take(i + 1).drop_last() == views.take(i as int));
            }
            i += 1;
        }
        proof {
            assert(views.take(items.len() as int) == views);
        }
        out
    }
}

/// Renders the document tree of `text` and parses what was rendered as a
/// text of its own. This is defined for every text: whatever the renderer
/// writes, the parser reads without failing.
pub fn reparse_rendered(text: &str) -> (r: Vec<Block<'static>>)
    ensures
        block_views(r@) == parse_blocks(render_blocks(parse_blocks(text@))),
{
    let chars = to_chars(text);
    let tree = parse_text(chars.as_slice());
    let html = HtmlRenderer::render(tree.as_slice());
    let rendered = to_chars(html.as_str());
    parse_text(rendered.as_slice())
}

} // verus!
