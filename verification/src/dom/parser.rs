//! The block dispatcher: classifies the lines of a document, groups them
//! into blocks and builds the document tree.

use crate::dom::ast::{all_levels_valid, block_views, cell_views, inline_views, levels_valid,
    row_views, Alignment, Block, BlockView, Inline, InlineView};
use crate::dom::inline_parser::{is_char, parse_inlines, InlineParser};
use crate::dom::list_parser::{lemma_levels_concat, lemma_lists_levels, lines_left, list_marker,
    lists_from, ListParser};
use crate::text::{char_is_whitespace, contains_char, count_indent, count_leading, count_trailing,
    find_char, from_chars, indent_of, index_of, is_not, is_whitespace, join_lines,
    join_lines_chars, lemma_count_leading_bound, lemma_count_leading_is,
    lemma_count_trailing_bound, lemma_count_trailing_is, slices_view, split_lines,
    split_lines_chars, strip_cr, to_chars, trim, trim_chars, trim_start, vecs_view};
use std::borrow::Cow;
use vstd::prelude::*;

verus! {

/// Whether a trimmed line opens or closes a fenced code block.
pub open spec fn is_fence(t: Seq<char>) -> bool {
    t.len() >= 3 && t[0] == '`' && t[1] == '`' && t[2] == '`'
}

/// Number of occurrences of `c` in `s`.
pub open spec fn count_char(s: Seq<char>, c: char) -> nat
    decreases s.len(),
{
    if s.len() == 0 {
        0
    } else {
        count_char(s.drop_last(), c) + if s.last() == c {
            1nat
        } else {
            0nat
        }
    }
}

/// Whether a line is a thematic break: it begins with `-`, `*` or `_`,
/// holds nothing but that character and whitespace, and holds the
/// character at least three times.
pub open spec fn is_break(line: Seq<char>) -> bool {
    &&& line.len() > 0
    &&& line[0] == '-' || line[0] == '*' || line[0] == '_'
    &&& forall|i: int|
        0 <= i < line.len() ==> #[trigger] line[i] == line[0] || is_whitespace(line[i])
    &&& count_char(line, line[0]) >= 3
}

/// The pieces of `s` between occurrences of `c`; one piece more than
/// there are occurrences.
pub open spec fn split_on(s: Seq<char>, c: char) -> Seq<Seq<char>>
    decreases s.len(),
{
    let k = index_of(s, c);
    if k < s.len() {
        seq![s.take(k as int)] + split_on(s.skip(k as int + 1), c)
    } else {
        seq![s]
    }
}

/// A trimmed table line without one leading and one trailing `|`.
pub open spec fn row_content(t: Seq<char>) -> Seq<char> {
    let a = if t.len() > 0 && t[0] == '|' {
        t.skip(1)
    } else {
        t
    };
    if a.len() > 0 && a.last() == '|' {
        a.drop_last()
    } else {
        a
    }
}

/// The cells of a table line, untrimmed.
pub open spec fn split_row(line: Seq<char>) -> Seq<Seq<char>> {
    split_on(row_content(trim(line)), '|')
}

/// Whether a cell of a delimiter row is well formed: made of `-`, `:` and
/// spaces only, and not of spaces alone.
pub open spec fn is_delimiter_cell(cell: Seq<char>) -> bool {
    trim(cell).len() > 0 && forall|i: int|
        0 <= i < cell.len() ==> #[trigger] cell[i] == '-' || cell[i] == ':' || cell[i] == ' '
}

/// Whether a line is the delimiter row of a table: each of its cells is a
/// well-formed delimiter cell.
pub open spec fn is_delimiter_row(line: Seq<char>) -> bool {
    forall|k: int|
        0 <= k < split_row(line).len() ==> is_delimiter_cell(#[trigger] split_row(line)[k])
}

/// The alignment that a delimiter cell asks for, by the colons at the ends
/// of its trimmed text.
pub open spec fn alignment_of(cell: Seq<char>) -> Alignment {
    let s = trim(cell);
    let left = s.len() > 0 && s[0] == ':';
    let right = s.len() > 0 && s.last() == ':';
    if left && right {
        Alignment::Center
    } else if right {
        Alignment::Right
    } else if left {
        Alignment::Left
    } else {
        Alignment::Unset
    }
}

/// The alignments that a delimiter row asks for, column by column.
pub open spec fn row_alignments(line: Seq<char>) -> Seq<Alignment> {
    Seq::new(split_row(line).len(), |k: int| alignment_of(split_row(line)[k]))
}

/// The cells of a table line, each trimmed and parsed as inline text.
pub open spec fn table_row(line: Seq<char>) -> Seq<Seq<InlineView>> {
    Seq::new(split_row(line).len(), |k: int| parse_inlines(trim(split_row(line)[k])))
}

/// The predicate "is `#`".
pub open spec fn hash() -> spec_fn(char) -> bool {
    |c: char| c == '#'
}

/// Number of `#` at the front of a trimmed line.
pub open spec fn heading_level(t: Seq<char>) -> nat {
    count_leading(t, hash())
}

/// Whether a trimmed line is a heading: one to six `#`, then the end of
/// the line, a space or a tab.
pub open spec fn is_heading(t: Seq<char>) -> bool {
    let k = heading_level(t) as int;
    1 <= k <= 6 && (k == t.len() || t[k] == ' ' || t[k] == '\t')
}

/// The heading that a trimmed heading line stands for.
pub open spec fn heading_of(t: Seq<char>) -> BlockView {
    let k = heading_level(t);
    BlockView::Heading { level: k as u8, children: parse_inlines(trim(t.skip(k as int))) }
}

/// A heading line with `k` markers, one to six, is a heading of level
/// `k`; a line without a marker is no heading, and neither is one with
/// more than six.
pub proof fn lemma_heading_level(t: Seq<char>)
    ensures
        is_heading(t) ==> 1 <= heading_level(t) <= 6 && heading_of(t) == (BlockView::Heading {
            level: heading_level(t) as u8,
            children: parse_inlines(trim(t.skip(heading_level(t) as int))),
        }),
        heading_level(t) == 0 || heading_level(t) > 6 ==> !is_heading(t),
{
}

/// What a line is when no block is open before it.
pub enum LineKind {
    Fence,
    Table,
    Break,
    ListStart,
    Quote,
    Blank,
    Heading,
    Text,
}

/// The kind of line `idx`, by the first rule that applies: a code fence; a
/// table header, which holds `|` and is followed by a delimiter row; a
/// thematic break; a list item; a block quote; a blank line; a heading;
/// and else paragraph text.
pub open spec fn line_kind(lines: Seq<Seq<char>>, idx: int) -> LineKind {
    let t = trim(lines[idx]);
    if is_fence(t) {
        LineKind::Fence
    } else if contains_char(t, '|') && idx + 1 < lines.len() && is_delimiter_row(lines[idx + 1]) {
        LineKind::Table
    } else if is_break(lines[idx]) {
        LineKind::Break
    } else if list_marker(t) is Some {
        LineKind::ListStart
    } else if t.len() > 0 && t[0] == '>' {
        LineKind::Quote
    } else if t.len() == 0 {
        LineKind::Blank
    } else if is_heading(t) {
        LineKind::Heading
    } else {
        LineKind::Text
    }
}

/// Whether line `idx` goes on with a list that is open before it: it is no
/// fence, table header or thematic break, does not begin with `#`, `>` or
/// a backtick, and is blank, a list item, or indented by two spaces or
/// more.
pub open spec fn continues_list(lines: Seq<Seq<char>>, idx: int) -> bool {
    let t = trim(lines[idx]);
    let kind = line_kind(lines, idx);
    &&& kind !is Fence && kind !is Table && kind !is Break
    &&& !(t.len() > 0 && (t[0] == '#' || t[0] == '>' || t[0] == '`'))
    &&& t.len() == 0 || list_marker(t) is Some || indent_of(lines[idx]) >= 2
}

/// The predicate "goes on with a list".
pub open spec fn list_line() -> spec_fn(Seq<Seq<char>>, int) -> bool {
    |lines: Seq<Seq<char>>, idx: int| continues_list(lines, idx)
}

/// The predicate "is paragraph text".
pub open spec fn text_line() -> spec_fn(Seq<Seq<char>>, int) -> bool {
    |lines: Seq<Seq<char>>, idx: int| line_kind(lines, idx) is Text
}

/// The predicate "is a line of a block quote".
pub open spec fn quote_line() -> spec_fn(Seq<Seq<char>>, int) -> bool {
    |lines: Seq<Seq<char>>, idx: int| line_kind(lines, idx) is Quote
}

/// The predicate "is no code fence".
pub open spec fn code_line() -> spec_fn(Seq<Seq<char>>, int) -> bool {
    |lines: Seq<Seq<char>>, idx: int| !is_fence(trim(lines[idx]))
}

/// The predicate "holds a `|`".
pub open spec fn row_line() -> spec_fn(Seq<Seq<char>>, int) -> bool {
    |lines: Seq<Seq<char>>, idx: int| contains_char(trim(lines[idx]), '|')
}

/// Whether line `idx` satisfies `p`.
pub open spec fn holds(
    p: spec_fn(Seq<Seq<char>>, int) -> bool,
    lines: Seq<Seq<char>>,
    idx: int,
) -> bool {
    p(lines, idx)
}

/// The first line at or after `idx` that does not satisfy `p`, or the
/// number of lines.
pub open spec fn run_end(
    lines: Seq<Seq<char>>,
    idx: int,
    p: spec_fn(Seq<Seq<char>>, int) -> bool,
) -> int
    decreases lines.len() - idx,
{
    if 0 <= idx < lines.len() && holds(p, lines, idx) {
        run_end(lines, idx + 1, p)
    } else {
        idx
    }
}

/// A run ends within the lines, every line of it satisfies the predicate,
/// and the line after it does not.
pub proof fn lemma_run_end(
    lines: Seq<Seq<char>>,
    idx: int,
    p: spec_fn(Seq<Seq<char>>, int) -> bool,
)
    requires
        0 <= idx <= lines.len(),
    ensures
        idx <= run_end(lines, idx, p) <= lines.len(),
        forall|j: int| idx <= j < run_end(lines, idx, p) ==> #[trigger] holds(p, lines, j),
        run_end(lines, idx, p) < lines.len() ==> !holds(p, lines, run_end(lines, idx, p)),
    decreases lines.len() - idx,
{
    if idx < lines.len() && holds(p, lines, idx) {
        lemma_run_end(lines, idx + 1, p);
    }
}

/// Moving on from a line that satisfies `p` does not change where the run
/// ends.
pub proof fn lemma_run_end_step(
    lines: Seq<Seq<char>>,
    from: int,
    j: int,
    p: spec_fn(Seq<Seq<char>>, int) -> bool,
)
    requires
        0 <= from <= j <= lines.len(),
        forall|k: int| from <= k < j ==> #[trigger] holds(p, lines, k),
    ensures
        run_end(lines, from, p) == run_end(lines, j, p),
    decreases j - from,
{
    if from < j {
        lemma_run_end_step(lines, from + 1, j, p);
    }
}

/// The text of a quoted line: the trimmed line without its `>` and without
/// one space after it.
pub open spec fn quote_content(line: Seq<char>) -> Seq<char> {
    let t = trim(line);
    let a = if t.len() > 0 && t[0] == '>' {
        t.skip(1)
    } else {
        t
    };
    if a.len() > 0 && a[0] == ' ' {
        a.skip(1)
    } else {
        a
    }
}

/// The lines `a..b`, each trimmed.
pub open spec fn trimmed_lines(lines: Seq<Seq<char>>, a: int, b: int) -> Seq<Seq<char>> {
    Seq::new((b - a) as nat, |k: int| trim(lines[a + k]))
}

/// The lines `a..b`, each without its quote marker.
pub open spec fn quote_lines(lines: Seq<Seq<char>>, a: int, b: int) -> Seq<Seq<char>> {
    Seq::new((b - a) as nat, |k: int| quote_content(lines[a + k]))
}

/// The lines `a..b`, each as a table row.
pub open spec fn table_rows(lines: Seq<Seq<char>>, a: int, b: int) -> Seq<Seq<Seq<InlineView>>> {
    Seq::new((b - a) as nat, |k: int| table_row(lines[a + k]))
}

/// The language label on a trimmed fence line.
pub open spec fn fence_language(t: Seq<char>) -> Seq<char> {
    trim(t.skip(3))
}

/// Size of a list of lines: their characters and one for each line.
pub open spec fn size_of(lines: Seq<Seq<char>>) -> nat
    decreases lines.len(),
{
    if lines.len() == 0 {
        0
    } else {
        size_of(lines.drop_last()) + lines.last().len() + 1
    }
}

/// Trimming does not lengthen a text.
pub proof fn lemma_trim_len(s: Seq<char>)
    ensures
        trim(s).len() <= s.len(),
        trim_start(s).len() <= s.len(),
{
    lemma_count_leading_bound(s, |c: char| is_whitespace(c));
    lemma_count_trailing_bound(trim_start(s), |c: char| is_whitespace(c));
}

/// The text of a quoted line is shorter than the line.
pub proof fn lemma_quote_content_len(line: Seq<char>)
    ensures
        quote_content(line).len() <= line.len(),
        trim(line).len() > 0 && trim(line)[0] == '>' ==> quote_content(line).len() < line.len(),
{
    lemma_trim_len(line);
}

/// A line more adds its length and one to the size.
pub proof fn lemma_size_push(lines: Seq<Seq<char>>, line: Seq<char>)
    ensures
        size_of(lines.push(line)) == size_of(lines) + line.len() + 1,
{
    assert(lines.push(line).drop_last() == lines);
}

/// The size of two lists of lines together is the sum of their sizes.
pub proof fn lemma_size_concat(a: Seq<Seq<char>>, b: Seq<Seq<char>>)
    ensures
        size_of(a + b) == size_of(a) + size_of(b),
    decreases b.len(),
{
    if b.len() == 0 {
        assert(a + b == a);
    } else {
        lemma_size_concat(a, b.drop_last());
        assert((a + b).drop_last() == a + b.drop_last());
    }
}

/// A list of lines that is line by line no longer than another is no
/// larger, and smaller if its first line is shorter.
pub proof fn lemma_size_le(a: Seq<Seq<char>>, b: Seq<Seq<char>>)
    requires
        a.len() == b.len(),
        forall|k: int| 0 <= k < a.len() ==> (#[trigger] a[k]).len() <= b[k].len(),
    ensures
        size_of(a) <= size_of(b),
        a.len() > 0 && a[0].len() < b[0].len() ==> size_of(a) < size_of(b),
    decreases a.len(),
{
    if a.len() > 0 {
        let a1 = a.drop_last();
        let b1 = b.drop_last();
        assert forall|k: int| 0 <= k < a1.len() implies (#[trigger] a1[k]).len() <= b1[k].len() by {
            assert(a1[k] == a[k]);
        }
        lemma_size_le(a1, b1);
        if a1.len() > 0 {
            assert(a1[0] == a[0]);
            assert(b1[0] == b[0]);
        }
    }
}

/// A part of a list of lines is no larger than the whole.
pub proof fn lemma_size_subrange(lines: Seq<Seq<char>>, a: int, b: int)
    requires
        0 <= a <= b <= lines.len(),
    ensures
        size_of(lines.subrange(a, b)) <= size_of(lines),
{
    assert(lines == lines.subrange(0, a) + lines.subrange(a, b) + lines.subrange(
        b,
        lines.len() as int,
    ));
    lemma_size_concat(lines.subrange(0, a), lines.subrange(a, b));
    lemma_size_concat(
        lines.subrange(0, a) + lines.subrange(a, b),
        lines.subrange(b, lines.len() as int),
    );
}

/// Lines joined are one character shorter than their size.
pub proof fn lemma_join_len(lines: Seq<Seq<char>>)
    ensures
        lines.len() > 0 ==> join_lines(lines).len() + 1 == size_of(lines),
        lines.len() == 0 ==> join_lines(lines).len() == 0,
    decreases lines.len(),
{
    if lines.len() == 1 {
        assert(lines.drop_last().len() == 0);
        assert(size_of(lines.drop_last()) == 0);
    } else if lines.len() > 1 {
        lemma_join_len(lines.drop_last());
    }
}

/// The lines of a text are no larger than the text and one.
pub proof fn lemma_split_size(s: Seq<char>)
    ensures
        size_of(split_lines(s)) <= s.len() + 1,
    decreases s.len(),
{
    if s.len() > 0 {
        let k = index_of(s, '\n');
        lemma_count_leading_bound(s, is_not('\n'));
        if k < s.len() {
            let first = seq![strip_cr(s.take(k as int))];
            let rest = split_lines(s.skip(k as int + 1));
            lemma_split_size(s.skip(k as int + 1));
            lemma_size_concat(first, rest);
            lemma_size_push(Seq::empty(), strip_cr(s.take(k as int)));
            assert(first == Seq::<Seq<char>>::empty().push(strip_cr(s.take(k as int))));
        } else {
            lemma_size_push(Seq::empty(), strip_cr(s));
            assert(seq![strip_cr(s)] == Seq::<Seq<char>>::empty().push(strip_cr(s)));
        }
    }
}

/// The text inside a block quote is smaller than the lines that hold it.
pub proof fn lemma_quote_shrinks(lines: Seq<Seq<char>>, a: int, b: int)
    requires
        0 <= a < b <= lines.len(),
        trim(lines[a]).len() > 0,
        trim(lines[a])[0] == '>',
    ensures
        size_of(split_lines(join_lines(quote_lines(lines, a, b)))) < size_of(lines),
{
    let q = quote_lines(lines, a, b);
    let sub = lines.subrange(a, b);
    assert forall|k: int| 0 <= k < q.len() implies (#[trigger] q[k]).len() <= sub[k].len() by {
        lemma_quote_content_len(lines[a + k]);
    }
    lemma_quote_content_len(lines[a]);
    lemma_size_le(q, sub);
    lemma_size_subrange(lines, a, b);
    lemma_join_len(q);
    lemma_split_size(join_lines(q));
}

/// The line after the block that line `idx` opens. A code block runs to
/// its closing fence, which it takes, or to the end; a table takes its
/// header, its delimiter row and the lines after them that hold `|`; a
/// list, a block quote and a paragraph take the lines that go on with
/// them; any other block is the line alone.
pub open spec fn group_end(lines: Seq<Seq<char>>, idx: int) -> int {
    match line_kind(lines, idx) {
        LineKind::Fence => run_end(lines, idx + 1, code_line()) + 1,
        LineKind::Table => run_end(lines, idx + 2, row_line()),
        LineKind::ListStart => run_end(lines, idx + 1, list_line()),
        LineKind::Quote => run_end(lines, idx + 1, quote_line()),
        LineKind::Text => run_end(lines, idx + 1, text_line()),
        _ => idx + 1,
    }
}

/// A group holds at least its first line; only a code block, with its
/// closing fence counted, may seem to reach one line past the end.
pub proof fn lemma_group_end(lines: Seq<Seq<char>>, idx: int)
    requires
        0 <= idx < lines.len(),
    ensures
        idx < group_end(lines, idx) <= lines.len() + 1,
        !(line_kind(lines, idx) is Fence) ==> group_end(lines, idx) <= lines.len(),
{
    lemma_run_end(lines, idx + 1, code_line());
    lemma_run_end(lines, idx + 1, list_line());
    lemma_run_end(lines, idx + 1, quote_line());
    lemma_run_end(lines, idx + 1, text_line());
    if idx + 2 <= lines.len() {
        lemma_run_end(lines, idx + 2, row_line());
    }
}

/// The blocks that the group of lines opened by line `idx` stands for.
/// Code is the lines between the fences joined as they stand; a paragraph
/// is the inline text of its trimmed lines joined; a block quote holds the
/// blocks of its lines without their markers; a list group is handed to the
/// list decomposer and may give several lists; a blank line gives nothing.
pub open spec fn group_blocks(lines: Seq<Seq<char>>, idx: int) -> Seq<BlockView>
    decreases size_of(lines), 0nat,
{
    let t = trim(lines[idx]);
    let end = group_end(lines, idx);
    if idx < 0 || idx >= lines.len() {
        seq![]
    } else {
        match line_kind(lines, idx) {
            LineKind::Fence => seq![
                BlockView::CodeBlock {
                    code: join_lines(lines.subrange(idx + 1, end - 1)),
                    language: fence_language(t),
                },
            ],
            LineKind::Table => seq![
                BlockView::Table {
                    headers: table_row(lines[idx]),
                    rows: table_rows(lines, idx + 2, end),
                    alignments: row_alignments(lines[idx + 1]),
                },
            ],
            LineKind::Break => seq![BlockView::ThematicBreak],
            LineKind::ListStart => lists_from(lines.subrange(idx, end), 0),
            LineKind::Quote => {
                proof {
                    lemma_group_end(lines, idx);
                    lemma_quote_shrinks(lines, idx, end);
                }
                seq![
                    BlockView::BlockQuote(
                        blocks_at(split_lines(join_lines(quote_lines(lines, idx, end))), 0),
                    ),
                ]
            },
            LineKind::Blank => seq![],
            LineKind::Heading => seq![heading_of(t)],
            LineKind::Text => seq![
                BlockView::Paragraph {
                    children: parse_inlines(join_lines(trimmed_lines(lines, idx, end))),
                },
            ],
        }
    }
}

/// The blocks of `lines` from line `idx` on: group after group.
pub open spec fn blocks_at(lines: Seq<Seq<char>>, idx: int) -> Seq<BlockView>
    decreases size_of(lines), 1 + lines_left(lines, idx),
{
    if idx < 0 || idx >= lines.len() {
        seq![]
    } else {
        proof {
            lemma_group_end(lines, idx);
        }
        group_blocks(lines, idx) + blocks_at(lines, group_end(lines, idx))
    }
}

/// The document tree of a text.
pub open spec fn parse_blocks(text: Seq<char>) -> Seq<BlockView> {
    blocks_at(split_lines(text), 0)
}

/// Every heading among the blocks of a group, at any depth, has a level
/// from one to six.
pub proof fn lemma_group_levels(lines: Seq<Seq<char>>, idx: int)
    ensures
        all_levels_valid(group_blocks(lines, idx)),
    decreases size_of(lines), 0nat,
{
    if 0 <= idx < lines.len() {
        let end = group_end(lines, idx);
        lemma_group_end(lines, idx);
        match line_kind(lines, idx) {
            LineKind::ListStart => {
                lemma_lists_levels(lines.subrange(idx, end), 0);
            },
            LineKind::Quote => {
                lemma_quote_shrinks(lines, idx, end);
                lemma_blocks_levels(split_lines(join_lines(quote_lines(lines, idx, end))), 0);
            },
            LineKind::Heading => {
                lemma_heading_level(trim(lines[idx]));
            },
            _ => {},
        }
    }
}

/// Every heading in a document tree, at any depth, has a level from one
/// to six.
pub proof fn lemma_blocks_levels(lines: Seq<Seq<char>>, idx: int)
    ensures
        all_levels_valid(blocks_at(lines, idx)),
    decreases size_of(lines), 1 + lines_left(lines, idx),
{
    if 0 <= idx < lines.len() {
        lemma_group_end(lines, idx);
        lemma_group_levels(lines, idx);
        lemma_blocks_levels(lines, group_end(lines, idx));
        lemma_levels_concat(group_blocks(lines, idx), blocks_at(lines, group_end(lines, idx)));
    }
}

/// The eager parser over one document.
pub struct Parser<'a> {
    input: &'a str,
}

/// Inline nodes of a piece of text held as characters.
pub fn parse_inline_text(text: &[char]) -> (r: Vec<Inline<'static>>)
    ensures
        inline_views(r@) == parse_inlines(text@),
{
    let mut parser = InlineParser::over(text, 0, text.len());
    proof {
        assert(text@.subrange(0, text@.len() as int) == text@);
    }
    parser.parse()
}

/// A string of its own that holds the given characters.
pub fn owned_text(text: &[char]) -> (r: Cow<'static, str>)
    ensures
        r@ == text@,
{
    Cow::Owned(from_chars(text))
}

impl<'a> Parser<'a> {
    /// Whether a trimmed line is a code fence.
    pub fn is_fence_line(t: &[char]) -> (r: bool)
        ensures
            r == is_fence(t@),
    {
        t.len() >= 3 && t[0] == '`' && t[1] == '`' && t[2] == '`'
    }

    /// Number of leading spaces of a line.
    pub fn count_indent(line: &[char]) -> (k: usize)
        ensures
            k == indent_of(line@),
    {
        count_indent(line)
    }

    /// The list marker at the front of a trimmed line: whether it is an
    /// ordered one, and where the text of the item begins.
    pub fn parse_list_marker(t: &[char]) -> (r: Option<(bool, usize)>)
        ensures
            match r {
                Some((ordered, start)) => list_marker(t@) == Some((ordered, start as int)) && 1
                    <= start <= t.len(),
                None => list_marker(t@) is None,
            },
    {
        ListParser::parse_list_marker(t)
    }

    /// Whether a line is a thematic break.
    pub fn is_thematic_break(line: &[char]) -> (r: bool)
        ensures
            r == is_break(line@),
    {
        let n = line.len();
        if n == 0 {
            return false;
        }
        let marker = line[0];
        if !(marker == '-' || marker == '*' || marker == '_') {
            return false;
        }
        let mut cnt: usize = 0;
        let mut i: usize = 0;
        proof {
            assert(line@.take(0).len() == 0);
        }
        while i < n
            invariant
                n == line.len(),
                0 <= i <= n,
                marker == line@[0],
                cnt <= i,
                cnt == count_char(line@.take(i as int), marker),
                forall|j: int|
                    0 <= j < i ==> #[trigger] line@[j] == marker || is_whitespace(line@[j]),
            decreases n - i,
        {
            let c = line[i];
            proof {
                assert(line@.take(i + 1).drop_last() == line@.take(i as int));
            }
            if c == marker {
                cnt += 1;
            } else if !char_is_whitespace(c) {
                return false;
            }
            i += 1;
        }
        proof {
            assert(line@.take(n as int) == line@);
        }
        cnt >= 3
    }

    /// The cells of a table line, untrimmed: the trimmed line without one
    /// leading and one trailing `|`, cut at every `|`.
    pub fn split_table_row<'b>(line: &'b [char]) -> (r: Vec<&'b [char]>)
        ensures
            slices_view(r@) == split_row(line@),
            r@.len() >= 1,
    {
        let t = trim_chars(line);
        let a = if t.len() > 0 && t[0] == '|' {
            vstd::slice::slice_subrange(t, 1, t.len())
        } else {
            t
        };
        let content = if a.len() > 0 && a[a.len() - 1] == '|' {
            vstd::slice::slice_subrange(a, 0, a.len() - 1)
        } else {
            a
        };
        let n = content.len();
        let mut out: Vec<&'b [char]> = Vec::new();
        let mut start: usize = 0;
        let mut done = false;
        proof {
            assert(content@.skip(0) == content@);
            assert(slices_view(out@) + split_on(content@, '|') == split_on(content@, '|'));
        }
        while !done
            invariant
                n == content.len(),
                start <= n,
                !done ==> slices_view(out@) + split_on(content@.skip(start as int), '|')
                    == split_on(content@, '|'),
                done ==> slices_view(out@) == split_on(content@, '|'),
                done ==> out@.len() >= 1,
            decreases n - start + (if done { 0int } else { 1int }),
        {
            let k = find_char(content, start, '|');
            let piece = vstd::slice::slice_subrange(content, start, k);
            let ghost rest = content@.skip(start as int);
            let ghost before = slices_view(out@);
            out.push(piece);
            proof {
                assert(slices_view(out@) == before.push(piece@));
                if k < n {
                    assert(rest.take(k - start) == content@.subrange(start as int, k as int));
                    assert(rest.skip(k - start + 1) == content@.skip(k + 1));
                    assert(before.push(piece@) + split_on(content@.skip(k + 1), '|') == before
                        + split_on(rest, '|'));
                } else {
                    assert(rest == content@.subrange(start as int, k as int));
                    assert(before.push(piece@) == before + split_on(rest, '|'));
                }
            }
            if k < n {
                start = k + 1;
            } else {
                done = true;
            }
        }
        out
    }

    /// Whether a line is the delimiter row of a table.
    pub fn is_table_delimiter(line: &[char]) -> (r: bool)
        ensures
            r == is_delimiter_row(line@),
    {
        let cells = Self::split_table_row(line);
        let ghost spec_cells = split_row(line@);
        let mut k: usize = 0;
        while k < cells.len()
            invariant
                k <= cells.len(),
                slices_view(cells@) == spec_cells,
                spec_cells == split_row(line@),
                forall|j: int| 0 <= j < k ==> is_delimiter_cell(#[trigger] spec_cells[j]),
            decreases cells.len() - k,
        {
            let cell = cells[k];
            assert(cell@ == spec_cells[k as int]);
            if trim_chars(cell).len() == 0 {
                assert(!is_delimiter_cell(spec_cells[k as int]));
                return false;
            }
            let mut i: usize = 0;
            while i < cell.len()
                invariant
                    i <= cell.len(),
                    0 <= k < spec_cells.len(),
                    spec_cells == split_row(line@),
                    cell@ == spec_cells[k as int],
                    forall|j: int|
                        0 <= j < i ==> #[trigger] cell@[j] == '-' || cell@[j] == ':' || cell@[j]
                            == ' ',
                decreases cell.len() - i,
            {
                let c = cell[i];
                if !(c == '-' || c == ':' || c == ' ') {
                    assert(!(cell@[i as int] == '-' || cell@[i as int] == ':' || cell@[i as int]
                        == ' '));
                    assert(!is_delimiter_cell(spec_cells[k as int]));
                    return false;
                }
                i += 1;
            }
            k += 1;
        }
        true
    }

    /// The alignments that a delimiter row asks for.
    pub fn parse_table_alignments(line: &[char]) -> (r: Vec<Alignment>)
        ensures
            r@ == row_alignments(line@),
    {
        let cells = Self::split_table_row(line);
        let mut out: Vec<Alignment> = Vec::new();
        let mut k: usize = 0;
        while k < cells.len()
            invariant
                k <= cells.len(),
                slices_view(cells@) == split_row(line@),
                out@.len() == k,
                forall|j: int|
                    0 <= j < k ==> #[trigger] out@[j] == alignment_of(split_row(line@)[j]),
            decreases cells.len() - k,
        {
            let cell = cells[k];
            assert(cell@ == split_row(line@)[k as int]);
            let s = trim_chars(cell);
            let left = s.len() > 0 && s[0] == ':';
            let right = s.len() > 0 && s[s.len() - 1] == ':';
            let alignment = if left && right {
                Alignment::Center
            } else if right {
                Alignment::Right
            } else if left {
                Alignment::Left
            } else {
                Alignment::Unset
            };
            out.push(alignment);
            k += 1;
        }
        assert(out@ =~= row_alignments(line@));
        out
    }

    /// The cells of a table line, each trimmed and parsed as inline text.
    pub fn parse_table_row(line: &[char]) -> (r: Vec<Vec<Inline<'static>>>)
        ensures
            cell_views(r@) == table_row(line@),
    {
        let cells = Self::split_table_row(line);
        let mut out: Vec<Vec<Inline<'static>>> = Vec::new();
        let mut k: usize = 0;
        while k < cells.len()
            invariant
                k <= cells.len(),
                slices_view(cells@) == split_row(line@),
                out@.len() == k,
                forall|j: int|
                    0 <= j < k ==> inline_views((#[trigger] out@[j])@) == parse_inlines(
                        trim(split_row(line@)[j]),
                    ),
            decreases cells.len() - k,
        {
            let cell = cells[k];
            assert(cell@ == split_row(line@)[k as int]);
            out.push(parse_inline_text(trim_chars(cell)));
            k += 1;
        }
        assert(cell_views(out@) =~= table_row(line@));
        out
    }

    /// The heading that a trimmed line stands for, if it is one.
    pub fn parse_heading(t: &[char]) -> (r: Option<Block<'static>>)
        ensures
            match r {
                Some(b) => is_heading(t@) && b@ == heading_of(t@),
                None => !is_heading(t@),
            },
    {
        let n = t.len();
        let mut level: usize = 0;
        while level < n && t[level] == '#'
            invariant
                level <= n,
                n == t.len(),
                forall|j: int| 0 <= j < level ==> hash()(#[trigger] t@[j]),
            decreases n - level,
        {
            level += 1;
        }
        proof {
            lemma_count_leading_is(t@, hash(), level as int);
        }
        if level == 0 || level > 6 {
            return None;
        }
        if level < n && !(t[level] == ' ' || t[level] == '\t') {
            return None;
        }
        let content = trim_chars(vstd::slice::slice_subrange(t, level, n));
        Some(Block::Heading { level: level as u8, children: parse_inline_text(content) })
    }
}

impl<'a> Parser<'a> {
    /// The kind of line `idx`.
    pub fn classify(lines: &Vec<&[char]>, idx: usize) -> (r: LineKind)
        requires
            idx < lines.len(),
        ensures
            r == line_kind(slices_view(lines@), idx as int),
    {
        let t = trim_chars(lines[idx]);
        proof {
            assert(t@.skip(0) == t@);
        }
        if Self::is_fence_line(t) {
            LineKind::Fence
        } else if find_char(t, 0, '|') < t.len() && idx + 1 < lines.len()
            && Self::is_table_delimiter(lines[idx + 1]) {
            LineKind::Table
        } else if Self::is_thematic_break(lines[idx]) {
            LineKind::Break
        } else if Self::parse_list_marker(t).is_some() {
            LineKind::ListStart
        } else if t.len() > 0 && t[0] == '>' {
            LineKind::Quote
        } else if t.len() == 0 {
            LineKind::Blank
        } else if Self::parse_heading_level(t).is_some() {
            LineKind::Heading
        } else {
            LineKind::Text
        }
    }

    /// Number of `#` that open a trimmed heading line; nothing if the line
    /// is no heading.
    pub fn parse_heading_level(t: &[char]) -> (r: Option<u8>)
        ensures
            match r {
                Some(k) => is_heading(t@) && k == heading_level(t@) && 1 <= k <= 6,
                None => !is_heading(t@),
            },
    {
        let n = t.len();
        let mut level: usize = 0;
        while level < n && t[level] == '#'
            invariant
                level <= n,
                n == t.len(),
                forall|j: int| 0 <= j < level ==> hash()(#[trigger] t@[j]),
            decreases n - level,
        {
            level += 1;
        }
        proof {
            lemma_count_leading_is(t@, hash(), level as int);
        }
        if level == 0 || level > 6 {
            return None;
        }
        if level < n && !(t[level] == ' ' || t[level] == '\t') {
            return None;
        }
        Some(level as u8)
    }

    /// Whether line `idx` goes on with a list that is open before it.
    pub fn goes_on_with_list(lines: &Vec<&[char]>, idx: usize) -> (r: bool)
        requires
            idx < lines.len(),
        ensures
            r == continues_list(slices_view(lines@), idx as int),
    {
        let t = trim_chars(lines[idx]);
        match Self::classify(lines, idx) {
            LineKind::Fence => false,
            LineKind::Table => false,
            LineKind::Break => false,
            _ => {
                if t.len() > 0 && (t[0] == '#' || t[0] == '>' || t[0] == '`') {
                    false
                } else {
                    t.len() == 0 || Self::parse_list_marker(t).is_some() || Self::count_indent(
                        lines[idx],
                    ) >= 2
                }
            },
        }
    }

    /// Whether line `idx` is paragraph text.
    pub fn is_text_line(lines: &Vec<&[char]>, idx: usize) -> (r: bool)
        requires
            idx < lines.len(),
        ensures
            r == (line_kind(slices_view(lines@), idx as int) is Text),
    {
        match Self::classify(lines, idx) {
            LineKind::Text => true,
            _ => false,
        }
    }

    /// Whether line `idx` is a line of a block quote.
    pub fn is_quote_line(lines: &Vec<&[char]>, idx: usize) -> (r: bool)
        requires
            idx < lines.len(),
        ensures
            r == (line_kind(slices_view(lines@), idx as int) is Quote),
    {
        match Self::classify(lines, idx) {
            LineKind::Quote => true,
            _ => false,
        }
    }

    /// The text of a quoted line.
    pub fn strip_quote_marker<'b>(line: &'b [char]) -> (r: &'b [char])
        ensures
            r@ == quote_content(line@),
    {
        let t = trim_chars(line);
        let a = if t.len() > 0 && t[0] == '>' {
            vstd::slice::slice_subrange(t, 1, t.len())
        } else {
            t
        };
        if a.len() > 0 && a[0] == ' ' {
            vstd::slice::slice_subrange(a, 1, a.len())
        } else {
            a
        }
    }
}

/// What the handling of one group of lines owes: the line after the group
/// and the blocks of the group, added behind those that were there.
pub open spec fn group_done(
    lines: Seq<Seq<char>>,
    idx: int,
    before: Seq<Block<'static>>,
    after: Seq<Block<'static>>,
    end: int,
) -> bool {
    &&& end == group_end(lines, idx)
    &&& block_views(after) == block_views(before) + group_blocks(lines, idx)
}

impl<'a> Parser<'a> {
    /// Turns collected paragraph lines into a paragraph and empties the
    /// collection; does nothing if there are none.
    pub fn flush_paragraph<'b>(blocks: &mut Vec<Block<'static>>, lines: &mut Vec<&'b [char]>)
        ensures
            final(lines)@.len() == 0,
            old(lines)@.len() == 0 ==> block_views(final(blocks)@) == block_views(old(blocks)@),
            old(lines)@.len() > 0 ==> block_views(final(blocks)@) == block_views(old(blocks)@)
                + seq![
                BlockView::Paragraph {
                    children: parse_inlines(join_lines(slices_view(old(lines)@))),
                },
            ],
    {
        if lines.len() == 0 {
            return ;
        }
        let content = join_lines_chars(lines);
        let children = parse_inline_text(content.as_slice());
        let ghost before = block_views(blocks@);
        let block = Block::Paragraph { children };
        blocks.push(block);
        proof {
            assert(block_views(blocks@) =~= before + seq![block@]);
        }
        lines.clear();
    }

    /// Turns collected list lines into the lists they hold and empties the
    /// collection.
    pub fn flush_list_block(blocks: &mut Vec<Block<'static>>, lines: &mut Vec<Vec<char>>)
        ensures
            final(lines)@.len() == 0,
            block_views(final(blocks)@) == block_views(old(blocks)@) + lists_from(
                vecs_view(old(lines)@),
                0,
            ),
    {
        let mut taken: Vec<Vec<char>> = Vec::new();
        std::mem::swap(lines, &mut taken);
        let mut list_parser = ListParser::over(taken);
        let lists = list_parser.parse();
        let ghost before = block_views(blocks@);
        let ghost added = block_views(lists@);
        let mut lists = lists;
        blocks.append(&mut lists);
        proof {
            assert(block_views(blocks@) =~= before + added);
        }
    }

    /// A fenced code block that line `idx` opens.
    pub fn parse_code_block(
        lines: &Vec<&[char]>,
        idx: usize,
        blocks: &mut Vec<Block<'static>>,
    ) -> (end: usize)
        requires
            idx < lines.len(),
            line_kind(slices_view(lines@), idx as int) is Fence,
        ensures
            end == if group_end(slices_view(lines@), idx as int) <= lines.len() {
                group_end(slices_view(lines@), idx as int)
            } else {
                lines.len() as int
            },
            block_views(final(blocks)@) == block_views(old(blocks)@) + group_blocks(
                slices_view(lines@),
                idx as int,
            ),
    {
        let n = lines.len();
        let ghost all = slices_view(lines@);
        let t = trim_chars(lines[idx]);
        let mut code_lines: Vec<&[char]> = Vec::new();
        let mut j: usize = idx + 1;
        proof {
            assert(slices_view(code_lines@) =~= all.subrange(idx + 1, j as int));
        }
        while j < n && !Self::is_fence_line(trim_chars(lines[j]))
            invariant
                n == lines.len(),
                all == slices_view(lines@),
                idx < j <= n,
                slices_view(code_lines@) == all.subrange(idx + 1, j as int),
                forall|k: int| idx < k < j ==> #[trigger] holds(code_line(), all, k),
            decreases n - j,
        {
            let ghost before = slices_view(code_lines@);
            code_lines.push(lines[j]);
            proof {
                assert(slices_view(code_lines@) =~= before.push(all[j as int]));
                assert(before.push(all[j as int]) =~= all.subrange(idx + 1, j + 1));
            }
            j += 1;
        }
        proof {
            lemma_run_end_step(all, idx + 1, j as int, code_line());
            assert(run_end(all, j as int, code_line()) == j);
        }
        let code = owned_text(join_lines_chars(&code_lines).as_slice());
        let language = owned_text(trim_chars(vstd::slice::slice_subrange(t, 3, t.len())));
        let ghost before = block_views(blocks@);
        let block = Block::CodeBlock { code, language };
        blocks.push(block);
        proof {
            assert(block_views(blocks@) =~= before + seq![block@]);
        }
        if j < n {
            j + 1
        } else {
            n
        }
    }

    /// A table whose header is line `idx` and whose delimiter row follows.
    pub fn parse_table(
        lines: &Vec<&[char]>,
        idx: usize,
        blocks: &mut Vec<Block<'static>>,
    ) -> (end: usize)
        requires
            idx < lines.len(),
            line_kind(slices_view(lines@), idx as int) is Table,
        ensures
            group_done(slices_view(lines@), idx as int, old(blocks)@, final(blocks)@, end as int),
    {
        let n = lines.len();
        let ghost all = slices_view(lines@);
        let headers = Self::parse_table_row(lines[idx]);
        let alignments = Self::parse_table_alignments(lines[idx + 1]);
        let mut rows: Vec<Vec<Vec<Inline<'static>>>> = Vec::new();
        let mut j: usize = idx + 2;
        proof {
            assert(row_views(rows@) =~= table_rows(all, idx + 2, j as int));
        }
        while j < n && Self::holds_pipe(lines[j])
            invariant
                n == lines.len(),
                all == slices_view(lines@),
                idx + 2 <= j <= n,
                row_views(rows@) == table_rows(all, idx + 2, j as int),
                forall|k: int| idx + 2 <= k < j ==> #[trigger] holds(row_line(), all, k),
            decreases n - j,
        {
            let ghost before = row_views(rows@);
            let row = Self::parse_table_row(lines[j]);
            rows.push(row);
            proof {
                assert(row_views(rows@) =~= before.push(table_row(all[j as int])));
                assert(before.push(table_row(all[j as int])) =~= table_rows(all, idx + 2, j + 1));
            }
            j += 1;
        }
        proof {
            lemma_run_end_step(all, idx + 2, j as int, row_line());
            assert(run_end(all, j as int, row_line()) == j);
        }
        let ghost before = block_views(blocks@);
        let block = Block::Table { headers, rows, alignments };
        blocks.push(block);
        proof {
            assert(block_views(blocks@) =~= before + seq![block@]);
        }
        j
    }

    /// Whether the trimmed line holds a `|`.
    pub fn holds_pipe(line: &[char]) -> (r: bool)
        ensures
            r == contains_char(trim(line@), '|'),
    {
        let t = trim_chars(line);
        proof {
            assert(t@.skip(0) == t@);
        }
        find_char(t, 0, '|') < t.len()
    }

    /// The lists of the group of lines that the list item on line `idx`
    /// opens.
    pub fn parse_list_block(
        lines: &Vec<&[char]>,
        idx: usize,
        blocks: &mut Vec<Block<'static>>,
    ) -> (end: usize)
        requires
            idx < lines.len(),
            line_kind(slices_view(lines@), idx as int) is ListStart,
        ensures
            group_done(slices_view(lines@), idx as int, old(blocks)@, final(blocks)@, end as int),
    {
        let n = lines.len();
        let ghost all = slices_view(lines@);
        let mut list_lines: Vec<Vec<char>> = Vec::new();
        list_lines.push(vstd::slice::slice_to_vec(lines[idx]));
        let mut j: usize = idx + 1;
        proof {
            assert(vecs_view(list_lines@) =~= all.subrange(idx as int, j as int));
        }
        while j < n && Self::goes_on_with_list(lines, j)
            invariant
                n == lines.len(),
                all == slices_view(lines@),
                idx < j <= n,
                vecs_view(list_lines@) == all.subrange(idx as int, j as int),
                forall|k: int| idx < k < j ==> #[trigger] holds(list_line(), all, k),
            decreases n - j,
        {
            let ghost before = vecs_view(list_lines@);
            list_lines.push(vstd::slice::slice_to_vec(lines[j]));
            proof {
                assert(vecs_view(list_lines@) =~= before.push(all[j as int]));
                assert(before.push(all[j as int]) =~= all.subrange(idx as int, j + 1));
            }
            j += 1;
        }
        proof {
            lemma_run_end_step(all, idx + 1, j as int, list_line());
            assert(run_end(all, j as int, list_line()) == j);
        }
        Self::flush_list_block(blocks, &mut list_lines);
        j
    }

    /// The paragraph that line `idx` opens.
    pub fn parse_paragraph(
        lines: &Vec<&[char]>,
        idx: usize,
        blocks: &mut Vec<Block<'static>>,
    ) -> (end: usize)
        requires
            idx < lines.len(),
            line_kind(slices_view(lines@), idx as int) is Text,
        ensures
            group_done(slices_view(lines@), idx as int, old(blocks)@, final(blocks)@, end as int),
    {
        let n = lines.len();
        let ghost all = slices_view(lines@);
        let mut cur: Vec<&[char]> = Vec::new();
        cur.push(trim_chars(lines[idx]));
        let mut j: usize = idx + 1;
        proof {
            assert(slices_view(cur@) =~= trimmed_lines(all, idx as int, j as int));
        }
        while j < n && Self::is_text_line(lines, j)
            invariant
                n == lines.len(),
                all == slices_view(lines@),
                idx < j <= n,
                slices_view(cur@) == trimmed_lines(all, idx as int, j as int),
                forall|k: int| idx < k < j ==> #[trigger] holds(text_line(), all, k),
            decreases n - j,
        {
            let ghost before = slices_view(cur@);
            cur.push(trim_chars(lines[j]));
            proof {
                assert(slices_view(cur@) =~= before.push(trim(all[j as int])));
                assert(before.push(trim(all[j as int])) =~= trimmed_lines(all, idx as int, j + 1));
            }
            j += 1;
        }
        proof {
            lemma_run_end_step(all, idx + 1, j as int, text_line());
            assert(run_end(all, j as int, text_line()) == j);
        }
        Self::flush_paragraph(blocks, &mut cur);
        j
    }
}

impl<'a> Parser<'a> {
    /// Turns the collected text of a block quote into a block quote, whose
    /// children are the blocks of that text, and empties the collection;
    /// does nothing if there is none.
    pub fn flush_blockquote<'b>(blocks: &mut Vec<Block<'static>>, lines: &mut Vec<&'b [char]>)
        ensures
            final(lines)@.len() == 0,
            old(lines)@.len() == 0 ==> block_views(final(blocks)@) == block_views(old(blocks)@),
            old(lines)@.len() > 0 ==> block_views(final(blocks)@) == block_views(old(blocks)@)
                + seq![
                BlockView::BlockQuote(parse_blocks(join_lines(slices_view(old(lines)@)))),
            ],
        decreases size_of(split_lines(join_lines(slices_view(old(lines)@)))), 3nat,
    {
        if lines.len() == 0 {
            return ;
        }
        let content = join_lines_chars(lines);
        let children = parse_text(content.as_slice());
        let ghost before = block_views(blocks@);
        let block = Block::BlockQuote(children);
        blocks.push(block);
        proof {
            assert(block_views(blocks@) =~= before + seq![block@]);
        }
        lines.clear();
    }

    /// The block quote that line `idx` opens.
    pub fn parse_blockquote(
        lines: &Vec<&[char]>,
        idx: usize,
        blocks: &mut Vec<Block<'static>>,
    ) -> (end: usize)
        requires
            idx < lines.len(),
            line_kind(slices_view(lines@), idx as int) is Quote,
        ensures
            group_done(slices_view(lines@), idx as int, old(blocks)@, final(blocks)@, end as int),
        decreases size_of(slices_view(lines@)), 0nat,
    {
        let n = lines.len();
        let ghost all = slices_view(lines@);
        let mut cur: Vec<&[char]> = Vec::new();
        cur.push(Self::strip_quote_marker(lines[idx]));
        let mut j: usize = idx + 1;
        proof {
            assert(slices_view(cur@) =~= quote_lines(all, idx as int, j as int));
        }
        while j < n && Self::is_quote_line(lines, j)
            invariant
                n == lines.len(),
                all == slices_view(lines@),
                idx < j <= n,
                slices_view(cur@) == quote_lines(all, idx as int, j as int),
                forall|k: int| idx < k < j ==> #[trigger] holds(quote_line(), all, k),
            decreases n - j,
        {
            let ghost before = slices_view(cur@);
            cur.push(Self::strip_quote_marker(lines[j]));
            proof {
                assert(slices_view(cur@) =~= before.push(quote_content(all[j as int])));
                assert(before.push(quote_content(all[j as int])) =~= quote_lines(
                    all,
                    idx as int,
                    j + 1,
                ));
            }
            j += 1;
        }
        proof {
            lemma_run_end_step(all, idx + 1, j as int, quote_line());
            assert(run_end(all, j as int, quote_line()) == j);
            lemma_quote_shrinks(all, idx as int, j as int);
        }
        Self::flush_blockquote(blocks, &mut cur);
        j
    }
}

/// The document tree of lines: every group of lines in turn.
#[verifier::rlimit(50)]
pub fn parse_lines(lines: &Vec<&[char]>) -> (r: Vec<Block<'static>>)
    ensures
        block_views(r@) == blocks_at(slices_view(lines@), 0),
    decreases size_of(slices_view(lines@)), 1nat,
{
    let n = lines.len();
    let ghost all = slices_view(lines@);
    let mut blocks: Vec<Block<'static>> = Vec::new();
    let mut idx: usize = 0;
    proof {
        assert(block_views(blocks@) + blocks_at(all, 0) =~= blocks_at(all, 0));
    }
    while idx < n
        invariant
            n == lines.len(),
            all == slices_view(lines@),
            idx <= n,
            block_views(blocks@) + blocks_at(all, idx as int) == blocks_at(all, 0),
        decreases n - idx,
    {
        let ghost before = block_views(blocks@);
        let ghost group = group_blocks(all, idx as int);
        let ghost at = idx as int;
        proof {
            lemma_group_end(all, at);
        }
        let end = match Parser::classify(lines, idx) {
            LineKind::Fence => Parser::parse_code_block(lines, idx, &mut blocks),
            LineKind::Table => Parser::parse_table(lines, idx, &mut blocks),
            LineKind::Break => {
                blocks.push(Block::ThematicBreak);
                idx + 1
            },
            LineKind::ListStart => Parser::parse_list_block(lines, idx, &mut blocks),
            LineKind::Quote => Parser::parse_blockquote(lines, idx, &mut blocks),
            LineKind::Blank => idx + 1,
            LineKind::Heading => {
                match Parser::parse_heading(trim_chars(lines[idx])) {
                    Some(heading) => {
                        blocks.push(heading);
                    },
                    None => {},
                }
                idx + 1
            },
            LineKind::Text => Parser::parse_paragraph(lines, idx, &mut blocks),
        };
        proof {
            assert(block_views(blocks@) =~= before + group);
            assert(blocks_at(all, end as int) == blocks_at(all, group_end(all, at)));
            assert(before + group + blocks_at(all, end as int) =~= before + blocks_at(all, at));
        }
        idx = end;
    }
    proof {
        assert(block_views(blocks@) + blocks_at(all, idx as int) =~= block_views(blocks@));
    }
    blocks
}

/// The document tree of a text held as characters.
pub fn parse_text(text: &[char]) -> (r: Vec<Block<'static>>)
    ensures
        block_views(r@) == parse_blocks(text@),
    decreases size_of(split_lines(text@)), 2nat,
{
    let lines = split_lines_chars(text);
    parse_lines(&lines)
}

impl<'a> Parser<'a> {
    /// The text to be parsed.
    pub closed spec fn text(&self) -> Seq<char> {
        self.input@
    }

    pub fn new(input: &'a str) -> (p: Self)
        ensures
            p.text() == input@,
    {
        Parser { input }
    }

    /// The document tree of the text: a pure function of the text, defined
    /// for every text. Every heading in it has a level from one to six.
    pub fn parse(&mut self) -> (r: Vec<Block<'a>>)
        ensures
            block_views(r@) == parse_blocks(old(self).text()),
            all_levels_valid(block_views(r@)),
            final(self).text() == old(self).text(),
    {
        proof {
            lemma_blocks_levels(split_lines(self.text()), 0);
        }
        self.parse_blocks()
    }

    /// The document tree of the text, read line by line.
    pub fn parse_blocks(&mut self) -> (r: Vec<Block<'a>>)
        ensures
            block_views(r@) == parse_blocks(old(self).text()),
            final(self).text() == old(self).text(),
    {
        let chars = to_chars(self.input);
        parse_text(chars.as_slice())
    }
}

/// `s` with every line ending made a single line feed and every tab made
/// four spaces: a carriage return with a line feed after it, and a
/// carriage return alone, each become one line feed.
pub open spec fn normalize(s: Seq<char>) -> Seq<char>
    decreases s.len(),
{
    if s.len() == 0 {
        seq![]
    } else if s[0] == '\r' {
        if s.len() > 1 && s[1] == '\n' {
            seq!['\n'] + normalize(s.skip(2))
        } else {
            seq!['\n'] + normalize(s.skip(1))
        }
    } else if s[0] == '\t' {
        seq![' ', ' ', ' ', ' '] + normalize(s.skip(1))
    } else {
        seq![s[0]] + normalize(s.skip(1))
    }
}

/// `s` with its trailing line feeds replaced by exactly one.
pub open spec fn end_with_one_newline(s: Seq<char>) -> Seq<char> {
    s.take(s.len() - count_trailing(s, is_char('\n'))) + seq!['\n']
}

/// The text as the parsers expect it: normalized, and ending in exactly
/// one line feed.
pub open spec fn preprocessed(s: Seq<char>) -> Seq<char> {
    end_with_one_newline(normalize(s))
}

impl<'a> Parser<'a> {
    /// Prepares a text for parsing: line endings become line feeds, tabs
    /// become four spaces, and the text ends in exactly one line feed.
    pub fn preprocess(input: &str) -> (r: String)
        ensures
            r@ == preprocessed(input@),
    {
        let chars = to_chars(input);
        let n = chars.len();
        let mut out: Vec<char> = Vec::new();
        let mut i: usize = 0;
        let ghost s = chars@;
        proof {
            assert(s.skip(0) == s);
            assert(out@ + normalize(s) == normalize(s));
        }
        while i < n
            invariant
                n == chars.len(),
                s == chars@,
                i <= n,
                out@ + normalize(s.skip(i as int)) == normalize(s),
            decreases n - i,
        {
            let c = chars[i];
            let ghost rest = s.skip(i as int);
            let ghost before = out@;
            proof {
                assert(rest[0] == c);
                assert(rest.skip(1) == s.skip(i + 1));
            }
            if c == '\r' {
                out.push('\n');
                if i + 1 < n && chars[i + 1] == '\n' {
                    proof {
                        assert(rest[1] == s[i + 1]);
                        assert(rest.skip(2) == s.skip(i + 2));
                        assert(out@ + normalize(s.skip(i + 2)) == before + normalize(rest));
                    }
                    i += 2;
                } else {
                    proof {
                        if rest.len() > 1 {
                            assert(rest[1] == s[i + 1]);
                        }
                        assert(out@ + normalize(s.skip(i + 1)) == before + normalize(rest));
                    }
                    i += 1;
                }
            } else if c == '\t' {
                out.push(' ');
                out.push(' ');
                out.push(' ');
                out.push(' ');
                proof {
                    assert(out@ == before + seq![' ', ' ', ' ', ' ']);
                    assert(out@ + normalize(s.skip(i + 1)) == before + normalize(rest));
                }
                i += 1;
            } else {
                out.push(c);
                proof {
                    assert(out@ + normalize(s.skip(i + 1)) == before + normalize(rest));
                }
                i += 1;
            }
        }
        proof {
            assert(normalize(s.skip(n as int)) == Seq::<char>::empty());
            assert(out@ + Seq::<char>::empty() == out@);
        }
        let m = out.len();
        let mut k: usize = 0;
        while k < m && out[m - k - 1] == '\n'
            invariant
                m == out.len(),
                k <= m,
                forall|j: int| m - k <= j < m ==> is_char('\n')(#[trigger] out@[j]),
            decreases m - k,
        {
            k += 1;
        }
        proof {
            lemma_count_trailing_is(out@, is_char('\n'), k as int);
        }
        let ghost full = out@;
        out.truncate(m - k);
        out.push('\n');
        proof {
            assert(out@ == full.take(m - k) + seq!['\n']);
        }
        from_chars(out.as_slice())
    }
}

} // verus!
