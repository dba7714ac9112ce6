//! The inline engine: resolves a piece of text into inline nodes.
//!
//! The grammar is given twice over: `span_at` says, without recursion, what
//! begins at a position and how far it reaches; `node_at` and `parse_from`
//! build the nodes, descending into the text that a span encloses.

use crate::dom::ast::{inline_views, Inline, InlineView};
use crate::text::{count_leading, extend_chars, find_char, from_chars, index_of,
    lemma_count_leading_bound, lemma_count_leading_is, to_chars};
use std::borrow::Cow;
use vstd::prelude::*;

verus! {

/// What `char::is_alphanumeric` of the standard library answers for a
/// character: whether Unicode counts it as alphabetic or numeric.
pub uninterp spec fn alphanumeric(c: char) -> bool;

/// Trusted: what `char::is_alphanumeric` answers depends on the character
/// alone. Nothing more is claimed of it.
pub assume_specification[ char::is_alphanumeric ](c: char) -> (r: bool)
    ensures
        r == alphanumeric(c),
;

/// The punctuation that a backslash makes literal.
pub open spec fn is_special(c: char) -> bool {
    c == '\\' || c == '`' || c == '*' || c == '_' || c == '{' || c == '}' || c == '[' || c == ']'
        || c == '(' || c == ')' || c == '#' || c == '+' || c == '-' || c == '.' || c == '!' || c
        == '|' || c == '>' || c == '~'
}

/// The predicate "equals `c`".
pub open spec fn is_char(c: char) -> spec_fn(char) -> bool {
    |x: char| x == c
}

/// Length of the run of `c` that begins at `i`: the number of consecutive
/// occurrences of `c` from `i` on.
pub open spec fn run_len(s: Seq<char>, i: int, c: char) -> nat {
    if 0 <= i <= s.len() {
        count_leading(s.skip(i), is_char(c))
    } else {
        0
    }
}

/// A run lies within the text, holds its character only, and ends where
/// another character or the end of the text follows.
pub proof fn lemma_run_len(s: Seq<char>, i: int, c: char)
    requires
        0 <= i <= s.len(),
    ensures
        i + run_len(s, i, c) <= s.len(),
        forall|j: int| i <= j < i + run_len(s, i, c) ==> #[trigger] s[j] == c,
        i + run_len(s, i, c) < s.len() ==> s[i + run_len(s, i, c)] != c,
        i < s.len() && s[i] == c ==> run_len(s, i, c) >= 1,
{
    let t = s.skip(i);
    lemma_count_leading_bound(t, is_char(c));
    let n = run_len(s, i, c);
    assert forall|j: int| i <= j < i + n implies #[trigger] s[j] == c by {
        assert(is_char(c)(t[j - i]));
    }
    if i + n < s.len() {
        assert(!is_char(c)(t[n as int]));
    }
    if i < s.len() && s[i] == c {
        assert(t[0] == c);
    }
}

/// Start of the first run of `c` at or after `from` whose length is exactly
/// `n`. Runs of another length are passed over whole.
pub open spec fn closing_run(s: Seq<char>, from: int, c: char, n: nat) -> Option<int>
    decreases s.len() - from,
{
    if from < 0 || from >= s.len() {
        None
    } else if s[from] == c {
        let k = run_len(s, from, c);
        proof {
            lemma_run_len(s, from, c);
        }
        if k == n {
            Some(from)
        } else {
            closing_run(s, from + k, c, n)
        }
    } else {
        closing_run(s, from + 1, c, n)
    }
}

/// A closing run lies at or after the place from which it was sought, is
/// exactly as long as asked, and is a whole run.
pub proof fn lemma_closing_run(s: Seq<char>, from: int, c: char, n: nat)
    requires
        0 <= from,
    ensures
        closing_run(s, from, c, n) matches Some(p) ==> from <= p && p + n <= s.len() && n >= 1
            && run_len(s, p, c) == n,
    decreases s.len() - from,
{
    if from < s.len() {
        lemma_run_len(s, from, c);
        if s[from] == c {
            let k = run_len(s, from, c);
            if k != n {
                lemma_closing_run(s, from + k, c, n);
            }
        } else {
            lemma_closing_run(s, from + 1, c, n);
        }
    }
}

/// Position of the first `close` at or after `from` that no backslash
/// escapes. A backslash escapes the character after it when that character
/// is special.
pub open spec fn find_unescaped(s: Seq<char>, from: int, close: char) -> Option<int>
    decreases s.len() - from,
{
    if from < 0 || from >= s.len() {
        None
    } else if s[from] == close {
        Some(from)
    } else if s[from] == '\\' && from + 1 < s.len() && is_special(s[from + 1]) {
        find_unescaped(s, from + 2, close)
    } else {
        find_unescaped(s, from + 1, close)
    }
}

/// What `find_unescaped` finds lies at or after the place from which it was
/// sought and holds the character sought.
pub proof fn lemma_find_unescaped(s: Seq<char>, from: int, close: char)
    requires
        0 <= from,
    ensures
        find_unescaped(s, from, close) matches Some(p) ==> from <= p < s.len() && s[p] == close,
    decreases s.len() - from,
{
    if from < s.len() && s[from] != close {
        if s[from] == '\\' && from + 1 < s.len() && is_special(s[from + 1]) {
            lemma_find_unescaped(s, from + 2, close);
        } else {
            lemma_find_unescaped(s, from + 1, close);
        }
    }
}

/// The bracket form `[label](url)` beginning at `i`: the positions of its
/// closing bracket and closing parenthesis. The first unescaped `]` ends the
/// label, `(` must follow at once, and the first unescaped `)` ends the url.
pub open spec fn bracket_link(s: Seq<char>, i: int) -> Option<(int, int)> {
    if 0 <= i < s.len() && s[i] == '[' {
        match find_unescaped(s, i + 1, ']') {
            Some(rb) => if rb + 1 < s.len() && s[rb + 1] == '(' {
                match find_unescaped(s, rb + 2, ')') {
                    Some(rp) => Some((rb, rp)),
                    None => None,
                }
            } else {
                None
            },
            None => None,
        }
    } else {
        None
    }
}

/// Whether `c` may follow `<` in raw inline markup.
pub open spec fn tag_opener(c: char) -> bool {
    alphanumeric(c) || c == '/' || c == '!' || c == '?'
}

/// Raw inline markup beginning at `i`: the position of the first `>` after
/// the `<`, provided that something stands between them and the character
/// after `<` may open a tag.
pub open spec fn html_tag_close(s: Seq<char>, i: int) -> Option<int> {
    if 0 <= i < s.len() && s[i] == '<' {
        let gt = i + 1 + index_of(s.skip(i + 1), '>');
        if gt < s.len() && gt >= i + 2 && tag_opener(s[i + 1]) {
            Some(gt)
        } else {
            None
        }
    } else {
        None
    }
}

/// The kinds of span that can begin at a position.
pub enum SpanKind {
    Literal,
    RawHtml,
    Image,
    Link,
    CodeSpan,
    Emphasis,
    Strong,
    StrongEmphasis,
    Strikethrough,
}

/// What begins at a position: its kind, the text it encloses
/// (`start..end`), the url of a link or image (`url_start..url_end`) and the
/// position after it (`next`).
pub struct SpanView {
    pub kind: SpanKind,
    pub start: int,
    pub end: int,
    pub url_start: int,
    pub url_end: int,
    pub next: int,
}

/// A literal span: the text `start..end` is kept as it stands.
pub open spec fn literal_span(start: int, end: int, next: int) -> SpanView {
    SpanView { kind: SpanKind::Literal, start, end, url_start: 0, url_end: 0, next }
}

/// A span without a url.
pub open spec fn plain_span(kind: SpanKind, start: int, end: int, next: int) -> SpanView {
    SpanView { kind, start, end, url_start: 0, url_end: 0, next }
}

/// The span delimited by runs of `c` that opens at `i`, if the opening run
/// has an admissible length and a closing run of the same length follows;
/// otherwise the opening run as literal text.
pub open spec fn delimited_span(s: Seq<char>, i: int, c: char) -> SpanView {
    let n = run_len(s, i, c);
    let admissible = if c == '*' {
        n <= 3
    } else if c == '~' {
        n == 2
    } else {
        true
    };
    let kind = if c == '*' {
        if n == 1 {
            SpanKind::Emphasis
        } else if n == 2 {
            SpanKind::Strong
        } else {
            SpanKind::StrongEmphasis
        }
    } else if c == '~' {
        SpanKind::Strikethrough
    } else {
        SpanKind::CodeSpan
    };
    match closing_run(s, i + n, c, n) {
        Some(p) => if admissible {
            plain_span(kind, i + n, p, p + n)
        } else {
            literal_span(i, i + n, i + n)
        },
        None => literal_span(i, i + n, i + n),
    }
}

/// What begins at position `i` of `s`.
pub open spec fn span_at(s: Seq<char>, i: int) -> SpanView {
    if !(0 <= i < s.len()) {
        literal_span(i, i, i + 1)
    } else if s[i] == '\\' {
        if i + 1 < s.len() && is_special(s[i + 1]) {
            literal_span(i + 1, i + 2, i + 2)
        } else {
            literal_span(i, i + 1, i + 1)
        }
    } else if s[i] == '<' {
        match html_tag_close(s, i) {
            Some(gt) => plain_span(SpanKind::RawHtml, i, gt + 1, gt + 1),
            None => literal_span(i, i + 1, i + 1),
        }
    } else if s[i] == '!' && i + 1 < s.len() && s[i + 1] == '[' {
        match bracket_link(s, i + 1) {
            Some((rb, rp)) => SpanView {
                kind: SpanKind::Image,
                start: i + 2,
                end: rb,
                url_start: rb + 2,
                url_end: rp,
                next: rp + 1,
            },
            None => literal_span(i, i + 1, i + 1),
        }
    } else if s[i] == '[' {
        match bracket_link(s, i) {
            Some((rb, rp)) => SpanView {
                kind: SpanKind::Link,
                start: i + 1,
                end: rb,
                url_start: rb + 2,
                url_end: rp,
                next: rp + 1,
            },
            None => literal_span(i, i + 1, i + 1),
        }
    } else if s[i] == '`' || s[i] == '*' || s[i] == '~' {
        delimited_span(s, i, s[i])
    } else {
        literal_span(i, i + 1, i + 1)
    }
}

/// A span lies within the text and moves the position forward; one that is
/// set off by delimiters encloses less than the whole text.
pub proof fn lemma_span_at(s: Seq<char>, i: int)
    requires
        0 <= i < s.len(),
    ensures
        i < span_at(s, i).next <= s.len(),
        0 <= span_at(s, i).start <= span_at(s, i).end <= s.len(),
        span_at(s, i).kind !is Literal && span_at(s, i).kind !is RawHtml ==> span_at(s, i).end
            - span_at(s, i).start < s.len(),
        span_at(s, i).kind is Image || span_at(s, i).kind is Link ==> 0 <= span_at(s, i).url_start
            <= span_at(s, i).url_end <= s.len(),
{
    lemma_find_unescaped(s, i + 1, ']');
    lemma_find_unescaped(s, i + 2, ']');
    if find_unescaped(s, i + 1, ']') is Some {
        lemma_find_unescaped(s, find_unescaped(s, i + 1, ']')->0 + 2, ')');
    }
    if find_unescaped(s, i + 2, ']') is Some {
        lemma_find_unescaped(s, find_unescaped(s, i + 2, ']')->0 + 2, ')');
    }
    lemma_run_len(s, i, s[i]);
    lemma_closing_run(s, i + run_len(s, i, s[i]), s[i], run_len(s, i, s[i]));
}

/// Whether a kind of span is set off by a run of delimiters on each side.
pub open spec fn is_delimited(kind: SpanKind) -> bool {
    kind is CodeSpan || kind is Emphasis || kind is Strong || kind is StrongEmphasis
        || kind is Strikethrough
}

/// Delimiter runs match by exact length: a code span, an emphasis or a
/// strikethrough that opens at `i` with a run of `n` delimiters closes with
/// a run of the same character that is exactly `n` long, and the kind of
/// the span goes by `n`: one `*` for emphasis, two for strong, three for
/// strong around emphasis, two `~` for strikethrough.
pub proof fn lemma_delimiter_runs_match(s: Seq<char>, i: int)
    requires
        0 <= i < s.len(),
        is_delimited(span_at(s, i).kind),
    ensures
        ({
            let sp = span_at(s, i);
            let n = run_len(s, i, s[i]);
            &&& s[i] == '`' || s[i] == '*' || s[i] == '~'
            &&& n >= 1
            &&& sp.start == i + n
            &&& sp.start <= sp.end
            &&& run_len(s, sp.end, s[i]) == n
            &&& sp.next == sp.end + n
            &&& sp.kind is CodeSpan <==> s[i] == '`'
            &&& sp.kind is Emphasis <==> s[i] == '*' && n == 1
            &&& sp.kind is Strong <==> s[i] == '*' && n == 2
            &&& sp.kind is StrongEmphasis <==> s[i] == '*' && n == 3
            &&& sp.kind is Strikethrough <==> s[i] == '~' && n == 2
        }),
{
    lemma_run_len(s, i, s[i]);
    lemma_closing_run(s, i + run_len(s, i, s[i]), s[i], run_len(s, i, s[i]));
}

/// A run of `*` longer than three, a run of `~` of another length than two
/// and a run without a closing run of its own length are literal text, the
/// whole run at once.
pub proof fn lemma_unmatched_run_is_literal(s: Seq<char>, i: int)
    requires
        0 <= i < s.len(),
        s[i] == '`' || s[i] == '*' || s[i] == '~',
        ({
            let n = run_len(s, i, s[i]);
            ||| s[i] == '*' && n > 3
            ||| s[i] == '~' && n != 2
            ||| closing_run(s, i + n, s[i], n) is None
        }),
    ensures
        span_at(s, i) == literal_span(i, i + run_len(s, i, s[i]), i + run_len(s, i, s[i])),
{
}

/// A backslash makes the special character after it literal: the two
/// characters are read together and only the second is kept. Before any
/// other character, and at the end, the backslash itself is kept.
pub proof fn lemma_escape_is_literal(s: Seq<char>, i: int)
    requires
        0 <= i < s.len(),
        s[i] == '\\',
    ensures
        i + 1 < s.len() && is_special(s[i + 1]) ==> span_at(s, i) == literal_span(
            i + 1,
            i + 2,
            i + 2,
        ),
        !(i + 1 < s.len() && is_special(s[i + 1])) ==> span_at(s, i) == literal_span(
            i,
            i + 1,
            i + 1,
        ),
{
}

/// The text node for accumulated literal text; nothing when there is none.
pub open spec fn flush(buf: Seq<char>) -> Seq<InlineView> {
    if buf.len() == 0 {
        seq![]
    } else {
        seq![InlineView::Text(buf)]
    }
}

/// The node for the span that begins at `i`. The label of a link and the
/// text between emphasis or strikethrough delimiters are parsed in turn;
/// code, raw markup, alt text and urls are taken as they stand.
pub open spec fn node_at(s: Seq<char>, i: int) -> InlineView
    decreases s.len(), 0int,
{
    let sp = span_at(s, i);
    let inner = s.subrange(sp.start, sp.end);
    let url = s.subrange(sp.url_start, sp.url_end);
    proof {
        if 0 <= i < s.len() {
            lemma_span_at(s, i);
        }
    }
    match sp.kind {
        SpanKind::Literal => InlineView::Text(inner),
        SpanKind::RawHtml => InlineView::RawHtml(inner),
        SpanKind::Image => InlineView::Image { alt: inner, url },
        SpanKind::CodeSpan => InlineView::CodeSpan(inner),
        SpanKind::Link => InlineView::Link { children: parse_from(inner, 0, Seq::empty()), url },
        SpanKind::Emphasis => InlineView::Emphasis(parse_from(inner, 0, Seq::empty())),
        SpanKind::Strong => InlineView::Strong(parse_from(inner, 0, Seq::empty())),
        SpanKind::StrongEmphasis => InlineView::Strong(
            seq![InlineView::Emphasis(parse_from(inner, 0, Seq::empty()))],
        ),
        SpanKind::Strikethrough => InlineView::Strikethrough(parse_from(inner, 0, Seq::empty())),
    }
}

/// The nodes for `s` from position `i` on, given literal text `buf` that
/// was read before `i` and has not yet been made a node. Literal spans
/// extend `buf`; any other span first turns `buf` into a text node.
pub open spec fn parse_from(s: Seq<char>, i: int, buf: Seq<char>) -> Seq<InlineView>
    decreases s.len(), s.len() - i + 1,
{
    if i < 0 || i >= s.len() {
        flush(buf)
    } else {
        let sp = span_at(s, i);
        proof {
            lemma_span_at(s, i);
        }
        if sp.kind is Literal {
            parse_from(s, sp.next, buf + s.subrange(sp.start, sp.end))
        } else {
            flush(buf) + seq![node_at(s, i)] + parse_from(s, sp.next, Seq::empty())
        }
    }
}

/// The inline nodes of a text.
pub open spec fn parse_inlines(s: Seq<char>) -> Seq<InlineView> {
    parse_from(s, 0, Seq::empty())
}

/// No text node is empty and no two text nodes stand side by side.
pub open spec fn text_merged(nodes: Seq<InlineView>) -> bool {
    &&& forall|k: int|
        0 <= k < nodes.len() ==> ((#[trigger] nodes[k]) matches InlineView::Text(t) ==> t.len() > 0)
    &&& forall|k: int|
        0 <= k < nodes.len() - 1 ==> !((#[trigger] nodes[k]) is Text && nodes[k + 1] is Text)
}

/// Text is merged in the children of the node, at every depth.
pub open spec fn tidy(node: InlineView) -> bool
    decreases node,
{
    match node {
        InlineView::Emphasis(children) => tidy_all(children),
        InlineView::Strong(children) => tidy_all(children),
        InlineView::Strikethrough(children) => tidy_all(children),
        InlineView::Link { children, url } => tidy_all(children),
        _ => true,
    }
}

/// Text is merged in the nodes and below them, at every depth.
pub open spec fn tidy_all(nodes: Seq<InlineView>) -> bool
    decreases nodes,
{
    &&& text_merged(nodes)
    &&& forall|k: int| 0 <= k < nodes.len() ==> tidy(#[trigger] nodes[k])
}

/// The node of a span that is not literal is no text node, and text is
/// merged below it.
pub proof fn lemma_node_tidy(s: Seq<char>, i: int)
    requires
        0 <= i < s.len(),
        span_at(s, i).kind !is Literal,
    ensures
        node_at(s, i) !is Text,
        tidy(node_at(s, i)),
    decreases s.len(), 0int,
{
    let sp = span_at(s, i);
    let inner = s.subrange(sp.start, sp.end);
    lemma_span_at(s, i);
    if sp.kind is Link || sp.kind is Emphasis || sp.kind is Strong || sp.kind is StrongEmphasis
        || sp.kind is Strikethrough {
        lemma_parse_tidy(inner, 0, Seq::empty());
        if sp.kind is StrongEmphasis {
            let wrapped = seq![InlineView::Emphasis(parse_from(inner, 0, Seq::empty()))];
            assert(tidy(wrapped[0]));
            assert(tidy_all(wrapped));
        }
    }
}

/// Parsing merges text: the nodes that it gives hold no empty text node
/// and no two text nodes side by side, at any depth. Pending literal text
/// comes out at the front of one text node, which no text node follows.
pub proof fn lemma_parse_tidy(s: Seq<char>, i: int, buf: Seq<char>)
    ensures
        tidy_all(parse_from(s, i, buf)),
        buf.len() > 0 ==> parse_from(s, i, buf).len() >= 1 && parse_from(s, i, buf)[0] is Text,
    decreases s.len(), s.len() - i + 1,
{
    let r = parse_from(s, i, buf);
    if i < 0 || i >= s.len() {
    } else {
        let sp = span_at(s, i);
        lemma_span_at(s, i);
        if sp.kind is Literal {
            lemma_parse_tidy(s, sp.next, buf + s.subrange(sp.start, sp.end));
        } else {
            lemma_node_tidy(s, i);
            lemma_parse_tidy(s, sp.next, Seq::empty());
            let head = flush(buf);
            let node = node_at(s, i);
            let rest = parse_from(s, sp.next, Seq::empty());
            assert(r == head + seq![node] + rest);
            assert forall|k: int| 0 <= k < r.len() implies tidy(#[trigger] r[k]) && (
            r[k] matches InlineView::Text(t) ==> t.len() > 0) by {
                if k < head.len() {
                    assert(r[k] == head[k]);
                } else if k == head.len() {
                    assert(r[k] == node);
                } else {
                    assert(r[k] == rest[k - head.len() - 1]);
                }
            }
            assert forall|k: int| 0 <= k < r.len() - 1 implies !((#[trigger] r[k]) is Text && r[k
                + 1] is Text) by {
                if k + 1 == head.len() {
                    assert(r[k + 1] == node);
                } else if k == head.len() {
                    assert(r[k] == node);
                } else if k > head.len() {
                    assert(r[k] == rest[k - head.len() - 1]);
                    assert(r[k + 1] == rest[k - head.len()]);
                }
            }
            if buf.len() > 0 {
                assert(r[0] == head[0]);
            }
        }
    }
}

/// Length of the run of `c` that begins at `i`.
pub fn run_length(s: &[char], i: usize, c: char) -> (n: usize)
    requires
        i <= s.len(),
    ensures
        n == run_len(s@, i as int, c),
        i + n <= s.len(),
{
    let mut n: usize = 0;
    while i + n < s.len() && s[i + n] == c
        invariant
            i + n <= s.len(),
            forall|j: int| i <= j < i + n ==> #[trigger] s@[j] == c,
        decreases s.len() - n,
    {
        n += 1;
    }
    proof {
        let t = s@.skip(i as int);
        assert forall|j: int| 0 <= j < n implies is_char(c)(#[trigger] t[j]) by {
            assert(t[j] == s@[i + j]);
        }
        if n < t.len() {
            assert(t[n as int] == s@[i + n]);
        }
        lemma_count_leading_is(t, is_char(c), n as int);
    }
    n
}

/// Start of the first run of `c` at or after `from` that is exactly `n`
/// long.
pub fn find_closing_run(s: &[char], from: usize, c: char, n: usize) -> (r: Option<usize>)
    requires
        from <= s.len(),
    ensures
        match r {
            Some(p) => closing_run(s@, from as int, c, n as nat) == Some(p as int) && from <= p
                && p + n <= s.len(),
            None => closing_run(s@, from as int, c, n as nat) is None,
        },
{
    let mut p: usize = from;
    while p < s.len()
        invariant
            from <= p <= s.len(),
            closing_run(s@, p as int, c, n as nat) == closing_run(s@, from as int, c, n as nat),
        decreases s.len() - p,
    {
        if s[p] == c {
            let k = run_length(s, p, c);
            proof {
                lemma_run_len(s@, p as int, c);
            }
            if k == n {
                return Some(p);
            }
            p += k;
        } else {
            p += 1;
        }
    }
    None
}

/// Position of the first `close` at or after `from` that no backslash
/// escapes.
pub fn find_unescaped_char(s: &[char], from: usize, close: char) -> (r: Option<usize>)
    requires
        from <= s.len(),
    ensures
        match r {
            Some(p) => find_unescaped(s@, from as int, close) == Some(p as int) && from <= p
                < s.len(),
            None => find_unescaped(s@, from as int, close) is None,
        },
{
    let mut p: usize = from;
    while p < s.len()
        invariant
            from <= p <= s.len(),
            find_unescaped(s@, p as int, close) == find_unescaped(s@, from as int, close),
        decreases s.len() - p,
    {
        if s[p] == close {
            return Some(p);
        }
        if s[p] == '\\' && p + 1 < s.len() && InlineParser::is_special_char(s[p + 1]) {
            p += 2;
        } else {
            p += 1;
        }
    }
    None
}

/// Whether a character may follow `<` in raw inline markup, given what
/// `char::is_alphanumeric` answered for it.
pub fn opens_tag(c: char, alnum: bool) -> (r: bool)
    ensures
        r == (alnum || c == '/' || c == '!' || c == '?'),
{
    alnum || c == '/' || c == '!' || c == '?'
}

/// A parser over one piece of text, with the position it has reached.
pub struct InlineParser {
    chars: Vec<char>,
    pos: usize,
}

/// What a `try_parse` function owes: the node of the span at the old
/// position and the position after it, or nothing and no movement where the
/// span there is literal.
pub open spec fn attempt_ok(
    before: InlineParser,
    after: InlineParser,
    r: Option<Inline<'static>>,
) -> bool {
    let s = before.text();
    let sp = span_at(s, before.position());
    &&& after.text() == s
    &&& match r {
        Some(node) => sp.kind !is Literal && node@ == node_at(s, before.position())
            && after.position() == sp.next,
        None => sp.kind is Literal && after.position() == before.position(),
    }
}

impl InlineParser {
    /// The text being parsed.
    pub closed spec fn text(&self) -> Seq<char> {
        self.chars@
    }

    /// The position reached, counted in characters.
    pub closed spec fn position(&self) -> int {
        self.pos as int
    }

    pub fn new(input: &str) -> (p: Self)
        ensures
            p.text() == input@,
            p.position() == 0,
    {
        InlineParser { chars: to_chars(input), pos: 0 }
    }

    /// A parser over the characters `start..end` of a buffer.
    pub fn over(chars: &[char], start: usize, end: usize) -> (p: Self)
        requires
            start <= end <= chars.len(),
        ensures
            p.text() == chars@.subrange(start as int, end as int),
            p.position() == 0,
    {
        let mut v: Vec<char> = Vec::new();
        extend_chars(&mut v, vstd::slice::slice_subrange(chars, start, end));
        InlineParser { chars: v, pos: 0 }
    }

    /// Parses the rest of the text into inline nodes: what `parse_from`
    /// gives from the position reached, with no literal text pending. No
    /// text node among them is empty and no two stand side by side. The
    /// position ends beyond the last character.
    #[verifier::rlimit(50)]
    pub fn parse(&mut self) -> (r: Vec<Inline<'static>>)
        ensures
            inline_views(r@) == parse_from(
                old(self).text(),
                old(self).position(),
                Seq::empty(),
            ),
            tidy_all(inline_views(r@)),
            final(self).text() == old(self).text(),
            final(self).position() >= final(self).text().len(),
        decreases old(self).text().len(), 2int,
    {
        proof {
            lemma_parse_tidy(self.text(), self.position(), Seq::empty());
        }
        let mut inlines: Vec<Inline<'static>> = Vec::new();
        let mut text_buffer = String::new();
        let ghost s = self.chars@;
        let ghost start = self.pos as int;
        proof {
            assert(inline_views(inlines@) + parse_from(s, start, text_buffer@) == parse_from(
                s,
                start,
                Seq::empty(),
            ));
        }
        while !self.eof()
            invariant
                self.chars@ == s,
                s == old(self).text(),
                inline_views(inlines@) + parse_from(s, self.pos as int, text_buffer@)
                    == parse_from(s, start, Seq::empty()),
            decreases s.len() - self.pos,
        {
            let ghost i = self.pos as int;
            let ghost before_views = inline_views(inlines@);
            let ghost before_buf = text_buffer@;
            proof {
                lemma_span_at(s, i);
            }
            match self.try_parse_node() {
                Some(n) => {
                    Self::flush_text(&mut inlines, &mut text_buffer);
                    inlines.push(n);
                    proof {
                        assert(inline_views(inlines@) =~= before_views + flush(before_buf)
                            + seq![node_at(s, i)]);
                    }
                },
                None => {
                    self.take_literal(&mut text_buffer);
                },
            }
        }
        Self::flush_text(&mut inlines, &mut text_buffer);
        inlines
    }

    /// The node of the span at the position reached, with the position
    /// moved past it; nothing, and no movement, where that span is literal.
    pub fn try_parse_node(&mut self) -> (r: Option<Inline<'static>>)
        requires
            old(self).position() < old(self).text().len(),
        ensures
            attempt_ok(*old(self), *final(self), r),
        decreases old(self).text().len(), 1int,
    {
        let c = match self.current_char() {
            Some(c) => c,
            None => {
                return None;
            },
        };
        if c == '<' {
            self.try_parse_html_tag()
        } else if c == '!' && self.peek_char() == Some('[') {
            self.try_parse_image()
        } else if c == '[' {
            self.try_parse_link()
        } else if c == '`' {
            self.try_parse_code_span()
        } else if c == '*' {
            self.try_parse_emphasis()
        } else if c == '~' {
            self.try_parse_strikethrough()
        } else {
            None
        }
    }

    /// Reads the literal span at the position reached into the buffer: the
    /// character that a backslash makes literal, a whole run of delimiters,
    /// or one character.
    pub fn take_literal(&mut self, buffer: &mut String)
        requires
            old(self).position() < old(self).text().len(),
            span_at(old(self).text(), old(self).position()).kind is Literal,
        ensures
            final(self).text() == old(self).text(),
            final(self).position() == span_at(old(self).text(), old(self).position()).next,
            final(buffer)@ == old(buffer)@ + old(self).text().subrange(
                span_at(old(self).text(), old(self).position()).start,
                span_at(old(self).text(), old(self).position()).end,
            ),
    {
        let i = self.pos;
        let c = self.chars[i];
        let ghost s = self.chars@;
        proof {
            assert(self.chars@.len() == self.chars.len());
        }
        let ghost before_buf = buffer@;
        if c == '\\' {
            match self.peek_char() {
                Some(next) => {
                    if Self::is_special_char(next) {
                        buffer.push(next);
                        self.pos = i + 2;
                    } else {
                        buffer.push(c);
                        self.pos = i + 1;
                    }
                },
                None => {
                    buffer.push(c);
                    self.pos = i + 1;
                },
            }
        } else if c == '`' || c == '*' || c == '~' {
            let n = self.count_delimiter(c);
            proof {
                lemma_run_len(s, i as int, c);
            }
            let mut k: usize = 0;
            while k < n
                invariant
                    k <= n,
                    i + n <= s.len(),
                    buffer@ == before_buf + s.subrange(i as int, i + k),
                    forall|j: int| i <= j < i + n ==> #[trigger] s[j] == c,
                decreases n - k,
            {
                buffer.push(c);
                k += 1;
            }
            self.pos = i + n;
        } else {
            buffer.push(c);
            self.pos = i + 1;
        }
        proof {
            let sp = span_at(s, i as int);
            assert(buffer@ =~= before_buf + s.subrange(sp.start, sp.end));
        }
    }

    /// Turns pending literal text into a text node and empties the buffer.
    pub fn flush_text(inlines: &mut Vec<Inline<'static>>, buffer: &mut String)
        ensures
            inline_views(final(inlines)@) == inline_views(old(inlines)@) + flush(old(buffer)@),
            final(buffer)@ == Seq::<char>::empty(),
    {
        if buffer.as_str().unicode_len() != 0 {
            let t = buffer.clone();
            inlines.push(Inline::Text(Cow::Owned(t)));
            *buffer = String::new();
            proof {
                assert(inline_views(inlines@) =~= inline_views(old(inlines)@) + flush(
                    old(buffer)@,
                ));
            }
        } else {
            proof {
                assert(old(buffer)@ =~= Seq::<char>::empty());
                assert(inline_views(inlines@) =~= inline_views(old(inlines)@) + flush(
                    old(buffer)@,
                ));
            }
        }
    }

    /// Whether a backslash makes `c` literal.
    pub fn is_special_char(c: char) -> (r: bool)
        ensures
            r == is_special(c),
    {
        c == '\\' || c == '`' || c == '*' || c == '_' || c == '{' || c == '}' || c == '[' || c
            == ']' || c == '(' || c == ')' || c == '#' || c == '+' || c == '-' || c == '.' || c
            == '!' || c == '|' || c == '>' || c == '~'
    }

    /// Length of the run of `c` at the position reached.
    pub fn count_delimiter(&self, c: char) -> (n: usize)
        requires
            self.position() <= self.text().len(),
        ensures
            n == run_len(self.text(), self.position(), c),
            self.position() + n <= self.text().len() <= usize::MAX,
    {
        run_length(self.chars.as_slice(), self.pos, c)
    }

    /// The character at the position reached.
    pub fn current_char(&self) -> (r: Option<char>)
        ensures
            r == if 0 <= self.position() < self.text().len() {
                Some(self.text()[self.position()])
            } else {
                None
            },
    {
        if self.pos < self.chars.len() {
            Some(self.chars[self.pos])
        } else {
            None
        }
    }

    /// The character after the one at the position reached.
    pub fn peek_char(&self) -> (r: Option<char>)
        ensures
            r == if self.position() + 1 < self.text().len() {
                Some(self.text()[self.position() + 1])
            } else {
                None
            },
    {
        if self.pos < self.chars.len() && self.pos + 1 < self.chars.len() {
            Some(self.chars[self.pos + 1])
        } else {
            None
        }
    }

    /// Whether the position reached is beyond the last character.
    pub fn eof(&self) -> (r: bool)
        ensures
            r == (self.position() >= self.text().len()),
    {
        self.pos >= self.chars.len()
    }
}

impl InlineParser {
    /// The characters `start..end` of the text as a string of its own.
    fn slice(&self, start: usize, end: usize) -> (r: Cow<'static, str>)
        requires
            start <= end <= self.text().len(),
        ensures
            r@ == self.text().subrange(start as int, end as int),
    {
        Cow::Owned(from_chars(vstd::slice::slice_subrange(self.chars.as_slice(), start, end)))
    }

    /// Emphasis or strong emphasis opened by the run of `*` at the position
    /// reached.
    pub fn try_parse_emphasis(&mut self) -> (r: Option<Inline<'static>>)
        requires
            old(self).position() < old(self).text().len(),
            old(self).text()[old(self).position()] == '*',
        ensures
            attempt_ok(*old(self), *final(self), r),
        decreases old(self).text().len(), 0int,
    {
        let start_pos = self.pos;
        let n = self.count_delimiter('*');
        proof {
            lemma_run_len(self.chars@, start_pos as int, '*');
        }
        if n > 3 {
            return None;
        }
        match find_closing_run(self.chars.as_slice(), start_pos + n, '*', n) {
            Some(p) => {
                let mut child = InlineParser::over(self.chars.as_slice(), start_pos + n, p);
                let children = child.parse();
                self.pos = p + n;
                if n == 1 {
                    Some(Inline::Emphasis(children))
                } else if n == 2 {
                    Some(Inline::Strong(children))
                } else {
                    let mut wrapped: Vec<Inline<'static>> = Vec::new();
                    wrapped.push(Inline::Emphasis(children));
                    proof {
                        assert(inline_views(wrapped@) =~= seq![
                            InlineView::Emphasis(inline_views(children@)),
                        ]);
                    }
                    Some(Inline::Strong(wrapped))
                }
            },
            None => None,
        }
    }

    /// Strikethrough opened by a run of exactly two `~` at the position
    /// reached.
    pub fn try_parse_strikethrough(&mut self) -> (r: Option<Inline<'static>>)
        requires
            old(self).position() < old(self).text().len(),
            old(self).text()[old(self).position()] == '~',
        ensures
            attempt_ok(*old(self), *final(self), r),
        decreases old(self).text().len(), 0int,
    {
        let start_pos = self.pos;
        let n = self.count_delimiter('~');
        proof {
            lemma_run_len(self.chars@, start_pos as int, '~');
        }
        if n != 2 {
            return None;
        }
        match find_closing_run(self.chars.as_slice(), start_pos + n, '~', n) {
            Some(p) => {
                let mut child = InlineParser::over(self.chars.as_slice(), start_pos + n, p);
                let children = child.parse();
                self.pos = p + n;
                Some(Inline::Strikethrough(children))
            },
            None => None,
        }
    }

    /// A code span opened by the run of backticks at the position reached.
    pub fn try_parse_code_span(&mut self) -> (r: Option<Inline<'static>>)
        requires
            old(self).position() < old(self).text().len(),
            old(self).text()[old(self).position()] == '`',
        ensures
            attempt_ok(*old(self), *final(self), r),
    {
        let start_pos = self.pos;
        let n = self.count_delimiter('`');
        proof {
            lemma_run_len(self.chars@, start_pos as int, '`');
        }
        match find_closing_run(self.chars.as_slice(), start_pos + n, '`', n) {
            Some(p) => {
                let content = self.slice(start_pos + n, p);
                self.pos = p + n;
                Some(Inline::CodeSpan(content))
            },
            None => None,
        }
    }

    /// The bracket form `[label](url)` at the position reached: the
    /// positions of `]` and `)`. On success the position moves past `)`.
    pub fn parse_bracket_link(&mut self) -> (r: Option<(usize, usize)>)
        requires
            old(self).position() <= old(self).text().len(),
        ensures
            final(self).text() == old(self).text(),
            match r {
                Some((rb, rp)) => bracket_link(old(self).text(), old(self).position()) == Some(
                    (rb as int, rp as int),
                ) && old(self).position() < rb && rb + 2 <= rp < old(self).text().len()
                    && final(self).position() == rp + 1,
                None => bracket_link(old(self).text(), old(self).position()) is None
                    && final(self).position() == old(self).position(),
            },
    {
        let i = self.pos;
        let n = self.chars.len();
        if i >= n || self.chars[i] != '[' {
            return None;
        }
        match find_unescaped_char(self.chars.as_slice(), i + 1, ']') {
            Some(rb) => {
                if rb + 1 >= n || self.chars[rb + 1] != '(' {
                    return None;
                }
                match find_unescaped_char(self.chars.as_slice(), rb + 2, ')') {
                    Some(rp) => {
                        self.pos = rp + 1;
                        Some((rb, rp))
                    },
                    None => None,
                }
            },
            None => None,
        }
    }

    /// An image: `!` followed by the bracket form, whose label is the alt
    /// text as it stands.
    pub fn try_parse_image(&mut self) -> (r: Option<Inline<'static>>)
        requires
            old(self).position() + 1 < old(self).text().len(),
            old(self).text()[old(self).position()] == '!',
            old(self).text()[old(self).position() + 1] == '[',
        ensures
            attempt_ok(*old(self), *final(self), r),
    {
        let start_pos = self.pos;
        proof {
            assert(self.chars@.len() == self.chars.len());
        }
        self.pos = start_pos + 1;
        match self.parse_bracket_link() {
            Some((rb, rp)) => {
                let alt = self.slice(start_pos + 2, rb);
                let url = self.slice(rb + 2, rp);
                Some(Inline::Image { alt, url })
            },
            None => {
                self.pos = start_pos;
                None
            },
        }
    }

    /// A link: the bracket form, whose label is parsed in turn.
    pub fn try_parse_link(&mut self) -> (r: Option<Inline<'static>>)
        requires
            old(self).position() < old(self).text().len(),
            old(self).text()[old(self).position()] == '[',
        ensures
            attempt_ok(*old(self), *final(self), r),
        decreases old(self).text().len(), 0int,
    {
        let start_pos = self.pos;
        match self.parse_bracket_link() {
            Some((rb, rp)) => {
                let mut child = InlineParser::over(self.chars.as_slice(), start_pos + 1, rb);
                let children = child.parse();
                let url = self.slice(rb + 2, rp);
                Some(Inline::Link { children, url })
            },
            None => None,
        }
    }

    /// Raw inline markup from `<` at the position reached to the first `>`.
    pub fn try_parse_html_tag(&mut self) -> (r: Option<Inline<'static>>)
        requires
            old(self).position() < old(self).text().len(),
            old(self).text()[old(self).position()] == '<',
        ensures
            attempt_ok(*old(self), *final(self), r),
    {
        let start_pos = self.pos;
        let n = self.chars.len();
        let gt = find_char(self.chars.as_slice(), start_pos + 1, '>');
        if gt >= n || gt < start_pos + 2 {
            return None;
        }
        let second = self.chars[start_pos + 1];
        if !opens_tag(second, second.is_alphanumeric()) {
            return None;
        }
        let tag = self.slice(start_pos, gt + 1);
        self.pos = gt + 1;
        Some(Inline::RawHtml(tag))
    }
}

} // verus!
