//! The event stream builder: block structure read off a cursor and handed
//! out as a flat sequence of events, one block's worth at a time.

use crate::iterator::event::{event_views, Event, EventView, Tag, TagView};
use crate::iterator::nesting::{balanced, lemma_stream_balanced, lemma_stream_nested, nested};
use crate::iterator::scanner::{has_bom, next_at, peek_at, skip_blanks, width_at, Scanner, SPACE};
use std::borrow::Cow;
use std::collections::VecDeque;
use vstd::prelude::*;
use vstd::string::StringSliceAdditionalSpecFns;
use vstd::utf8::*;

verus! {

/// Where a block stands: at the top of the document, in a block quote, or
/// in a list item.
#[derive(Debug, Clone, Copy)]
pub enum BlockContext {
    Document,
    BlockQuote,
    List,
}

/// Number of bytes from offset `i` to the end.
pub open spec fn bytes_left(bytes: Seq<u8>, i: int) -> nat {
    if 0 <= i < bytes.len() {
        (bytes.len() - i) as nat
    } else {
        0
    }
}

/// Before the end of the text the cursor reads a character and moves
/// forward; at the end it reads nothing and stays.
pub proof fn lemma_next_at(bytes: Seq<u8>, i: int)
    ensures
        0 <= i < bytes.len() ==> next_at(bytes, i) > i && peek_at(bytes, i) is Some,
        !(0 <= i < bytes.len()) ==> next_at(bytes, i) == i && peek_at(bytes, i) is None,
{
}

/// Passing over spaces and tabs moves forward and stays within the text.
pub proof fn lemma_skip_blanks(bytes: Seq<u8>, i: int)
    ensures
        i <= skip_blanks(bytes, i),
        0 <= i <= bytes.len() ==> skip_blanks(bytes, i) <= bytes.len(),
        !(0 <= i < bytes.len()) ==> skip_blanks(bytes, i) == i,
    decreases bytes.len() - i,
{
    if 0 <= i < bytes.len() && (bytes[i] == SPACE || bytes[i] == 9) {
        lemma_skip_blanks(bytes, i + 1);
    }
}

/// The offset of the end of the line that holds offset `i`: the first
/// offset from `i` on at which the cursor reads a line feed or nothing.
pub open spec fn line_end(bytes: Seq<u8>, i: int) -> int
    decreases bytes_left(bytes, i),
{
    if peek_at(bytes, i) is None || peek_at(bytes, i) == Some('\n') {
        i
    } else {
        line_end(bytes, next_at(bytes, i))
    }
}

/// The offset after the run of `c` that the cursor reads from `i` on.
pub open spec fn skip_char(bytes: Seq<u8>, i: int, c: char) -> int
    decreases bytes_left(bytes, i),
{
    if peek_at(bytes, i) == Some(c) {
        skip_char(bytes, next_at(bytes, i), c)
    } else {
        i
    }
}

/// Length of the run of `c` that the cursor reads from `i` on.
pub open spec fn count_char(bytes: Seq<u8>, i: int, c: char) -> nat
    decreases bytes_left(bytes, i),
{
    if peek_at(bytes, i) == Some(c) {
        1 + count_char(bytes, next_at(bytes, i), c)
    } else {
        0
    }
}

/// The end of a line lies at or after the offset, and the cursor reads a
/// line feed or nothing there.
pub proof fn lemma_line_end(bytes: Seq<u8>, i: int)
    ensures
        i <= line_end(bytes, i),
        peek_at(bytes, line_end(bytes, i)) is None || peek_at(bytes, line_end(bytes, i)) == Some(
            '\n',
        ),
    decreases bytes_left(bytes, i),
{
    if !(peek_at(bytes, i) is None || peek_at(bytes, i) == Some('\n')) {
        lemma_line_end(bytes, next_at(bytes, i));
    }
}

/// A run ends at or after its start, spans at least as many bytes as it
/// counts characters, and is followed by another character.
pub proof fn lemma_skip_char(bytes: Seq<u8>, i: int, c: char)
    ensures
        i <= skip_char(bytes, i, c),
        count_char(bytes, i, c) <= skip_char(bytes, i, c) - i,
        peek_at(bytes, skip_char(bytes, i, c)) != Some(c),
    decreases bytes_left(bytes, i),
{
    if peek_at(bytes, i) == Some(c) {
        lemma_skip_char(bytes, next_at(bytes, i), c);
    }
}

/// Whether a heading begins at offset `i`: one to six `#`, then a space, a
/// tab, a line end or the end of the text.
pub open spec fn at_heading(bytes: Seq<u8>, i: int) -> bool {
    let k = count_char(bytes, i, '#');
    let after = peek_at(bytes, skip_char(bytes, i, '#'));
    1 <= k <= 6 && (after is None || after == Some(' ') || after == Some('\t') || after == Some(
        '\n',
    ))
}

/// Whether a block quote begins at offset `i`: `>` after spaces and tabs.
pub open spec fn at_blockquote(bytes: Seq<u8>, i: int) -> bool {
    peek_at(bytes, skip_blanks(bytes, i)) == Some('>')
}

/// Whether a list item begins at offset `i`: after spaces and tabs one of
/// `-`, `*`, `+`, then a space, a line end or the end of the text.
pub open spec fn at_list_item(bytes: Seq<u8>, i: int) -> bool {
    let j = skip_blanks(bytes, i);
    let marker = peek_at(bytes, j);
    let after = peek_at(bytes, next_at(bytes, j));
    (marker == Some('-') || marker == Some('*') || marker == Some('+')) && (after is None || after
        == Some(' ') || after == Some('\n'))
}

/// Whether the line at offset `i` breaks off a paragraph before it.
pub open spec fn interrupts(bytes: Seq<u8>, i: int) -> bool {
    at_heading(bytes, i) || at_blockquote(bytes, i) || at_list_item(bytes, i)
}

/// The text between two offsets.
pub open spec fn text_between(bytes: Seq<u8>, a: int, b: int) -> Seq<char> {
    decode_utf8(bytes.subrange(a, b))
}

/// The level of a heading opened by `k` markers: `k`, and six for more.
pub open spec fn clamp_level(k: nat) -> u8 {
    if k > 6 {
        6u8
    } else {
        k as u8
    }
}

/// The events of a heading at offset `i` and the bytes it takes: the `#`
/// run, spaces and tabs, the text up to the line end, and the line end.
pub open spec fn heading_events(bytes: Seq<u8>, i: int) -> (Seq<EventView>, nat) {
    let level = clamp_level(count_char(bytes, i, '#'));
    let j = skip_blanks(bytes, skip_char(bytes, i, '#'));
    let e = line_end(bytes, j);
    let end = next_at(bytes, e);
    (
        seq![
            EventView::Start(TagView::Heading(level)),
            EventView::Text(text_between(bytes, j, e)),
            EventView::End(TagView::Heading(level)),
        ],
        (end - i) as nat,
    )
}

/// The level of a heading goes by the number `k` of its markers: `k`
/// itself for one to six markers, six for more; and where there is no
/// marker no heading begins.
pub proof fn lemma_heading_level(bytes: Seq<u8>, i: int)
    ensures
        ({
            let k = count_char(bytes, i, '#');
            let events = heading_events(bytes, i).0;
            &&& 1 <= k <= 6 ==> events[0] == EventView::Start(TagView::Heading(k as u8))
                && events[2] == EventView::End(TagView::Heading(k as u8))
            &&& k > 6 ==> events[0] == EventView::Start(TagView::Heading(6)) && events[2]
                == EventView::End(TagView::Heading(6))
            &&& k == 0 ==> !at_heading(bytes, i)
        }),
{
}

/// The events of one line of text from offset `i` and the bytes it takes:
/// its text if it has any, and for a line end a hard break if the line
/// ends in two spaces or more, else a soft break.
pub open spec fn text_line(bytes: Seq<u8>, i: int) -> (Seq<EventView>, nat) {
    let e = line_end(bytes, i);
    let text = if e > i {
        seq![EventView::Text(text_between(bytes, i, e))]
    } else {
        seq![]
    };
    if peek_at(bytes, e) == Some('\n') {
        let hard = e - i >= 2 && bytes[e - 1] == SPACE && bytes[e - 2] == SPACE;
        (
            text + seq![
                if hard {
                    EventView::HardBreak
                } else {
                    EventView::SoftBreak
                },
            ],
            (next_at(bytes, e) - i) as nat,
        )
    } else {
        (text, (e - i) as nat)
    }
}

/// A line of text before the end of the text takes at least one byte.
pub proof fn lemma_text_line(bytes: Seq<u8>, i: int)
    ensures
        0 <= i < bytes.len() ==> text_line(bytes, i).1 >= 1,
{
    lemma_line_end(bytes, i);
    lemma_next_at(bytes, line_end(bytes, i));
    lemma_next_at(bytes, i);
}

/// After a line of a paragraph, with the next line at offset `p`: whether
/// the paragraph goes on, and the offset at which parsing goes on. A blank
/// line ends the paragraph and is taken; a line that begins a heading, a
/// block quote or a list item ends it and is left; in a block quote every
/// other line ends it too.
pub open spec fn after_line(bytes: Seq<u8>, p: int, ctx: BlockContext) -> (bool, int) {
    let q = skip_blanks(bytes, p);
    if !(0 <= p < bytes.len()) {
        (false, p)
    } else if peek_at(bytes, q) == Some('\n') {
        (false, next_at(bytes, q))
    } else if interrupts(bytes, p) {
        (false, p)
    } else if ctx is BlockQuote {
        (false, p)
    } else {
        (true, p)
    }
}

/// The lines of a paragraph from offset `i` on.
pub open spec fn para_lines(bytes: Seq<u8>, i: int, ctx: BlockContext) -> (Seq<EventView>, nat)
    decreases bytes_left(bytes, i),
{
    let line = text_line(bytes, i);
    let p = i + line.1;
    let next = after_line(bytes, p, ctx);
    proof {
        lemma_text_line(bytes, i);
    }
    if next.0 && 0 <= i {
        let rest = para_lines(bytes, next.1, ctx);
        (line.0 + rest.0, (next.1 - i + rest.1) as nat)
    } else {
        (line.0, (next.1 - i) as nat)
    }
}

/// The events of a paragraph at offset `i`.
pub open spec fn paragraph_events(bytes: Seq<u8>, i: int, ctx: BlockContext) -> (
    Seq<EventView>,
    nat,
) {
    let body = para_lines(bytes, i, ctx);
    (
        seq![EventView::Start(TagView::Paragraph)] + body.0 + seq![
            EventView::End(TagView::Paragraph),
        ],
        body.1,
    )
}

/// The events of the block at offset `i` and the bytes it takes: a
/// heading, a block quote, a list or, if none of these begins there, a
/// paragraph.
pub open spec fn dispatch(bytes: Seq<u8>, i: int, ctx: BlockContext) -> (Seq<EventView>, nat)
    decreases bytes_left(bytes, i), 3nat,
{
    if at_heading(bytes, i) {
        heading_events(bytes, i)
    } else if at_blockquote(bytes, i) {
        blockquote_events(bytes, i)
    } else if at_list_item(bytes, i) {
        list_events(bytes, i)
    } else {
        paragraph_events(bytes, i, ctx)
    }
}

/// What follows a quote or list marker at offset `k`: a line end, which
/// is taken and gives nothing, or a block.
pub open spec fn marked_block(bytes: Seq<u8>, k: int, ctx: BlockContext) -> (Seq<EventView>, nat)
    decreases bytes_left(bytes, k), 4nat,
{
    if peek_at(bytes, k) == Some('\n') {
        (seq![], width_at(bytes, k) as nat)
    } else {
        dispatch(bytes, k, ctx)
    }
}

/// The events of a block quote at offset `i`.
pub open spec fn blockquote_events(bytes: Seq<u8>, i: int) -> (Seq<EventView>, nat)
    decreases bytes_left(bytes, i), 2nat,
{
    let body = quote_body(bytes, i);
    (
        seq![EventView::Start(TagView::BlockQuote)] + body.0 + seq![
            EventView::End(TagView::BlockQuote),
        ],
        body.1,
    )
}

/// The lines of a block quote from offset `i` on. Each line must carry
/// `>` after spaces and tabs; one space after the marker is taken with it.
/// A line without the marker ends the quote and is left; so does the end
/// of the text.
pub open spec fn quote_body(bytes: Seq<u8>, i: int) -> (Seq<EventView>, nat)
    decreases bytes_left(bytes, i), 1nat,
{
    let j = skip_blanks(bytes, i);
    if peek_at(bytes, j) != Some('>') || i < 0 {
        (seq![], 0)
    } else {
        let k = next_at(bytes, j);
        let k2 = if peek_at(bytes, k) == Some(' ') {
            next_at(bytes, k)
        } else {
            k
        };
        proof {
            lemma_skip_blanks(bytes, i);
            lemma_next_at(bytes, j);
            lemma_next_at(bytes, k);
        }
        let inner = marked_block(bytes, k2, BlockContext::BlockQuote);
        let p = k2 + inner.1;
        if p >= bytes.len() {
            (inner.0, (p - i) as nat)
        } else {
            let rest = quote_body(bytes, p);
            (inner.0 + rest.0, (p - i + rest.1) as nat)
        }
    }
}

/// The events of a list at offset `i`.
pub open spec fn list_events(bytes: Seq<u8>, i: int) -> (Seq<EventView>, nat)
    decreases bytes_left(bytes, i), 2nat,
{
    let body = list_items(bytes, i);
    (
        seq![EventView::Start(TagView::List(None))] + body.0 + seq![
            EventView::End(TagView::List(None)),
        ],
        body.1,
    )
}

/// The items of a list from offset `i` on. An item takes its marker with
/// the spaces and tabs around it and then a line end or a block; one blank
/// line after an item is taken with it. The first line that begins no list
/// item ends the list.
pub open spec fn list_items(bytes: Seq<u8>, i: int) -> (Seq<EventView>, nat)
    decreases bytes_left(bytes, i), 1nat,
{
    if !at_list_item(bytes, i) || i < 0 {
        (seq![], 0)
    } else {
        let j = skip_blanks(bytes, i);
        let k = skip_blanks(bytes, next_at(bytes, j));
        proof {
            lemma_skip_blanks(bytes, i);
            lemma_next_at(bytes, j);
            lemma_skip_blanks(bytes, next_at(bytes, j));
        }
        let inner = marked_block(bytes, k, BlockContext::List);
        let p = k + inner.1;
        let q = skip_blanks(bytes, p);
        let resume = if peek_at(bytes, q) == Some('\n') {
            next_at(bytes, q)
        } else {
            p
        };
        proof {
            lemma_skip_blanks(bytes, p);
            lemma_next_at(bytes, q);
        }
        let rest = list_items(bytes, resume);
        (
            seq![EventView::Start(TagView::Item)] + inner.0 + seq![EventView::End(TagView::Item)]
                + rest.0,
            (resume - i + rest.1) as nat,
        )
    }
}

/// The offset after the blank lines at offset `i`: lines of spaces and
/// tabs only are passed over, and the first other line is left whole.
pub open spec fn skip_blank_lines(bytes: Seq<u8>, i: int) -> int
    decreases bytes_left(bytes, i),
{
    let j = skip_blanks(bytes, i);
    if peek_at(bytes, j) == Some('\n') && 0 <= i {
        proof {
            lemma_skip_blanks(bytes, i);
            lemma_next_at(bytes, j);
        }
        skip_blank_lines(bytes, next_at(bytes, j))
    } else {
        i
    }
}

/// The lazy parser: a cursor, the events already decided and not yet
/// handed out, and whether the end of the text has been seen.
pub struct Parser<'a> {
    scanner: Scanner<'a>,
    event_queue: VecDeque<Event<'a>>,
    finished: bool,
}

/// The parser has added the events `out.0` to its queue and moved its
/// cursor on by `out.1` bytes; nothing else has changed.
pub open spec fn produced(before: Parser, after: Parser, out: (Seq<EventView>, nat)) -> bool {
    &&& after.wf()
    &&& after.bytes() == before.bytes()
    &&& after.finished() == before.finished()
    &&& after.queued() == before.queued() + out.0
    &&& after.offset() == before.offset() + out.1
}

/// The parser looks as it did before.
pub open spec fn unmoved(before: Parser, after: Parser) -> bool {
    &&& after.wf()
    &&& after.bytes() == before.bytes()
    &&& after.finished() == before.finished()
    &&& after.queued() == before.queued()
    &&& after.offset() == before.offset()
}

impl<'a> Parser<'a> {
    /// The cursor is valid.
    pub closed spec fn wf(&self) -> bool {
        self.scanner.wf()
    }

    /// The bytes of the text.
    pub closed spec fn bytes(&self) -> Seq<u8> {
        self.scanner.bytes()
    }

    /// The offset that the cursor has reached.
    pub closed spec fn offset(&self) -> int {
        self.scanner.offset()
    }

    /// The events decided and not yet handed out.
    pub closed spec fn queued(&self) -> Seq<EventView> {
        event_views(self.event_queue@)
    }

    /// Whether the end of the text has been seen.
    pub closed spec fn finished(&self) -> bool {
        self.finished
    }

    pub fn new(input: &'a str) -> (p: Self)
        ensures
            p.wf(),
            p.bytes() == input.spec_bytes(),
            p.offset() == if has_bom(input.spec_bytes()) {
                3int
            } else {
                0int
            },
            p.queued() == Seq::<EventView>::empty(),
            !p.finished(),
            p.remaining() == events_from(p.bytes(), p.offset()),
    {
        let p = Self {
            scanner: Scanner::new(input),
            event_queue: VecDeque::new(),
            finished: false,
        };
        proof {
            assert(event_views(p.event_queue@) =~= Seq::<EventView>::empty());
            assert(p.remaining() =~= events_from(p.bytes(), p.offset()));
        }
        p
    }

    /// Adds an event at the back of the queue.
    fn push(&mut self, event: Event<'a>)
        requires
            old(self).wf(),
        ensures
            produced(*old(self), *final(self), (seq![event@], 0nat)),
    {
        let ghost before = event_views(self.event_queue@);
        self.event_queue.push_back(event);
        proof {
            assert(event_views(self.event_queue@) =~= before + seq![event@]);
        }
    }

    /// Moves the cursor past the run of `#` at it and says how long the run
    /// was.
    fn count_hashes(&mut self) -> (k: usize)
        requires
            old(self).wf(),
        ensures
            final(self).wf(),
            final(self).bytes() == old(self).bytes(),
            final(self).finished() == old(self).finished(),
            final(self).queued() == old(self).queued(),
            final(self).offset() == skip_char(old(self).bytes(), old(self).offset(), '#'),
            k == count_char(old(self).bytes(), old(self).offset(), '#'),
    {
        let ghost start = self.scanner.offset();
        let ghost bytes = self.scanner.bytes();
        let mut level: usize = 0;
        let mut go = true;
        while go
            invariant
                self.scanner.wf(),
                self.scanner.bytes() == bytes,
                self.finished == old(self).finished,
                self.event_queue == old(self).event_queue,
                start <= self.scanner.offset(),
                level <= self.scanner.offset() - start,
                level + count_char(bytes, self.scanner.offset(), '#') == count_char(
                    bytes,
                    start,
                    '#',
                ),
                skip_char(bytes, self.scanner.offset(), '#') == skip_char(bytes, start, '#'),
                !go ==> peek_at(bytes, self.scanner.offset()) != Some('#'),
            decreases bytes_left(bytes, self.scanner.offset()) + (if go { 1int } else { 0int }),
        {
            proof {
                self.scanner.lemma_wf();
                lemma_next_at(bytes, self.scanner.offset());
            }
            if self.scanner.match_char('#') {
                level += 1;
            } else {
                go = false;
            }
        }
        level
    }

    /// Moves the cursor to the end of the line it is on.
    fn to_line_end(&mut self)
        requires
            old(self).wf(),
        ensures
            final(self).wf(),
            final(self).bytes() == old(self).bytes(),
            final(self).finished() == old(self).finished(),
            final(self).queued() == old(self).queued(),
            final(self).offset() == line_end(old(self).bytes(), old(self).offset()),
    {
        let ghost start = self.scanner.offset();
        let ghost bytes = self.scanner.bytes();
        let mut go = true;
        while go
            invariant
                self.scanner.wf(),
                self.scanner.bytes() == bytes,
                self.finished == old(self).finished,
                self.event_queue == old(self).event_queue,
                line_end(bytes, self.scanner.offset()) == line_end(bytes, start),
                !go ==> line_end(bytes, self.scanner.offset()) == self.scanner.offset(),
            decreases bytes_left(bytes, self.scanner.offset()) + (if go { 1int } else { 0int }),
        {
            proof {
                self.scanner.lemma_wf();
                lemma_next_at(bytes, self.scanner.offset());
            }
            match self.scanner.peek() {
                Some(c) => {
                    if c == '\n' {
                        go = false;
                    } else {
                        self.scanner.next_char();
                    }
                },
                None => {
                    go = false;
                },
            }
        }
    }

    /// Moves the cursor past the blank lines at it.
    pub fn skip_blank_lines(&mut self)
        requires
            old(self).wf(),
        ensures
            final(self).wf(),
            final(self).bytes() == old(self).bytes(),
            final(self).finished() == old(self).finished(),
            final(self).queued() == old(self).queued(),
            final(self).offset() == skip_blank_lines(old(self).bytes(), old(self).offset()),
    {
        let ghost first = self.scanner.offset();
        let ghost bytes = self.scanner.bytes();
        let mut go = true;
        proof {
            self.scanner.lemma_wf();
        }
        while go
            invariant
                self.scanner.wf(),
                self.scanner.bytes() == bytes,
                self.finished == old(self).finished,
                self.event_queue == old(self).event_queue,
                0 <= self.scanner.offset(),
                skip_blank_lines(bytes, self.scanner.offset()) == skip_blank_lines(bytes, first),
                !go ==> skip_blank_lines(bytes, self.scanner.offset()) == self.scanner.offset(),
            decreases bytes_left(bytes, self.scanner.offset()) + (if go { 1int } else { 0int }),
        {
            let start = self.scanner.position();
            proof {
                self.scanner.lemma_wf();
                lemma_skip_blanks(bytes, start as int);
                lemma_next_at(bytes, skip_blanks(bytes, start as int));
            }
            self.scanner.skip_whitespace();
            if !self.scanner.match_char('\n') {
                self.scanner.set_position(start);
                go = false;
            }
        }
    }

    /// Whether a heading begins at the cursor, which stays where it is.
    pub fn is_at_heading_start(&mut self) -> (r: bool)
        requires
            old(self).wf(),
        ensures
            unmoved(*old(self), *final(self)),
            r == at_heading(old(self).bytes(), old(self).offset()),
    {
        let start = self.scanner.position();
        proof {
            self.scanner.lemma_wf();
        }
        let level = self.count_hashes();
        if level == 0 || level > 6 {
            self.scanner.set_position(start);
            return false;
        }
        let valid = match self.scanner.peek() {
            Some(c) => c == ' ' || c == '\t' || c == '\n',
            None => true,
        };
        self.scanner.set_position(start);
        valid
    }

    /// Whether a block quote begins at the cursor, which stays where it
    /// is.
    pub fn is_at_blockquote_start(&mut self) -> (r: bool)
        requires
            old(self).wf(),
        ensures
            unmoved(*old(self), *final(self)),
            r == at_blockquote(old(self).bytes(), old(self).offset()),
    {
        let start = self.scanner.position();
        proof {
            self.scanner.lemma_wf();
        }
        self.scanner.skip_whitespace();
        let res = self.scanner.match_char('>');
        self.scanner.set_position(start);
        res
    }

    /// Whether a list item begins at the cursor, which stays where it is.
    pub fn is_at_list_item_start(&mut self) -> (r: bool)
        requires
            old(self).wf(),
        ensures
            unmoved(*old(self), *final(self)),
            r == at_list_item(old(self).bytes(), old(self).offset()),
    {
        let start = self.scanner.position();
        proof {
            self.scanner.lemma_wf();
        }
        self.scanner.skip_whitespace();
        let mut res = false;
        match self.scanner.peek() {
            Some(c) => {
                if c == '-' || c == '*' || c == '+' {
                    self.scanner.next_char();
                    res = match self.scanner.peek() {
                        Some(d) => d == ' ' || d == '\n',
                        None => true,
                    };
                }
            },
            None => {},
        }
        self.scanner.set_position(start);
        res
    }

    /// Whether the line at the cursor breaks off a paragraph before it.
    pub fn is_interrupted(&mut self, _ctx: BlockContext) -> (r: bool)
        requires
            old(self).wf(),
        ensures
            unmoved(*old(self), *final(self)),
            r == interrupts(old(self).bytes(), old(self).offset()),
    {
        if self.is_at_heading_start() {
            return true;
        }
        if self.is_at_blockquote_start() {
            return true;
        }
        if self.is_at_list_item_start() {
            return true;
        }
        false
    }
}

/// Passing over blank lines moves forward.
pub proof fn lemma_skip_blank_lines(bytes: Seq<u8>, i: int)
    ensures
        i <= skip_blank_lines(bytes, i),
    decreases bytes_left(bytes, i),
{
    let j = skip_blanks(bytes, i);
    if peek_at(bytes, j) == Some('\n') && 0 <= i {
        lemma_skip_blanks(bytes, i);
        lemma_next_at(bytes, j);
        lemma_skip_blank_lines(bytes, next_at(bytes, j));
    }
}

/// A block that begins before the end of the text takes at least one byte
/// and gives at least its start and end events.
pub proof fn lemma_dispatch_takes(bytes: Seq<u8>, i: int, ctx: BlockContext)
    requires
        0 <= i < bytes.len(),
    ensures
        dispatch(bytes, i, ctx).1 >= 1,
        dispatch(bytes, i, ctx).0.len() >= 2,
{
    lemma_skip_char(bytes, i, '#');
    let j = skip_blanks(bytes, skip_char(bytes, i, '#'));
    lemma_skip_blanks(bytes, skip_char(bytes, i, '#'));
    lemma_line_end(bytes, j);
    lemma_next_at(bytes, line_end(bytes, j));
    let b = skip_blanks(bytes, i);
    lemma_skip_blanks(bytes, i);
    lemma_next_at(bytes, b);
    lemma_next_at(bytes, next_at(bytes, b));
    lemma_skip_blanks(bytes, next_at(bytes, b));
    lemma_text_line(bytes, i);
    let p = i + text_line(bytes, i).1;
    lemma_skip_blanks(bytes, p);
    lemma_next_at(bytes, skip_blanks(bytes, p));
    if at_list_item(bytes, i) {
        let k = skip_blanks(bytes, next_at(bytes, b));
        let inner = marked_block(bytes, k, BlockContext::List);
        let taken = k + inner.1;
        lemma_skip_blanks(bytes, taken);
        lemma_next_at(bytes, skip_blanks(bytes, taken));
    }
}

/// The events of the text from offset `i` on: blank lines are passed over,
/// and block follows block until the end of the text.
pub open spec fn events_from(bytes: Seq<u8>, i: int) -> Seq<EventView>
    decreases bytes_left(bytes, i),
{
    let j = skip_blank_lines(bytes, i);
    if !(0 <= j < bytes.len()) || i < 0 {
        seq![]
    } else {
        let block = dispatch(bytes, j, BlockContext::Document);
        proof {
            lemma_skip_blank_lines(bytes, i);
            lemma_dispatch_takes(bytes, j, BlockContext::Document);
        }
        block.0 + events_from(bytes, j + block.1)
    }
}

/// Whether the bytes of a string slice end in two spaces.
pub fn ends_with_two_spaces(s: &str) -> (r: bool)
    ensures
        r == ({
            let b = s.spec_bytes();
            b.len() >= 2 && b[b.len() - 1] == SPACE && b[b.len() - 2] == SPACE
        }),
{
    let b = s.as_bytes();
    let n = b.len();
    n >= 2 && b[n - 1] == SPACE && b[n - 2] == SPACE
}

impl<'a> Parser<'a> {
    /// Reads a heading at the cursor: the level goes by the number of `#`,
    /// six for more than six, and the text is the rest of the line after
    /// spaces and tabs. Without a `#` at the cursor nothing is read.
    pub fn parse_heading(&mut self) -> (r: bool)
        requires
            old(self).wf(),
        ensures
            r == (count_char(old(self).bytes(), old(self).offset(), '#') >= 1),
            r ==> produced(
                *old(self),
                *final(self),
                heading_events(old(self).bytes(), old(self).offset()),
            ),
            !r ==> unmoved(*old(self), *final(self)),
    {
        let ghost bytes = self.bytes();
        let ghost start = self.offset();
        let k = self.count_hashes();
        if k == 0 {
            return false;
        }
        let level: u8 = if k > 6 {
            6
        } else {
            k as u8
        };
        self.scanner.skip_whitespace();
        let content_start = self.scanner.position();
        proof {
            self.scanner.lemma_wf();
            lemma_skip_char(bytes, start, '#');
            lemma_skip_blanks(bytes, skip_char(bytes, start, '#'));
            lemma_line_end(bytes, content_start as int);
            lemma_next_at(bytes, line_end(bytes, content_start as int));
        }
        self.to_line_end();
        let content_end = self.scanner.position();
        proof {
            self.scanner.lemma_wf();
        }
        self.scanner.match_char('\n');
        let content = self.scanner.slice(content_start, content_end);
        let ghost q0 = self.queued();
        self.push(Event::Start(Tag::Heading(level)));
        self.push(Event::Text(Cow::Borrowed(content)));
        self.push(Event::End(Tag::Heading(level)));
        proof {
            assert(self.queued() =~= q0 + heading_events(bytes, start).0);
        }
        true
    }

    /// Reads one line of text at the cursor.
    pub fn parse_text_line(&mut self)
        requires
            old(self).wf(),
        ensures
            produced(*old(self), *final(self), text_line(old(self).bytes(), old(self).offset())),
    {
        let ghost bytes = self.bytes();
        let ghost q0 = self.queued();
        let start = self.scanner.position();
        proof {
            self.scanner.lemma_wf();
            lemma_line_end(bytes, start as int);
            lemma_next_at(bytes, line_end(bytes, start as int));
        }
        self.to_line_end();
        let end = self.scanner.position();
        proof {
            self.scanner.lemma_wf();
        }
        if end > start {
            let text = self.scanner.slice(start, end);
            self.push(Event::Text(Cow::Borrowed(text)));
        }
        let ghost q1 = self.queued();
        if self.scanner.match_char('\n') {
            let raw = self.scanner.slice(start, end);
            if ends_with_two_spaces(raw) {
                self.push(Event::HardBreak);
            } else {
                self.push(Event::SoftBreak);
            }
            proof {
                assert(self.queued() =~= q0 + text_line(bytes, start as int).0);
            }
        } else {
            proof {
                assert(self.queued() =~= q0 + text_line(bytes, start as int).0);
            }
        }
    }

    /// Reads a paragraph at the cursor: line after line until a blank
    /// line, which is taken, a line that begins another block, or the end
    /// of the text.
    #[verifier::rlimit(50)]
    pub fn parse_paragraph(&mut self, ctx: BlockContext)
        requires
            old(self).wf(),
        ensures
            produced(
                *old(self),
                *final(self),
                paragraph_events(old(self).bytes(), old(self).offset(), ctx),
            ),
    {
        let ghost bytes = self.bytes();
        let ghost q0 = self.queued();
        let ghost first = self.offset();
        self.push(Event::Start(Tag::Paragraph));
        let ghost acc = Seq::<EventView>::empty();
        let ghost whole = para_lines(bytes, first, ctx);
        let mut go = true;
        proof {
            self.scanner.lemma_wf();
            assert(acc + whole.0 =~= whole.0);
        }
        while go
            invariant
                self.wf(),
                self.bytes() == bytes,
                self.finished() == old(self).finished(),
                self.queued() == q0 + seq![EventView::Start(TagView::Paragraph)] + acc,
                0 <= first <= self.offset(),
                whole == para_lines(bytes, first, ctx),
                go ==> acc + para_lines(bytes, self.offset(), ctx).0 == whole.0,
                go ==> self.offset() - first + para_lines(bytes, self.offset(), ctx).1 == whole.1,
                !go ==> acc == whole.0 && self.offset() - first == whole.1,
            decreases bytes_left(bytes, self.offset()) + (if go { 1int } else { 0int }),
        {
            let ghost at = self.offset();
            let ghost line = text_line(bytes, at);
            let ghost acc0 = acc;
            proof {
                lemma_text_line(bytes, at);
            }
            self.parse_text_line();
            proof {
                acc = acc0 + line.0;
                self.scanner.lemma_wf();
                lemma_skip_blanks(bytes, self.offset());
                lemma_next_at(bytes, skip_blanks(bytes, self.offset()));
                assert(self.queued() =~= q0 + seq![EventView::Start(TagView::Paragraph)] + acc);
            }
            if self.scanner.is_eof() {
                go = false;
            } else {
                let save = self.scanner.position();
                self.scanner.skip_whitespace();
                if self.scanner.match_char('\n') {
                    go = false;
                } else {
                    self.scanner.set_position(save);
                    if self.is_interrupted(ctx) {
                        go = false;
                    } else {
                        match ctx {
                            BlockContext::BlockQuote => {
                                go = false;
                            },
                            _ => {
                                proof {
                                    assert(acc0 + line.0 + para_lines(bytes, self.offset(), ctx).0
                                        =~= acc0 + para_lines(bytes, at, ctx).0);
                                }
                            },
                        }
                    }
                }
            }
            proof {
                if !go {
                    assert(acc0 + line.0 =~= acc0 + para_lines(bytes, at, ctx).0);
                }
            }
        }
        self.push(Event::End(Tag::Paragraph));
        proof {
            assert(self.queued() =~= q0 + paragraph_events(bytes, first, ctx).0);
        }
    }
}

impl<'a> Parser<'a> {
    /// Reads the block at the cursor: a heading, a block quote, a list or
    /// else a paragraph.
    pub fn dispatch_block(&mut self, ctx: BlockContext)
        requires
            old(self).wf(),
        ensures
            produced(
                *old(self),
                *final(self),
                dispatch(old(self).bytes(), old(self).offset(), ctx),
            ),
        decreases bytes_left(old(self).bytes(), old(self).offset()), 3nat,
    {
        if self.is_at_heading_start() {
            self.parse_heading();
            return ;
        }
        if self.is_at_blockquote_start() {
            self.parse_blockquote(ctx);
            return ;
        }
        if self.is_at_list_item_start() {
            self.parse_list(ctx);
            return ;
        }
        self.parse_paragraph(ctx);
    }

    /// Reads what follows a quote or list marker: a line end, or a block.
    fn parse_marked(&mut self, ctx: BlockContext)
        requires
            old(self).wf(),
        ensures
            produced(
                *old(self),
                *final(self),
                marked_block(old(self).bytes(), old(self).offset(), ctx),
            ),
        decreases bytes_left(old(self).bytes(), old(self).offset()), 4nat,
    {
        let ghost q0 = self.queued();
        let at_line_end = match self.scanner.peek() {
            Some(c) => c == '\n',
            None => false,
        };
        if at_line_end {
            proof {
                self.scanner.lemma_wf();
                lemma_next_at(self.bytes(), self.offset());
            }
            self.scanner.next_char();
            proof {
                assert(self.queued() =~= q0 + Seq::<EventView>::empty());
            }
        } else {
            self.dispatch_block(ctx);
        }
    }

    /// Reads a block quote at the cursor.
    #[verifier::rlimit(50)]
    pub fn parse_blockquote(&mut self, _parent_ctx: BlockContext)
        requires
            old(self).wf(),
        ensures
            produced(
                *old(self),
                *final(self),
                blockquote_events(old(self).bytes(), old(self).offset()),
            ),
        decreases bytes_left(old(self).bytes(), old(self).offset()), 2nat,
    {
        let ghost bytes = self.bytes();
        let ghost q0 = self.queued();
        let ghost first = self.offset();
        self.push(Event::Start(Tag::BlockQuote));
        let ghost acc = Seq::<EventView>::empty();
        let ghost whole = quote_body(bytes, first);
        let mut go = true;
        proof {
            self.scanner.lemma_wf();
            assert(acc + whole.0 =~= whole.0);
        }
        while go
            invariant
                self.wf(),
                self.bytes() == bytes,
                bytes == old(self).bytes(),
                first == old(self).offset(),
                self.finished() == old(self).finished(),
                self.queued() == q0 + seq![EventView::Start(TagView::BlockQuote)] + acc,
                0 <= first <= self.offset(),
                whole == quote_body(bytes, first),
                go ==> acc + quote_body(bytes, self.offset()).0 == whole.0,
                go ==> self.offset() - first + quote_body(bytes, self.offset()).1 == whole.1,
                !go ==> acc == whole.0 && self.offset() - first == whole.1,
            decreases bytes_left(bytes, self.offset()) + (if go { 1int } else { 0int }),
        {
            let ghost at = self.offset();
            let ghost acc0 = acc;
            let line_start = self.scanner.position();
            proof {
                self.scanner.lemma_wf();
                lemma_skip_blanks(bytes, at);
                lemma_next_at(bytes, skip_blanks(bytes, at));
                lemma_next_at(bytes, next_at(bytes, skip_blanks(bytes, at)));
            }
            self.scanner.skip_whitespace();
            if !self.scanner.match_char('>') {
                self.scanner.set_position(line_start);
                go = false;
                proof {
                    assert(acc0 =~= acc0 + quote_body(bytes, at).0);
                }
            } else {
                self.scanner.match_char(' ');
                let ghost inner = marked_block(bytes, self.offset(), BlockContext::BlockQuote);
                self.parse_marked(BlockContext::BlockQuote);
                proof {
                    acc = acc0 + inner.0;
                    self.scanner.lemma_wf();
                    assert(self.queued() =~= q0 + seq![EventView::Start(TagView::BlockQuote)]
                        + acc);
                }
                if self.scanner.is_eof() {
                    go = false;
                    proof {
                        assert(acc0 + inner.0 =~= acc0 + quote_body(bytes, at).0);
                    }
                } else {
                    proof {
                        assert(acc0 + inner.0 + quote_body(bytes, self.offset()).0 =~= acc0
                            + quote_body(bytes, at).0);
                    }
                }
            }
        }
        self.push(Event::End(Tag::BlockQuote));
        proof {
            assert(self.queued() =~= q0 + blockquote_events(bytes, first).0);
        }
    }

    /// Reads a list at the cursor.
    #[verifier::rlimit(50)]
    pub fn parse_list(&mut self, _parent_ctx: BlockContext)
        requires
            old(self).wf(),
        ensures
            produced(*old(self), *final(self), list_events(old(self).bytes(), old(self).offset())),
        decreases bytes_left(old(self).bytes(), old(self).offset()), 2nat,
    {
        let ghost bytes = self.bytes();
        let ghost q0 = self.queued();
        let ghost first = self.offset();
        self.push(Event::Start(Tag::List(None)));
        let ghost acc = Seq::<EventView>::empty();
        let ghost whole = list_items(bytes, first);
        proof {
            self.scanner.lemma_wf();
            assert(acc + whole.0 =~= whole.0);
        }
        let mut go = self.is_at_list_item_start();
        while go
            invariant
                self.wf(),
                self.bytes() == bytes,
                bytes == old(self).bytes(),
                first == old(self).offset(),
                self.finished() == old(self).finished(),
                self.queued() == q0 + seq![EventView::Start(TagView::List(None))] + acc,
                0 <= first <= self.offset(),
                whole == list_items(bytes, first),
                acc + list_items(bytes, self.offset()).0 == whole.0,
                self.offset() - first + list_items(bytes, self.offset()).1 == whole.1,
                go == at_list_item(bytes, self.offset()),
            decreases bytes_left(bytes, self.offset()) + (if go { 1int } else { 0int }),
        {
            let ghost at = self.offset();
            let ghost acc0 = acc;
            proof {
                self.scanner.lemma_wf();
                lemma_skip_blanks(bytes, at);
                lemma_next_at(bytes, skip_blanks(bytes, at));
                lemma_skip_blanks(bytes, next_at(bytes, skip_blanks(bytes, at)));
            }
            self.push(Event::Start(Tag::Item));
            self.scanner.skip_whitespace();
            self.scanner.next_char();
            self.scanner.skip_whitespace();
            let ghost inner = marked_block(bytes, self.offset(), BlockContext::List);
            self.parse_marked(BlockContext::List);
            self.push(Event::End(Tag::Item));
            let pos = self.scanner.position();
            proof {
                self.scanner.lemma_wf();
                lemma_skip_blanks(bytes, pos as int);
                lemma_next_at(bytes, skip_blanks(bytes, pos as int));
            }
            self.scanner.skip_whitespace();
            if !self.scanner.match_char('\n') {
                self.scanner.set_position(pos);
            }
            proof {
                acc = acc0 + seq![EventView::Start(TagView::Item)] + inner.0 + seq![
                    EventView::End(TagView::Item),
                ];
                assert(self.queued() =~= q0 + seq![EventView::Start(TagView::List(None))] + acc);
                assert(acc + list_items(bytes, self.offset()).0 =~= acc0 + list_items(bytes, at).0);
            }
            go = self.is_at_list_item_start();
        }
        proof {
            assert(acc =~= whole.0);
        }
        self.push(Event::End(Tag::List(None)));
        proof {
            assert(self.queued() =~= q0 + list_events(bytes, first).0);
        }
    }

    /// Decides the events of the next block: passes over blank lines and
    /// then reads one block, or marks the stream as finished at the end of
    /// the text.
    pub fn parse_next_block(&mut self)
        requires
            old(self).wf(),
        ensures
            final(self).wf(),
            final(self).bytes() == old(self).bytes(),
            ({
                let bytes = old(self).bytes();
                let j = skip_blank_lines(bytes, old(self).offset());
                if j >= bytes.len() {
                    &&& final(self).finished()
                    &&& final(self).queued() == old(self).queued()
                    &&& final(self).offset() == j
                } else {
                    &&& final(self).finished() == old(self).finished()
                    &&& final(self).queued() == old(self).queued() + dispatch(
                        bytes,
                        j,
                        BlockContext::Document,
                    ).0
                    &&& final(self).offset() == j + dispatch(bytes, j, BlockContext::Document).1
                }
            }),
    {
        self.skip_blank_lines();
        if self.scanner.is_eof() {
            self.finished = true;
            return ;
        }
        self.dispatch_block(BlockContext::Document);
    }

    /// The events not yet handed out: those in the queue, then those of the
    /// text that has not been read.
    pub open spec fn remaining(&self) -> Seq<EventView> {
        self.queued() + if self.finished() {
            Seq::<EventView>::empty()
        } else {
            events_from(self.bytes(), self.offset())
        }
    }

    /// Hands out the next event of the stream, or nothing when the stream
    /// has ended.
    #[verifier::rlimit(50)]
    pub fn next(&mut self) -> (r: Option<Event<'a>>)
        requires
            old(self).wf(),
        ensures
            final(self).wf(),
            final(self).bytes() == old(self).bytes(),
            match r {
                Some(e) => old(self).remaining() == seq![e@] + final(self).remaining(),
                None => old(self).remaining() == Seq::<EventView>::empty()
                    && final(self).remaining() == Seq::<EventView>::empty(),
            },
    {
        let ghost bytes = self.bytes();
        let ghost at = self.offset();
        let ghost q0 = self.event_queue@;
        proof {
            self.scanner.lemma_wf();
        }
        match self.event_queue.pop_front() {
            Some(e) => {
                proof {
                    assert(event_views(q0) =~= seq![e@] + event_views(self.event_queue@));
                    assert(old(self).remaining() =~= seq![e@] + self.remaining());
                }
                return Some(e);
            },
            None => {},
        }
        proof {
            assert(event_views(q0) =~= Seq::<EventView>::empty());
        }
        if self.finished {
            proof {
                assert(self.remaining() =~= Seq::<EventView>::empty());
            }
            return None;
        }
        proof {
            lemma_skip_blank_lines(bytes, at);
            let j = skip_blank_lines(bytes, at);
            if j < bytes.len() {
                lemma_dispatch_takes(bytes, j, BlockContext::Document);
            }
        }
        self.parse_next_block();
        let ghost q1 = self.event_queue@;
        let r = self.event_queue.pop_front();
        proof {
            if r is Some {
                let e = r->0;
                assert(event_views(q1) =~= seq![e@] + event_views(self.event_queue@));
                assert(old(self).remaining() =~= seq![e@] + self.remaining());
            } else {
                assert(event_views(q1) =~= Seq::<EventView>::empty());
                assert(old(self).remaining() =~= Seq::<EventView>::empty());
                assert(self.remaining() =~= Seq::<EventView>::empty());
            }
        }
        r
    }

    /// Hands out all the events that are left, in order.
    pub fn collect(&mut self) -> (r: Vec<Event<'a>>)
        requires
            old(self).wf(),
        ensures
            final(self).wf(),
            event_views(r@) == old(self).remaining(),
            final(self).remaining() == Seq::<EventView>::empty(),
    {
        let mut out: Vec<Event<'a>> = Vec::new();
        let ghost all = self.remaining();
        let mut go = true;
        proof {
            assert(event_views(out@) + self.remaining() =~= all);
        }
        while go
            invariant
                self.wf(),
                event_views(out@) + self.remaining() == all,
                !go ==> self.remaining() == Seq::<EventView>::empty(),
            decreases self.remaining().len() + (if go { 1int } else { 0int }),
        {
            let ghost before = event_views(out@);
            let ghost rest = self.remaining();
            match self.next() {
                Some(e) => {
                    out.push(e);
                    proof {
                        assert(event_views(out@) =~= before + seq![e@]);
                        assert(before + seq![e@] + self.remaining() =~= before + rest);
                    }
                },
                None => {
                    go = false;
                },
            }
        }
        proof {
            assert(event_views(out@) + Seq::<EventView>::empty() =~= event_views(out@));
        }
        out
    }
}

/// The events of a text, all at once: the stream that a parser over the
/// text hands out, from its first event to its last. Starts and ends pair
/// up in it like pushes and pops of a stack.
pub fn events(input: &str) -> (r: Vec<Event<'_>>)
    ensures
        event_views(r@) == events_from(
            input.spec_bytes(),
            if has_bom(input.spec_bytes()) {
                3int
            } else {
                0int
            },
        ),
        balanced(event_views(r@)),
        nested(event_views(r@)),
{
    let mut parser = Parser::new(input);
    proof {
        lemma_stream_balanced(parser.bytes(), parser.offset());
        lemma_stream_nested(parser.bytes(), parser.offset());
    }
    parser.collect()
}

} // verus!
