//! The stack discipline of the event stream: starts and ends pair up, and
//! no end comes before its start.

use crate::iterator::event::{EventView, TagView};
use crate::iterator::parser::{after_line, at_blockquote, at_heading, at_list_item, bytes_left,
    dispatch, events_from, heading_events, lemma_dispatch_takes, lemma_next_at,
    lemma_skip_blank_lines, lemma_skip_blanks, lemma_text_line, list_items, marked_block,
    para_lines, quote_body, skip_blank_lines, text_line, BlockContext};
use crate::iterator::scanner::{next_at, peek_at, skip_blanks};
use vstd::prelude::*;

verus! {

/// What an event does to the nesting depth: a start opens a level, an end
/// closes one, every other event leaves the depth alone.
pub open spec fn depth_change(e: EventView) -> int {
    match e {
        EventView::Start(_) => 1,
        EventView::End(_) => -1,
        _ => 0,
    }
}

/// The number of start events minus the number of end events.
pub open spec fn depth(events: Seq<EventView>) -> int
    decreases events.len(),
{
    if events.len() == 0 {
        0
    } else {
        depth(events.drop_last()) + depth_change(events.last())
    }
}

/// Starts and ends are equal in number, and in no prefix are there more
/// ends than starts.
pub open spec fn balanced(events: Seq<EventView>) -> bool {
    &&& depth(events) == 0
    &&& forall|k: int| 0 <= k <= events.len() ==> depth(#[trigger] events.take(k)) >= 0
}

/// The depth of two sequences together is the sum of their depths.
pub proof fn lemma_depth_concat(a: Seq<EventView>, b: Seq<EventView>)
    ensures
        depth(a + b) == depth(a) + depth(b),
    decreases b.len(),
{
    if b.len() == 0 {
        assert(a + b == a);
    } else {
        lemma_depth_concat(a, b.drop_last());
        assert((a + b).drop_last() == a + b.drop_last());
    }
}

/// Balanced sequences one after the other are balanced.
pub proof fn lemma_balanced_concat(a: Seq<EventView>, b: Seq<EventView>)
    requires
        balanced(a),
        balanced(b),
    ensures
        balanced(a + b),
{
    lemma_depth_concat(a, b);
    assert forall|k: int| 0 <= k <= (a + b).len() implies depth(#[trigger] (a + b).take(k))
        >= 0 by {
        if k <= a.len() {
            assert((a + b).take(k) == a.take(k));
        } else {
            assert((a + b).take(k) == a + b.take(k - a.len()));
            lemma_depth_concat(a, b.take(k - a.len()));
        }
    }
}

/// A sequence without starts and ends is balanced.
pub proof fn lemma_flat(events: Seq<EventView>)
    requires
        forall|i: int| 0 <= i < events.len() ==> depth_change(#[trigger] events[i]) == 0,
    ensures
        depth(events) == 0,
        balanced(events),
    decreases events.len(),
{
    if events.len() > 0 {
        lemma_flat(events.drop_last());
    }
    assert forall|k: int| 0 <= k <= events.len() implies depth(#[trigger] events.take(k))
        >= 0 by {
        if k < events.len() {
            lemma_flat(events.take(k));
        } else {
            assert(events.take(k) == events);
        }
    }
}

/// A balanced sequence between a start and an end is balanced.
pub proof fn lemma_wrapped(tag: TagView, body: Seq<EventView>)
    requires
        balanced(body),
    ensures
        balanced(seq![EventView::Start(tag)] + body + seq![EventView::End(tag)]),
{
    let a = seq![EventView::Start(tag)];
    let c = seq![EventView::End(tag)];
    let all = a + body + c;
    assert(a.drop_last() == Seq::<EventView>::empty());
    assert(c.drop_last() == Seq::<EventView>::empty());
    assert(depth(a.drop_last()) == 0);
    assert(depth(c.drop_last()) == 0);
    assert(depth(a) == 1);
    assert(depth(c) == -1);
    lemma_depth_concat(a, body);
    lemma_depth_concat(a + body, c);
    assert forall|k: int| 0 <= k <= all.len() implies depth(#[trigger] all.take(k)) >= 0 by {
        if k == 0 {
            assert(all.take(0) == Seq::<EventView>::empty());
        } else if k <= 1 + body.len() {
            assert(all.take(k) == a + body.take(k - 1));
            lemma_depth_concat(a, body.take(k - 1));
        } else {
            assert(all.take(k) == all);
        }
    }
}

/// The lines of a paragraph hold no start and no end.
pub proof fn lemma_para_lines_flat(bytes: Seq<u8>, i: int, ctx: BlockContext)
    ensures
        forall|k: int|
            0 <= k < para_lines(bytes, i, ctx).0.len() ==> depth_change(
                #[trigger] para_lines(bytes, i, ctx).0[k],
            ) == 0,
    decreases bytes_left(bytes, i),
{
    let line = text_line(bytes, i);
    let p = i + line.1;
    let next = after_line(bytes, p, ctx);
    lemma_text_line(bytes, i);
    let whole = para_lines(bytes, i, ctx).0;
    assert forall|k: int| 0 <= k < line.0.len() implies depth_change(#[trigger] line.0[k])
        == 0 by {}
    if next.0 && 0 <= i {
        lemma_para_lines_flat(bytes, next.1, ctx);
        let rest = para_lines(bytes, next.1, ctx).0;
        assert forall|k: int| 0 <= k < whole.len() implies depth_change(#[trigger] whole[k])
            == 0 by {
            if k < line.0.len() {
                assert(whole[k] == line.0[k]);
            } else {
                assert(whole[k] == rest[k - line.0.len()]);
            }
        }
    }
}

/// The events of a block are balanced.
pub proof fn lemma_dispatch_balanced(bytes: Seq<u8>, i: int, ctx: BlockContext)
    ensures
        balanced(dispatch(bytes, i, ctx).0),
    decreases bytes_left(bytes, i), 3nat,
{
    if at_heading(bytes, i) {
        let events = heading_events(bytes, i).0;
        let body = seq![events[1]];
        lemma_flat(body);
        lemma_wrapped(events[0]->Start_0, body);
        assert(events =~= seq![events[0]] + body + seq![events[2]]);
    } else if at_blockquote(bytes, i) {
        lemma_quote_body_balanced(bytes, i);
        lemma_wrapped(TagView::BlockQuote, quote_body(bytes, i).0);
    } else if at_list_item(bytes, i) {
        lemma_list_items_balanced(bytes, i);
        lemma_wrapped(TagView::List(None), list_items(bytes, i).0);
    } else {
        lemma_para_lines_flat(bytes, i, ctx);
        lemma_flat(para_lines(bytes, i, ctx).0);
        lemma_wrapped(TagView::Paragraph, para_lines(bytes, i, ctx).0);
    }
}

/// What follows a marker is balanced.
pub proof fn lemma_marked_balanced(bytes: Seq<u8>, k: int, ctx: BlockContext)
    ensures
        balanced(marked_block(bytes, k, ctx).0),
    decreases bytes_left(bytes, k), 4nat,
{
    if peek_at(bytes, k) == Some('\n') {
        lemma_flat(Seq::<EventView>::empty());
    } else {
        lemma_dispatch_balanced(bytes, k, ctx);
    }
}

/// The lines of a block quote are balanced.
pub proof fn lemma_quote_body_balanced(bytes: Seq<u8>, i: int)
    ensures
        balanced(quote_body(bytes, i).0),
    decreases bytes_left(bytes, i), 1nat,
{
    let j = skip_blanks(bytes, i);
    if peek_at(bytes, j) != Some('>') || i < 0 {
        lemma_flat(Seq::<EventView>::empty());
    } else {
        let k = next_at(bytes, j);
        let k2 = if peek_at(bytes, k) == Some(' ') {
            next_at(bytes, k)
        } else {
            k
        };
        lemma_skip_blanks(bytes, i);
        lemma_next_at(bytes, j);
        lemma_next_at(bytes, k);
        let inner = marked_block(bytes, k2, BlockContext::BlockQuote);
        lemma_marked_balanced(bytes, k2, BlockContext::BlockQuote);
        let p = k2 + inner.1;
        if p < bytes.len() {
            lemma_quote_body_balanced(bytes, p);
            lemma_balanced_concat(inner.0, quote_body(bytes, p).0);
        }
    }
}

/// The items of a list are balanced.
pub proof fn lemma_list_items_balanced(bytes: Seq<u8>, i: int)
    ensures
        balanced(list_items(bytes, i).0),
    decreases bytes_left(bytes, i), 1nat,
{
    if !at_list_item(bytes, i) || i < 0 {
        lemma_flat(Seq::<EventView>::empty());
    } else {
        let j = skip_blanks(bytes, i);
        let k = skip_blanks(bytes, next_at(bytes, j));
        lemma_skip_blanks(bytes, i);
        lemma_next_at(bytes, j);
        lemma_skip_blanks(bytes, next_at(bytes, j));
        let inner = marked_block(bytes, k, BlockContext::List);
        lemma_marked_balanced(bytes, k, BlockContext::List);
        let p = k + inner.1;
        let q = skip_blanks(bytes, p);
        let resume = if peek_at(bytes, q) == Some('\n') {
            next_at(bytes, q)
        } else {
            p
        };
        lemma_skip_blanks(bytes, p);
        lemma_next_at(bytes, q);
        lemma_list_items_balanced(bytes, resume);
        lemma_wrapped(TagView::Item, inner.0);
        lemma_balanced_concat(
            seq![EventView::Start(TagView::Item)] + inner.0 + seq![EventView::End(TagView::Item)],
            list_items(bytes, resume).0,
        );
    }
}

/// The stream of events of any text, from any offset, is balanced: it
/// holds as many ends as starts, and no prefix of it holds more ends than
/// starts.
pub proof fn lemma_stream_balanced(bytes: Seq<u8>, i: int)
    ensures
        balanced(events_from(bytes, i)),
    decreases bytes_left(bytes, i),
{
    let j = skip_blank_lines(bytes, i);
    if !(0 <= j < bytes.len()) || i < 0 {
        lemma_flat(Seq::<EventView>::empty());
    } else {
        let block = dispatch(bytes, j, BlockContext::Document);
        lemma_skip_blank_lines(bytes, i);
        lemma_dispatch_takes(bytes, j, BlockContext::Document);
        lemma_dispatch_balanced(bytes, j, BlockContext::Document);
        lemma_stream_balanced(bytes, j + block.1);
        lemma_balanced_concat(block.0, events_from(bytes, j + block.1));
    }
}

/// Runs the events against a stack of open tags: a start pushes its tag,
/// an end must meet its own tag on top and pops it. Gives the stack that
/// is left, or nothing if an end meets another tag or an empty stack.
pub open spec fn run_stack(events: Seq<EventView>, stack: Seq<TagView>) -> Option<Seq<TagView>>
    decreases events.len(),
{
    if events.len() == 0 {
        Some(stack)
    } else {
        match events[0] {
            EventView::Start(tag) => run_stack(events.drop_first(), stack.push(tag)),
            EventView::End(tag) => if stack.len() > 0 && stack.last() == tag {
                run_stack(events.drop_first(), stack.drop_last())
            } else {
                None
            },
            _ => run_stack(events.drop_first(), stack),
        }
    }
}

/// Every start is closed by an end with an equal tag, in proper nesting:
/// on whatever stack the events are run, they leave it as it was.
pub open spec fn nested(events: Seq<EventView>) -> bool {
    forall|stack: Seq<TagView>| #[trigger] run_stack(events, stack) == Some(stack)
}

/// Running two sequences one after the other is running the second on the
/// stack that the first leaves.
pub proof fn lemma_run_concat(a: Seq<EventView>, b: Seq<EventView>, stack: Seq<TagView>)
    ensures
        run_stack(a + b, stack) == match run_stack(a, stack) {
            Some(mid) => run_stack(b, mid),
            None => None,
        },
    decreases a.len(),
{
    if a.len() == 0 {
        assert(a + b == b);
    } else {
        assert((a + b).drop_first() == a.drop_first() + b);
        assert((a + b)[0] == a[0]);
        match a[0] {
            EventView::Start(tag) => {
                lemma_run_concat(a.drop_first(), b, stack.push(tag));
            },
            EventView::End(tag) => {
                if stack.len() > 0 && stack.last() == tag {
                    lemma_run_concat(a.drop_first(), b, stack.drop_last());
                }
            },
            _ => {
                lemma_run_concat(a.drop_first(), b, stack);
            },
        }
    }
}

/// Nested sequences one after the other are nested.
pub proof fn lemma_nested_concat(a: Seq<EventView>, b: Seq<EventView>)
    requires
        nested(a),
        nested(b),
    ensures
        nested(a + b),
{
    assert forall|stack: Seq<TagView>| #[trigger] run_stack(a + b, stack) == Some(stack) by {
        lemma_run_concat(a, b, stack);
        assert(run_stack(a, stack) == Some(stack));
        assert(run_stack(b, stack) == Some(stack));
    }
}

/// A sequence without starts and ends is nested.
pub proof fn lemma_flat_nested(events: Seq<EventView>)
    requires
        forall|i: int| 0 <= i < events.len() ==> depth_change(#[trigger] events[i]) == 0,
    ensures
        nested(events),
    decreases events.len(),
{
    if events.len() > 0 {
        let rest = events.drop_first();
        assert forall|i: int| 0 <= i < rest.len() implies depth_change(#[trigger] rest[i])
            == 0 by {
            assert(rest[i] == events[i + 1]);
        }
        lemma_flat_nested(rest);
        assert(depth_change(events[0]) == 0);
        assert forall|stack: Seq<TagView>| #[trigger] run_stack(events, stack) == Some(stack) by {
            assert(run_stack(rest, stack) == Some(stack));
        }
    }
}

/// A nested sequence between a start and an end of one tag is nested.
pub proof fn lemma_wrapped_nested(tag: TagView, body: Seq<EventView>)
    requires
        nested(body),
    ensures
        nested(seq![EventView::Start(tag)] + body + seq![EventView::End(tag)]),
{
    let a = seq![EventView::Start(tag)];
    let c = seq![EventView::End(tag)];
    assert forall|stack: Seq<TagView>| #[trigger] run_stack(a + body + c, stack) == Some(
        stack,
    ) by {
        let inner = stack.push(tag);
        lemma_run_concat(a + body, c, stack);
        lemma_run_concat(a, body, stack);
        assert(a.drop_first() == Seq::<EventView>::empty());
        assert(run_stack(a.drop_first(), inner) == Some(inner));
        assert(run_stack(a, stack) == Some(inner));
        assert(run_stack(body, inner) == Some(inner));
        assert(c.drop_first() == Seq::<EventView>::empty());
        assert(inner.drop_last() == stack);
        assert(run_stack(c.drop_first(), stack) == Some(stack));
        assert(run_stack(c, inner) == Some(stack));
    }
}

/// The events of a block are nested.
pub proof fn lemma_dispatch_nested(bytes: Seq<u8>, i: int, ctx: BlockContext)
    ensures
        nested(dispatch(bytes, i, ctx).0),
    decreases bytes_left(bytes, i), 3nat,
{
    if at_heading(bytes, i) {
        let events = heading_events(bytes, i).0;
        let body = seq![events[1]];
        lemma_flat_nested(body);
        lemma_wrapped_nested(events[0]->Start_0, body);
        assert(events =~= seq![events[0]] + body + seq![events[2]]);
    } else if at_blockquote(bytes, i) {
        lemma_quote_body_nested(bytes, i);
        lemma_wrapped_nested(TagView::BlockQuote, quote_body(bytes, i).0);
    } else if at_list_item(bytes, i) {
        lemma_list_items_nested(bytes, i);
        lemma_wrapped_nested(TagView::List(None), list_items(bytes, i).0);
    } else {
        lemma_para_lines_flat(bytes, i, ctx);
        lemma_flat_nested(para_lines(bytes, i, ctx).0);
        lemma_wrapped_nested(TagView::Paragraph, para_lines(bytes, i, ctx).0);
    }
}

/// What follows a marker is nested.
pub proof fn lemma_marked_nested(bytes: Seq<u8>, k: int, ctx: BlockContext)
    ensures
        nested(marked_block(bytes, k, ctx).0),
    decreases bytes_left(bytes, k), 4nat,
{
    if peek_at(bytes, k) == Some('\n') {
        lemma_flat_nested(Seq::<EventView>::empty());
    } else {
        lemma_dispatch_nested(bytes, k, ctx);
    }
}

/// The lines of a block quote are nested.
pub proof fn lemma_quote_body_nested(bytes: Seq<u8>, i: int)
    ensures
        nested(quote_body(bytes, i).0),
    decreases bytes_left(bytes, i), 1nat,
{
    let j = skip_blanks(bytes, i);
    if peek_at(bytes, j) != Some('>') || i < 0 {
        lemma_flat_nested(Seq::<EventView>::empty());
    } else {
        let k = next_at(bytes, j);
        let k2 = if peek_at(bytes, k) == Some(' ') {
            next_at(bytes, k)
        } else {
            k
        };
        lemma_skip_blanks(bytes, i);
        lemma_next_at(bytes, j);
        lemma_next_at(bytes, k);
        let inner = marked_block(bytes, k2, BlockContext::BlockQuote);
        lemma_marked_nested(bytes, k2, BlockContext::BlockQuote);
        let p = k2 + inner.1;
        if p < bytes.len() {
            lemma_quote_body_nested(bytes, p);
            lemma_nested_concat(inner.0, quote_body(bytes, p).0);
        }
    }
}

/// The items of a list are nested.
pub proof fn lemma_list_items_nested(bytes: Seq<u8>, i: int)
    ensures
        nested(list_items(bytes, i).0),
    decreases bytes_left(bytes, i), 1nat,
{
    if !at_list_item(bytes, i) || i < 0 {
        lemma_flat_nested(Seq::<EventView>::empty());
    } else {
        let j = skip_blanks(bytes, i);
        let k = skip_blanks(bytes, next_at(bytes, j));
        lemma_skip_blanks(bytes, i);
        lemma_next_at(bytes, j);
        lemma_skip_blanks(bytes, next_at(bytes, j));
        let inner = marked_block(bytes, k, BlockContext::List);
        lemma_marked_nested(bytes, k, BlockContext::List);
        let p = k + inner.1;
        let q = skip_blanks(bytes, p);
        let resume = if peek_at(bytes, q) == Some('\n') {
            next_at(bytes, q)
        } else {
            p
        };
        lemma_skip_blanks(bytes, p);
        lemma_next_at(bytes, q);
        lemma_list_items_nested(bytes, resume);
        lemma_wrapped_nested(TagView::Item, inner.0);
        lemma_nested_concat(
            seq![EventView::Start(TagView::Item)] + inner.0 + seq![EventView::End(TagView::Item)],
            list_items(bytes, resume).0,
        );
    }
}

/// The stream of events of any text, from any offset, keeps the stack
/// discipline: every start is closed by exactly one end with an equal tag,
/// and what opens later closes earlier.
pub proof fn lemma_stream_nested(bytes: Seq<u8>, i: int)
    ensures
        nested(events_from(bytes, i)),
        run_stack(events_from(bytes, i), Seq::empty()) == Some(Seq::<TagView>::empty()),
    decreases bytes_left(bytes, i),
{
    let j = skip_blank_lines(bytes, i);
    if !(0 <= j < bytes.len()) || i < 0 {
        lemma_flat_nested(Seq::<EventView>::empty());
    } else {
        let block = dispatch(bytes, j, BlockContext::Document);
        lemma_skip_blank_lines(bytes, i);
        lemma_dispatch_takes(bytes, j, BlockContext::Document);
        lemma_dispatch_nested(bytes, j, BlockContext::Document);
        lemma_stream_nested(bytes, j + block.1);
        lemma_nested_concat(block.0, events_from(bytes, j + block.1));
    }
    assert(run_stack(events_from(bytes, i), Seq::empty()) == Some(Seq::<TagView>::empty()));
}

} // verus!
