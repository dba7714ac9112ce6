//! The events of the lazy mode and their mathematical model.

use std::borrow::Cow;
use vstd::prelude::*;

verus! {

/// Horizontal alignment of one table column.
#[derive(Debug, Clone, Copy, PartialEq, Eq)]
pub enum Alignment {
    Unset,
    Left,
    Center,
    Right,
}

/// What a start or end event opens or closes.
#[derive(Debug, PartialEq)]
pub enum Tag<'a> {
    Paragraph,
    Heading(u8),
    BlockQuote,
    CodeBlock(Option<Cow<'a, str>>),
    List(Option<u64>),
    Item,
    Table(Vec<Alignment>),
    TableHead,
    TableRow,
    TableCell,
    Emphasis,
    Strong,
    Strikethrough,
    Link { url: Cow<'a, str>, title: Cow<'a, str> },
    Image { url: Cow<'a, str>, title: Cow<'a, str> },
}

/// One step of the flat description of a document.
#[derive(Debug, PartialEq)]
pub enum Event<'a> {
    Start(Tag<'a>),
    End(Tag<'a>),
    Text(Cow<'a, str>),
    CodeSpan(Cow<'a, str>),
    Html(Cow<'a, str>),
    FootnoteReference(Cow<'a, str>),
    SoftBreak,
    HardBreak,
    ThematicBreak,
    TaskListMarker(bool),
}

/// What a `Tag` stands for.
pub enum TagView {
    Paragraph,
    Heading(u8),
    BlockQuote,
    CodeBlock(Option<Seq<char>>),
    List(Option<u64>),
    Item,
    Table(Seq<Alignment>),
    TableHead,
    TableRow,
    TableCell,
    Emphasis,
    Strong,
    Strikethrough,
    Link { url: Seq<char>, title: Seq<char> },
    Image { url: Seq<char>, title: Seq<char> },
}

/// What an `Event` stands for.
pub enum EventView {
    Start(TagView),
    End(TagView),
    Text(Seq<char>),
    CodeSpan(Seq<char>),
    Html(Seq<char>),
    FootnoteReference(Seq<char>),
    SoftBreak,
    HardBreak,
    ThematicBreak,
    TaskListMarker(bool),
}

impl<'a> Tag<'a> {
    pub open spec fn view(&self) -> TagView {
        match self {
            Tag::Paragraph => TagView::Paragraph,
            Tag::Heading(level) => TagView::Heading(*level),
            Tag::BlockQuote => TagView::BlockQuote,
            Tag::CodeBlock(language) => TagView::CodeBlock(
                match language {
                    Some(l) => Some(l@),
                    None => None,
                },
            ),
            Tag::List(start) => TagView::List(*start),
            Tag::Item => TagView::Item,
            Tag::Table(alignments) => TagView::Table(alignments@),
            Tag::TableHead => TagView::TableHead,
            Tag::TableRow => TagView::TableRow,
            Tag::TableCell => TagView::TableCell,
            Tag::Emphasis => TagView::Emphasis,
            Tag::Strong => TagView::Strong,
            Tag::Strikethrough => TagView::Strikethrough,
            Tag::Link { url, title } => TagView::Link { url: url@, title: title@ },
            Tag::Image { url, title } => TagView::Image { url: url@, title: title@ },
        }
    }
}

impl<'a> Event<'a> {
    pub open spec fn view(&self) -> EventView {
        match self {
            Event::Start(tag) => EventView::Start(tag@),
            Event::End(tag) => EventView::End(tag@),
            Event::Text(t) => EventView::Text(t@),
            Event::CodeSpan(t) => EventView::CodeSpan(t@),
            Event::Html(t) => EventView::Html(t@),
            Event::FootnoteReference(t) => EventView::FootnoteReference(t@),
            Event::SoftBreak => EventView::SoftBreak,
            Event::HardBreak => EventView::HardBreak,
            Event::ThematicBreak => EventView::ThematicBreak,
            Event::TaskListMarker(done) => EventView::TaskListMarker(*done),
        }
    }
}

/// The model of a sequence of events, event by event.
pub open spec fn event_views(v: Seq<Event<'_>>) -> Seq<EventView> {
    v.map_values(|e: Event| e@)
}

} // verus!
