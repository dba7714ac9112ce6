//! The document tree and its mathematical model.

use std::borrow::Cow;
use vstd::prelude::*;

verus! {

/// Horizontal alignment of one table column.
#[derive(Debug, Clone, Copy, PartialEq, Eq)]
pub enum Alignment {
    Unset,
    Left,
    Center,
    Right,
}

/// A span-level node.
#[derive(Debug, PartialEq)]
pub enum Inline<'a> {
    Text(Cow<'a, str>),
    Emphasis(Vec<Inline<'a>>),
    Strong(Vec<Inline<'a>>),
    Link { children: Vec<Inline<'a>>, url: Cow<'a, str> },
    Image { alt: Cow<'a, str>, url: Cow<'a, str> },
    CodeSpan(Cow<'a, str>),
    Strikethrough(Vec<Inline<'a>>),
    RawHtml(Cow<'a, str>),
}

/// A block-level node.
#[derive(Debug, PartialEq)]
pub enum Block<'a> {
    Heading { level: u8, children: Vec<Inline<'a>> },
    Paragraph { children: Vec<Inline<'a>> },
    BlockQuote(Vec<Block<'a>>),
    CodeBlock { code: Cow<'a, str>, language: Cow<'a, str> },
    ThematicBreak,
    List { ordered: bool, items: Vec<ListItem<'a>> },
    Table {
        headers: Vec<Vec<Inline<'a>>>,
        rows: Vec<Vec<Vec<Inline<'a>>>>,
        alignments: Vec<Alignment>,
    },
}

/// One item of a list.
#[derive(Debug, PartialEq)]
pub struct ListItem<'a> {
    pub children: Vec<Block<'a>>,
}

/// What an `Inline` stands for: the same tree over character sequences.
pub enum InlineView {
    Text(Seq<char>),
    Emphasis(Seq<InlineView>),
    Strong(Seq<InlineView>),
    Link { children: Seq<InlineView>, url: Seq<char> },
    Image { alt: Seq<char>, url: Seq<char> },
    CodeSpan(Seq<char>),
    Strikethrough(Seq<InlineView>),
    RawHtml(Seq<char>),
}

/// What a `Block` stands for. A list item is the sequence of its children.
pub enum BlockView {
    Heading { level: u8, children: Seq<InlineView> },
    Paragraph { children: Seq<InlineView> },
    BlockQuote(Seq<BlockView>),
    CodeBlock { code: Seq<char>, language: Seq<char> },
    ThematicBreak,
    List { ordered: bool, items: Seq<Seq<BlockView>> },
    Table {
        headers: Seq<Seq<InlineView>>,
        rows: Seq<Seq<Seq<InlineView>>>,
        alignments: Seq<Alignment>,
    },
}

/// Whether every heading in the block and below it has a level from one
/// to six.
pub open spec fn levels_valid(block: BlockView) -> bool
    decreases block,
{
    match block {
        BlockView::Heading { level, children } => 1 <= level <= 6,
        BlockView::BlockQuote(children) => all_levels_valid(children),
        BlockView::List { ordered, items } => forall|k: int|
            0 <= k < items.len() ==> all_levels_valid(#[trigger] items[k]),
        _ => true,
    }
}

/// Whether every heading in the blocks and below them has a level from
/// one to six.
pub open spec fn all_levels_valid(blocks: Seq<BlockView>) -> bool
    decreases blocks,
{
    forall|k: int| 0 <= k < blocks.len() ==> levels_valid(#[trigger] blocks[k])
}

/// Whether the string is held in storage of its own.
pub open spec fn cow_owned(c: Cow<'_, str>) -> bool {
    c is Owned
}

impl<'a> Inline<'a> {
    pub open spec fn view(&self) -> InlineView
        decreases self,
    {
        match self {
            Inline::Text(t) => InlineView::Text(t@),
            Inline::Emphasis(v) => InlineView::Emphasis(inline_views(v@)),
            Inline::Strong(v) => InlineView::Strong(inline_views(v@)),
            Inline::Link { children, url } => InlineView::Link {
                children: inline_views(children@),
                url: url@,
            },
            Inline::Image { alt, url } => InlineView::Image { alt: alt@, url: url@ },
            Inline::CodeSpan(t) => InlineView::CodeSpan(t@),
            Inline::Strikethrough(v) => InlineView::Strikethrough(inline_views(v@)),
            Inline::RawHtml(t) => InlineView::RawHtml(t@),
        }
    }

    /// Every string in the node and below it is held in storage of its own.
    pub open spec fn is_owned(&self) -> bool
        decreases self,
    {
        match self {
            Inline::Text(t) => cow_owned(*t),
            Inline::Emphasis(v) => inlines_owned(v@),
            Inline::Strong(v) => inlines_owned(v@),
            Inline::Link { children, url } => inlines_owned(children@) && cow_owned(*url),
            Inline::Image { alt, url } => cow_owned(*alt) && cow_owned(*url),
            Inline::CodeSpan(t) => cow_owned(*t),
            Inline::Strikethrough(v) => inlines_owned(v@),
            Inline::RawHtml(t) => cow_owned(*t),
        }
    }
}

/// The model of a sequence of inline nodes, node by node.
pub open spec fn inline_views(v: Seq<Inline<'_>>) -> Seq<InlineView>
    decreases v,
{
    Seq::new(
        v.len(),
        |i: int|
            if 0 <= i < v.len() {
                v[i].view()
            } else {
                arbitrary()
            },
    )
}

/// Every node of the sequence is held in storage of its own.
pub open spec fn inlines_owned(v: Seq<Inline<'_>>) -> bool
    decreases v,
{
    forall|i: int| 0 <= i < v.len() ==> (#[trigger] v[i]).is_owned()
}

/// The model of a table row: one sequence of inline nodes per cell.
pub open spec fn cell_views(v: Seq<Vec<Inline<'_>>>) -> Seq<Seq<InlineView>> {
    Seq::new(v.len(), |i: int| inline_views(v[i]@))
}

/// Every cell of the row is held in storage of its own.
pub open spec fn cells_owned(v: Seq<Vec<Inline<'_>>>) -> bool {
    forall|i: int| 0 <= i < v.len() ==> inlines_owned(#[trigger] v[i]@)
}

/// The model of the body of a table, row by row.
pub open spec fn row_views(v: Seq<Vec<Vec<Inline<'_>>>>) -> Seq<Seq<Seq<InlineView>>> {
    Seq::new(v.len(), |i: int| cell_views(v[i]@))
}

/// Every row of the body is held in storage of its own.
pub open spec fn rows_owned(v: Seq<Vec<Vec<Inline<'_>>>>) -> bool {
    forall|i: int| 0 <= i < v.len() ==> cells_owned(#[trigger] v[i]@)
}

impl<'a> Block<'a> {
    pub open spec fn view(&self) -> BlockView
        decreases self,
    {
        match self {
            Block::Heading { level, children } => BlockView::Heading {
                level: *level,
                children: inline_views(children@),
            },
            Block::Paragraph { children } => BlockView::Paragraph {
                children: inline_views(children@),
            },
            Block::BlockQuote(v) => BlockView::BlockQuote(block_views(v@)),
            Block::CodeBlock { code, language } => BlockView::CodeBlock {
                code: code@,
                language: language@,
            },
            Block::ThematicBreak => BlockView::ThematicBreak,
            Block::List { ordered, items } => BlockView::List {
                ordered: *ordered,
                items: item_views(items@),
            },
            Block::Table { headers, rows, alignments } => BlockView::Table {
                headers: cell_views(headers@),
                rows: row_views(rows@),
                alignments: alignments@,
            },
        }
    }

    /// Every string in the block and below it is held in storage of its own.
    pub open spec fn is_owned(&self) -> bool
        decreases self,
    {
        match self {
            Block::Heading { level, children } => inlines_owned(children@),
            Block::Paragraph { children } => inlines_owned(children@),
            Block::BlockQuote(v) => blocks_owned(v@),
            Block::CodeBlock { code, language } => cow_owned(*code) && cow_owned(*language),
            Block::ThematicBreak => true,
            Block::List { ordered, items } => items_owned(items@),
            Block::Table { headers, rows, alignments } => cells_owned(headers@) && rows_owned(
                rows@,
            ),
        }
    }
}

impl<'a> ListItem<'a> {
    pub open spec fn view(&self) -> Seq<BlockView>
        decreases self,
    {
        block_views(self.children@)
    }

    pub open spec fn is_owned(&self) -> bool
        decreases self,
    {
        blocks_owned(self.children@)
    }
}

/// The model of a sequence of blocks, block by block.
pub open spec fn block_views(v: Seq<Block<'_>>) -> Seq<BlockView>
    decreases v,
{
    Seq::new(
        v.len(),
        |i: int|
            if 0 <= i < v.len() {
                v[i].view()
            } else {
                arbitrary()
            },
    )
}

/// Every block of the sequence is held in storage of its own.
pub open spec fn blocks_owned(v: Seq<Block<'_>>) -> bool
    decreases v,
{
    forall|i: int| 0 <= i < v.len() ==> (#[trigger] v[i]).is_owned()
}

/// The model of the items of a list, item by item.
pub open spec fn item_views(v: Seq<ListItem<'_>>) -> Seq<Seq<BlockView>>
    decreases v,
{
    Seq::new(
        v.len(),
        |i: int|
            if 0 <= i < v.len() {
                v[i].view()
            } else {
                arbitrary()
            },
    )
}

/// Every item of the list is held in storage of its own.
pub open spec fn items_owned(v: Seq<ListItem<'_>>) -> bool
    decreases v,
{
    forall|i: int| 0 <= i < v.len() ==> (#[trigger] v[i]).is_owned()
}

/// Moves a string into storage of its own, copying it where it was borrowed.
pub fn detach<'a, 'b>(c: Cow<'a, str>) -> (r: Cow<'b, str>)
    ensures
        r@ == c@,
        cow_owned(r),
{
    match c {
        Cow::Borrowed(b) => Cow::Owned(b.to_owned()),
        Cow::Owned(o) => Cow::Owned(o),
    }
}

/// Detaches every node of a sequence of inline nodes.
pub fn inlines_into_owned<'a, 'b>(v: Vec<Inline<'a>>) -> (r: Vec<Inline<'b>>)
    ensures
        inline_views(r@) == inline_views(v@),
        inlines_owned(r@),
    decreases v,
{
    let mut out: Vec<Inline<'b>> = Vec::new();
    let ghost orig = v;
    for e in it: v
        invariant
            it.seq() == orig@,
            out@.len() == it.index(),
            forall|j: int| 0 <= j < it.index() ==> (#[trigger] out@[j])@ == orig@[j]@,
            inlines_owned(out@),
    {
        proof {
            vstd::std_specs::vec::axiom_vec_index_decreases(orig, it.index() as int);
        }
        out.push(e.into_owned());
    }
    assert(inline_views(out@) =~= inline_views(orig@));
    out
}

/// Detaches every cell of a table row.
pub fn cells_into_owned<'a, 'b>(v: Vec<Vec<Inline<'a>>>) -> (r: Vec<Vec<Inline<'b>>>)
    ensures
        cell_views(r@) == cell_views(v@),
        cells_owned(r@),
{
    let mut out: Vec<Vec<Inline<'b>>> = Vec::new();
    let ghost orig = v;
    for e in it: v
        invariant
            it.seq() == orig@,
            out@.len() == it.index(),
            forall|j: int|
                0 <= j < it.index() ==> inline_views((#[trigger] out@[j])@) == inline_views(
                    orig@[j]@,
                ),
            cells_owned(out@),
    {
        out.push(inlines_into_owned(e));
    }
    assert(cell_views(out@) =~= cell_views(orig@));
    out
}

/// Detaches every row of a table body.
pub fn rows_into_owned<'a, 'b>(v: Vec<Vec<Vec<Inline<'a>>>>) -> (r: Vec<Vec<Vec<Inline<'b>>>>)
    ensures
        row_views(r@) == row_views(v@),
        rows_owned(r@),
{
    let mut out: Vec<Vec<Vec<Inline<'b>>>> = Vec::new();
    let ghost orig = v;
    for e in it: v
        invariant
            it.seq() == orig@,
            out@.len() == it.index(),
            forall|j: int|
                0 <= j < it.index() ==> cell_views((#[trigger] out@[j])@) == cell_views(orig@[j]@),
            rows_owned(out@),
    {
        out.push(cells_into_owned(e));
    }
    assert(row_views(out@) =~= row_views(orig@));
    out
}

/// Detaches every block of a sequence of blocks.
pub fn blocks_into_owned<'a, 'b>(v: Vec<Block<'a>>) -> (r: Vec<Block<'b>>)
    ensures
        block_views(r@) == block_views(v@),
        blocks_owned(r@),
    decreases v,
{
    let mut out: Vec<Block<'b>> = Vec::new();
    let ghost orig = v;
    for e in it: v
        invariant
            it.seq() == orig@,
            out@.len() == it.index(),
            forall|j: int| 0 <= j < it.index() ==> (#[trigger] out@[j])@ == orig@[j]@,
            blocks_owned(out@),
    {
        proof {
            vstd::std_specs::vec::axiom_vec_index_decreases(orig, it.index() as int);
        }
        out.push(e.into_owned());
    }
    assert(block_views(out@) =~= block_views(orig@));
    out
}

/// Detaches every item of a list.
pub fn items_into_owned<'a, 'b>(v: Vec<ListItem<'a>>) -> (r: Vec<ListItem<'b>>)
    ensures
        item_views(r@) == item_views(v@),
        items_owned(r@),
    decreases v,
{
    let mut out: Vec<ListItem<'b>> = Vec::new();
    let ghost orig = v;
    for e in it: v
        invariant
            it.seq() == orig@,
            out@.len() == it.index(),
            forall|j: int| 0 <= j < it.index() ==> (#[trigger] out@[j])@ == orig@[j]@,
            items_owned(out@),
    {
        proof {
            vstd::std_specs::vec::axiom_vec_index_decreases(orig, it.index() as int);
        }
        out.push(e.into_owned());
    }
    assert(item_views(out@) =~= item_views(orig@));
    out
}

impl<'a> Inline<'a> {
    /// The same node with every string, at any depth, in storage of its
    /// own, so that it no longer borrows from the parsed text.
    pub fn into_owned<'b>(self) -> (r: Inline<'b>)
        ensures
            r@ == self@,
            r.is_owned(),
        decreases self,
    {
        match self {
            Inline::Text(c) => Inline::Text(detach(c)),
            Inline::Emphasis(v) => Inline::Emphasis(inlines_into_owned(v)),
            Inline::Strong(v) => Inline::Strong(inlines_into_owned(v)),
            Inline::Strikethrough(v) => Inline::Strikethrough(inlines_into_owned(v)),
            Inline::CodeSpan(c) => Inline::CodeSpan(detach(c)),
            Inline::Link { children, url } => Inline::Link {
                children: inlines_into_owned(children),
                url: detach(url),
            },
            Inline::Image { alt, url } => Inline::Image { alt: detach(alt), url: detach(url) },
            Inline::RawHtml(c) => Inline::RawHtml(detach(c)),
        }
    }
}

impl<'a> Block<'a> {
    /// The same block with every string, at any depth, in storage of its
    /// own, so that it no longer borrows from the parsed text.
    pub fn into_owned<'b>(self) -> (r: Block<'b>)
        ensures
            r@ == self@,
            r.is_owned(),
        decreases self,
    {
        match self {
            Block::Heading { level, children } => Block::Heading {
                level,
                children: inlines_into_owned(children),
            },
            Block::Paragraph { children } => Block::Paragraph {
                children: inlines_into_owned(children),
            },
            Block::CodeBlock { code, language } => Block::CodeBlock {
                code: detach(code),
                language: detach(language),
            },
            Block::BlockQuote(children) => Block::BlockQuote(blocks_into_owned(children)),
            Block::ThematicBreak => Block::ThematicBreak,
            Block::List { ordered, items } => Block::List {
                ordered,
                items: items_into_owned(items),
            },
            Block::Table { headers, rows, alignments } => Block::Table {
                headers: cells_into_owned(headers),
                rows: rows_into_owned(rows),
                alignments,
            },
        }
    }
}

impl<'a> ListItem<'a> {
    /// The same item with every string, at any depth, in storage of its own.
    pub fn into_owned<'b>(self) -> (r: ListItem<'b>)
        ensures
            r@ == self@,
            r.is_owned(),
        decreases self,
    {
        ListItem { children: blocks_into_owned(self.children) }
    }
}

} // verus!
