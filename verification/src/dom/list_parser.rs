//! The list decomposer: groups a run of lines into nested lists by marker
//! and indentation.

use crate::dom::ast::{all_levels_valid, block_views, item_views, levels_valid, Block, BlockView,
    ListItem};
use crate::dom::inline_parser::{parse_inlines, InlineParser};
use crate::text::{char_is_digit, count_indent, count_leading, indent_of, is_digit,
    lemma_count_leading_bound, lemma_count_leading_is, to_chars, trim, trim_chars, vecs_view};
use vstd::prelude::*;

verus! {

/// The predicate "is an ASCII digit".
pub open spec fn digit() -> spec_fn(char) -> bool {
    |c: char| is_digit(c)
}

/// The list marker at the front of a trimmed line: whether it is an
/// ordered one, and where the item's text begins. A bullet is `-`, `*` or
/// `+` followed by a space or the end of the line; an ordered marker is a
/// run of digits and `.` followed by a space or the end of the line.
pub open spec fn list_marker(t: Seq<char>) -> Option<(bool, int)> {
    if t.len() == 0 {
        None
    } else if (t[0] == '-' || t[0] == '*' || t[0] == '+') && (t.len() == 1 || t[1] == ' ') {
        Some((false, if t.len() > 1 { 2int } else { 1int }))
    } else if is_digit(t[0]) {
        let i = count_leading(t, digit()) as int;
        if i < t.len() && t[i] == '.' && (i + 1 == t.len() || t[i + 1] == ' ') {
            Some((true, if i + 1 == t.len() { i + 1 } else { i + 2 }))
        } else {
            None
        }
    } else {
        None
    }
}

/// The text of an item whose trimmed marker line is `t`: what follows the
/// marker, trimmed.
pub open spec fn item_text(t: Seq<char>) -> Seq<char> {
    match list_marker(t) {
        Some((_, start)) => trim(t.skip(start)),
        None => t,
    }
}

/// Whether line `pos` can open an item of a list with the given floor.
pub open spec fn opens_item(lines: Seq<Seq<char>>, pos: int, min_indent: nat) -> bool {
    0 <= pos < lines.len() && indent_of(lines[pos]) >= min_indent && list_marker(
        trim(lines[pos]),
    ) is Some
}

/// Whether the marker of line `pos` is an ordered one.
pub open spec fn marker_ordered(lines: Seq<Seq<char>>, pos: int) -> bool {
    match list_marker(trim(lines[pos])) {
        Some((ordered, _)) => ordered,
        None => false,
    }
}

/// Number of lines from `pos` to the end.
pub open spec fn lines_left(lines: Seq<Seq<char>>, pos: int) -> nat {
    if 0 <= pos < lines.len() {
        (lines.len() - pos) as nat
    } else {
        0
    }
}

/// What follows the marker line of an item whose marker is indented by
/// `indent`: blank lines are passed over, a line indented more deeply is
/// offered as the start of a nested list with that indentation as its floor
/// and passed over if it opens none, and the first other line ends the
/// item. Gives the nested lists and the number of lines taken.
pub open spec fn item_rest(lines: Seq<Seq<char>>, pos: int, indent: nat) -> (Seq<BlockView>, nat)
    decreases lines_left(lines, pos), 2int,
{
    if pos < 0 || pos >= lines.len() {
        (seq![], 0)
    } else if trim(lines[pos]).len() == 0 {
        let r = item_rest(lines, pos + 1, indent);
        (r.0, 1 + r.1)
    } else if indent_of(lines[pos]) > indent {
        match list_at(lines, pos, indent_of(lines[pos])) {
            Some((list, extra)) => {
                let r = item_rest(lines, pos + 1 + extra, indent);
                (seq![list] + r.0, 1 + extra + r.1)
            },
            None => {
                let r = item_rest(lines, pos + 1, indent);
                (r.0, 1 + r.1)
            },
        }
    } else {
        (seq![], 0)
    }
}

/// The item whose marker line is `pos`: a paragraph of its own text, then
/// its nested lists; and the number of lines taken after the marker line.
pub open spec fn item_at(lines: Seq<Seq<char>>, pos: int) -> (Seq<BlockView>, nat)
    decreases lines_left(lines, pos), 0int,
{
    if pos < 0 || pos >= lines.len() {
        (seq![], 0)
    } else {
        let para = BlockView::Paragraph {
            children: parse_inlines(item_text(trim(lines[pos]))),
        };
        let r = item_rest(lines, pos + 1, indent_of(lines[pos]));
        (seq![para] + r.0, r.1)
    }
}

/// The sibling items from line `pos` on: every line that opens an item of
/// the given kind at or above the floor, each with what belongs to it. The
/// first line that opens no such item ends them. Gives the items and the
/// number of lines taken.
pub open spec fn items_from(lines: Seq<Seq<char>>, pos: int, min_indent: nat, ordered: bool) -> (
    Seq<Seq<BlockView>>,
    nat,
)
    decreases lines_left(lines, pos), 1int,
{
    if opens_item(lines, pos, min_indent) && marker_ordered(lines, pos) == ordered {
        let item = item_at(lines, pos);
        let more = items_from(lines, pos + 1 + item.1, min_indent, ordered);
        (seq![item.0] + more.0, 1 + item.1 + more.1)
    } else {
        (seq![], 0)
    }
}

/// The list that line `pos` opens under the given floor, with the number of
/// lines taken after that line; nothing if the line opens no item.
pub open spec fn list_at(lines: Seq<Seq<char>>, pos: int, min_indent: nat) -> Option<
    (BlockView, nat),
>
    decreases lines_left(lines, pos), 1int,
{
    if opens_item(lines, pos, min_indent) {
        let ordered = marker_ordered(lines, pos);
        let item = item_at(lines, pos);
        let more = items_from(lines, pos + 1 + item.1, min_indent, ordered);
        Some((BlockView::List { ordered, items: seq![item.0] + more.0 }, item.1 + more.1))
    } else {
        None
    }
}

/// The lists found in `lines` from line `pos` on, with floor zero: a line
/// that opens a list gives that list, any other line is passed over.
pub open spec fn lists_from(lines: Seq<Seq<char>>, pos: int) -> Seq<BlockView>
    decreases lines_left(lines, pos),
{
    if pos < 0 || pos >= lines.len() {
        seq![]
    } else {
        match list_at(lines, pos, 0) {
            Some((list, extra)) => seq![list] + lists_from(lines, pos + 1 + extra),
            None => lists_from(lines, pos + 1),
        }
    }
}

/// Counts of lines never reach past the end.
pub proof fn lemma_list_bounds(lines: Seq<Seq<char>>, pos: int, n: nat, ordered: bool)
    requires
        0 <= pos <= lines.len(),
    ensures
        pos + item_rest(lines, pos, n).1 <= lines.len(),
        pos < lines.len() ==> pos + 1 + item_at(lines, pos).1 <= lines.len(),
        pos + items_from(lines, pos, n, ordered).1 <= lines.len(),
        list_at(lines, pos, n) matches Some((_, extra)) ==> pos + 1 + extra <= lines.len(),
    decreases lines.len() - pos, 2int,
{
    if pos < lines.len() {
        lemma_list_bounds(lines, pos + 1, n, ordered);
        lemma_list_bounds(lines, pos + 1, indent_of(lines[pos]), ordered);
        let k = item_at(lines, pos).1;
        lemma_list_bounds(lines, pos + 1 + k, n, ordered);
        lemma_list_bounds(lines, pos + 1 + k, n, marker_ordered(lines, pos));
        lemma_list_inner(lines, pos, n);
    }
}

/// The bounds of a nested list that a line opens at its own indentation.
proof fn lemma_list_inner(lines: Seq<Seq<char>>, pos: int, n: nat)
    requires
        0 <= pos < lines.len(),
    ensures
        list_at(lines, pos, indent_of(lines[pos])) matches Some((_, extra)) ==> pos + 1 + extra
            <= lines.len() && pos + 1 + extra + item_rest(lines, pos + 1 + extra, n).1
            <= lines.len(),
    decreases lines.len() - pos, 1int,
{
    let ind = indent_of(lines[pos]);
    if opens_item(lines, pos, ind) {
        let ordered = marker_ordered(lines, pos);
        lemma_list_bounds(lines, pos + 1, ind, ordered);
        let k = item_at(lines, pos).1;
        lemma_list_bounds(lines, pos + 1 + k, ind, ordered);
        let more = items_from(lines, pos + 1 + k, ind, ordered);
        lemma_list_bounds(lines, pos + 1 + k + more.1, n, ordered);
    }
}

/// A list holds items of one kind only: a line whose marker is of the
/// other kind opens no further item of it.
pub proof fn lemma_kind_switch_ends_list(
    lines: Seq<Seq<char>>,
    pos: int,
    min_indent: nat,
    ordered: bool,
)
    requires
        opens_item(lines, pos, min_indent),
        marker_ordered(lines, pos) != ordered,
    ensures
        items_from(lines, pos, min_indent, ordered) == (Seq::<Seq<BlockView>>::empty(), 0nat),
{
}

/// The items of a list are all that there are: the line after the last of
/// them opens no further item of the list's kind at its floor.
pub proof fn lemma_items_are_all(lines: Seq<Seq<char>>, pos: int, min_indent: nat, ordered: bool)
    ensures
        items_from(lines, pos + items_from(lines, pos, min_indent, ordered).1, min_indent, ordered)
            == (Seq::<Seq<BlockView>>::empty(), 0nat),
    decreases lines_left(lines, pos),
{
    if opens_item(lines, pos, min_indent) && marker_ordered(lines, pos) == ordered {
        let item = item_at(lines, pos);
        lemma_items_are_all(lines, pos + 1 + item.1, min_indent, ordered);
    }
}

/// A list that a line opens is of the kind of that line's marker, holds at
/// least the item of that line, and ends where no further item of its kind
/// begins.
pub proof fn lemma_list_at(lines: Seq<Seq<char>>, pos: int, min_indent: nat)
    requires
        opens_item(lines, pos, min_indent),
    ensures
        list_at(lines, pos, min_indent) matches Some((BlockView::List { ordered, items }, extra))
            && ordered == marker_ordered(lines, pos) && items.len() >= 1 && (items, 1 + extra)
            == items_from(lines, pos, min_indent, ordered) && items_from(
            lines,
            pos + 1 + extra,
            min_indent,
            ordered,
        ) == (Seq::<Seq<BlockView>>::empty(), 0nat),
{
    lemma_items_are_all(lines, pos, min_indent, marker_ordered(lines, pos));
}

/// All the blocks of `a` and of `b` have valid levels.
pub proof fn lemma_levels_concat(a: Seq<BlockView>, b: Seq<BlockView>)
    requires
        all_levels_valid(a),
        all_levels_valid(b),
    ensures
        all_levels_valid(a + b),
{
    assert forall|k: int| 0 <= k < (a + b).len() implies levels_valid(#[trigger] (a + b)[k]) by {
        if k < a.len() {
            assert((a + b)[k] == a[k]);
        } else {
            assert((a + b)[k] == b[k - a.len()]);
        }
    }
}

/// The list decomposer gives paragraphs and lists only, so no heading of
/// an invalid level can be among its blocks.
pub proof fn lemma_list_levels(lines: Seq<Seq<char>>, pos: int, n: nat, ordered: bool)
    ensures
        all_levels_valid(item_rest(lines, pos, n).0),
        all_levels_valid(item_at(lines, pos).0),
        forall|k: int|
            0 <= k < items_from(lines, pos, n, ordered).0.len() ==> all_levels_valid(
                #[trigger] items_from(lines, pos, n, ordered).0[k],
            ),
        list_at(lines, pos, n) matches Some((list, _)) ==> levels_valid(list),
    decreases lines_left(lines, pos), 3int,
{
    if 0 <= pos < lines.len() {
        // what follows a marker line
        let ind = indent_of(lines[pos]);
        lemma_list_levels(lines, pos + 1, n, ordered);
        lemma_list_levels(lines, pos + 1, ind, ordered);
        if trim(lines[pos]).len() != 0 && ind > n {
            lemma_list_here(lines, pos, ind);
            match list_at(lines, pos, ind) {
                Some((list, extra)) => {
                    lemma_list_levels(lines, pos + 1 + extra, n, ordered);
                    lemma_levels_concat(seq![list], item_rest(lines, pos + 1 + extra, n).0);
                },
                None => {},
            }
        }
        // the item of this line
        let item = item_at(lines, pos);
        let para = BlockView::Paragraph { children: parse_inlines(item_text(trim(lines[pos]))) };
        lemma_levels_concat(seq![para], item_rest(lines, pos + 1, ind).0);
        // the siblings from this line on
        lemma_list_levels(lines, pos + 1 + item.1, n, ordered);
        lemma_list_levels(lines, pos + 1 + item.1, n, marker_ordered(lines, pos));
        if opens_item(lines, pos, n) {
            let kind = marker_ordered(lines, pos);
            let more = items_from(lines, pos + 1 + item.1, n, kind).0;
            let all = seq![item.0] + more;
            assert forall|k: int| 0 <= k < all.len() implies all_levels_valid(
                #[trigger] all[k],
            ) by {
                if k > 0 {
                    assert(all[k] == more[k - 1]);
                }
            }
        }
    }
}

/// A list that a line opens at its own indentation has valid levels.
proof fn lemma_list_here(lines: Seq<Seq<char>>, pos: int, ind: nat)
    requires
        0 <= pos < lines.len(),
        ind == indent_of(lines[pos]),
    ensures
        list_at(lines, pos, ind) matches Some((list, _)) ==> levels_valid(list),
    decreases lines_left(lines, pos), 2int,
{
    if opens_item(lines, pos, ind) {
        let kind = marker_ordered(lines, pos);
        lemma_list_levels(lines, pos + 1, ind, kind);
        let item = item_at(lines, pos);
        let para = BlockView::Paragraph { children: parse_inlines(item_text(trim(lines[pos]))) };
        lemma_levels_concat(seq![para], item_rest(lines, pos + 1, ind).0);
        lemma_list_levels(lines, pos + 1 + item.1, ind, kind);
        let more = items_from(lines, pos + 1 + item.1, ind, kind).0;
        let all = seq![item.0] + more;
        assert forall|k: int| 0 <= k < all.len() implies all_levels_valid(#[trigger] all[k]) by {
            if k > 0 {
                assert(all[k] == more[k - 1]);
            }
        }
    }
}

/// The lists found in a run of lines have valid levels throughout.
pub proof fn lemma_lists_levels(lines: Seq<Seq<char>>, pos: int)
    ensures
        all_levels_valid(lists_from(lines, pos)),
    decreases lines_left(lines, pos),
{
    if 0 <= pos < lines.len() {
        lemma_list_levels(lines, pos, 0, true);
        match list_at(lines, pos, 0) {
            Some((list, extra)) => {
                lemma_lists_levels(lines, pos + 1 + extra);
                lemma_levels_concat(seq![list], lists_from(lines, pos + 1 + extra));
            },
            None => {
                lemma_lists_levels(lines, pos + 1);
            },
        }
    }
}

/// A parser over a run of lines, with the line it has reached.
pub struct ListParser {
    lines: Vec<Vec<char>>,
    pos: usize,
}

impl ListParser {
    /// The lines being parsed.
    pub closed spec fn lines(&self) -> Seq<Seq<char>> {
        vecs_view(self.lines@)
    }

    /// Index of the line reached.
    pub closed spec fn position(&self) -> int {
        self.pos as int
    }

    pub fn new(lines: &[String]) -> (p: Self)
        ensures
            p.lines() == Seq::new(lines@.len(), |i: int| lines@[i]@),
            p.position() == 0,
    {
        let mut v: Vec<Vec<char>> = Vec::new();
        let mut i: usize = 0;
        while i < lines.len()
            invariant
                i <= lines.len(),
                v@.len() == i,
                forall|j: int| 0 <= j < i ==> (#[trigger] v@[j])@ == lines@[j]@,
            decreases lines.len() - i,
        {
            v.push(to_chars(lines[i].as_str()));
            i += 1;
        }
        assert(vecs_view(v@) =~= Seq::new(lines@.len(), |i: int| lines@[i]@));
        ListParser { lines: v, pos: 0 }
    }

    /// A parser over lines that are already held as characters.
    pub fn over(lines: Vec<Vec<char>>) -> (p: Self)
        ensures
            p.lines() == vecs_view(lines@),
            p.position() == 0,
    {
        ListParser { lines, pos: 0 }
    }

    /// Number of leading spaces of a line.
    pub fn count_indent(line: &[char]) -> (k: usize)
        ensures
            k == indent_of(line@),
    {
        count_indent(line)
    }

    /// The list marker at the front of a trimmed line.
    pub fn parse_list_marker(t: &[char]) -> (r: Option<(bool, usize)>)
        ensures
            match r {
                Some((ordered, start)) => list_marker(t@) == Some((ordered, start as int)) && 1
                    <= start <= t.len(),
                None => list_marker(t@) is None,
            },
    {
        let n = t.len();
        if n == 0 {
            return None;
        }
        let c = t[0];
        if (c == '-' || c == '*' || c == '+') && (n == 1 || t[1] == ' ') {
            return Some((false, if n > 1 { 2 } else { 1 }));
        }
        if char_is_digit(c) {
            let mut i: usize = 1;
            while i < n && char_is_digit(t[i])
                invariant
                    1 <= i <= n,
                    n == t.len(),
                    forall|j: int| 0 <= j < i ==> is_digit(#[trigger] t@[j]),
                decreases n - i,
            {
                i += 1;
            }
            proof {
                lemma_count_leading_is(t@, digit(), i as int);
            }
            if i < n && t[i] == '.' && (i + 1 == n || t[i + 1] == ' ') {
                return Some((true, if i + 1 == n { i + 1 } else { i + 2 }));
            }
        }
        None
    }
}

impl ListParser {
    /// Parses every list in the lines from the line reached on, passing
    /// over lines that open none.
    pub fn parse(&mut self) -> (r: Vec<Block<'static>>)
        ensures
            block_views(r@) == lists_from(old(self).lines(), old(self).position()),
            final(self).lines() == old(self).lines(),
            final(self).position() >= final(self).lines().len(),
    {
        let mut blocks: Vec<Block<'static>> = Vec::new();
        let n = self.lines.len();
        let ghost all = self.lines();
        let ghost start = self.pos as int;
        proof {
            assert(block_views(blocks@) + lists_from(all, start) =~= lists_from(all, start));
        }
        while self.pos < n
            invariant
                self.lines() == all,
                n == all.len(),
                block_views(blocks@) + lists_from(all, self.pos as int) == lists_from(all, start),
            decreases n - self.pos,
        {
            let ghost before = block_views(blocks@);
            let ghost p = self.pos as int;
            proof {
                lemma_list_bounds(all, p, 0, true);
            }
            match self.parse_list(0) {
                Some(block) => {
                    blocks.push(block);
                    proof {
                        assert(block_views(blocks@) =~= before + seq![block@]);
                        assert(before + seq![block@] + lists_from(all, self.pos as int) =~= before
                            + lists_from(all, p));
                    }
                },
                None => {
                    self.pos += 1;
                },
            }
        }
        proof {
            assert(block_views(blocks@) + lists_from(all, self.pos as int) =~= block_views(
                blocks@,
            ));
        }
        blocks
    }

    /// The list that the line reached opens under the floor `min_indent`,
    /// with the position moved past its lines; nothing, and no movement,
    /// if that line opens no item.
    #[verifier::rlimit(50)]
    pub fn parse_list(&mut self, min_indent: usize) -> (r: Option<Block<'static>>)
        ensures
            final(self).lines() == old(self).lines(),
            match r {
                Some(b) => final(self).position() > old(self).position() && list_at(
                    old(self).lines(),
                    old(self).position(),
                    min_indent as nat,
                ) == Some((b@, (final(self).position() - old(self).position() - 1) as nat)),
                None => list_at(old(self).lines(), old(self).position(), min_indent as nat)
                    is None && final(self).position() == old(self).position(),
            },
        decreases old(self).lines().len() - old(self).position(), 1int,
    {
        let n = self.lines.len();
        if self.pos >= n {
            return None;
        }
        let start = self.pos;
        let ghost all = self.lines();
        let ghost floor = min_indent as nat;
        if count_indent(self.lines[start].as_slice()) < min_indent {
            return None;
        }
        let is_ordered = match Self::parse_list_marker(trim_chars(self.lines[start].as_slice())) {
            Some((ordered, _)) => ordered,
            None => {
                return None;
            },
        };
        let mut items: Vec<ListItem<'static>> = Vec::new();
        let mut done = false;
        proof {
            assert(item_views(items@) + items_from(all, start as int, floor, is_ordered).0
                =~= items_from(all, start as int, floor, is_ordered).0);
        }
        while !done && self.pos < n
            invariant
                self.lines() == all,
                n == all.len(),
                start <= self.pos <= n,
                floor == min_indent,
                item_views(items@) + items_from(all, self.pos as int, floor, is_ordered).0
                    == items_from(all, start as int, floor, is_ordered).0,
                (self.pos - start) + items_from(all, self.pos as int, floor, is_ordered).1
                    == items_from(all, start as int, floor, is_ordered).1,
                done ==> items_from(all, self.pos as int, floor, is_ordered) == (
                    Seq::<Seq<BlockView>>::empty(),
                    0nat,
                ),
                n - start == old(self).lines().len() - old(self).position(),
            decreases n - self.pos + (if done { 0int } else { 1int }),
        {
            let p = self.pos;
            let indent = count_indent(self.lines[p].as_slice());
            if indent < min_indent {
                done = true;
            } else {
                match Self::parse_list_marker(trim_chars(self.lines[p].as_slice())) {
                    None => {
                        done = true;
                    },
                    Some((ordered, _)) => {
                        if ordered != is_ordered {
                            done = true;
                        } else {
                            let ghost before = item_views(items@);
                            proof {
                                lemma_list_bounds(all, p as int, floor, is_ordered);
                            }
                            let item = self.parse_item();
                            items.push(item);
                            proof {
                                assert(item_views(items@) =~= before + seq![
                                    item_at(all, p as int).0,
                                ]);
                                assert(before + seq![item_at(all, p as int).0] + items_from(
                                    all,
                                    self.pos as int,
                                    floor,
                                    is_ordered,
                                ).0 =~= before + items_from(all, p as int, floor, is_ordered).0);
                            }
                        }
                    },
                }
            }
        }
        proof {
            assert(items_from(all, self.pos as int, floor, is_ordered).0 =~= Seq::<
                Seq<BlockView>,
            >::empty());
            assert(item_views(items@) =~= items_from(all, start as int, floor, is_ordered).0);
        }
        Some(Block::List { ordered: is_ordered, items })
    }

    /// The item whose marker line is the line reached: a paragraph of its
    /// own text and the nested lists that follow it. The position moves
    /// past the lines of the item.
    #[verifier::rlimit(50)]
    fn parse_item(&mut self) -> (item: ListItem<'static>)
        requires
            0 <= old(self).position() < old(self).lines().len(),
            list_marker(trim(old(self).lines()[old(self).position()])) is Some,
        ensures
            final(self).lines() == old(self).lines(),
            item@ == item_at(old(self).lines(), old(self).position()).0,
            final(self).position() == old(self).position() + 1 + item_at(
                old(self).lines(),
                old(self).position(),
            ).1,
        decreases old(self).lines().len() - old(self).position(), 0int,
    {
        let n = self.lines.len();
        let item_pos = self.pos;
        let ghost all = self.lines();
        let indent = count_indent(self.lines[item_pos].as_slice());
        let t = trim_chars(self.lines[item_pos].as_slice());
        let start = match Self::parse_list_marker(t) {
            Some((_, start)) => start,
            None => 0,
        };
        let content = trim_chars(vstd::slice::slice_subrange(t, start, t.len()));
        let mut inline_parser = InlineParser::over(content, 0, content.len());
        let inlines = inline_parser.parse();
        let mut children: Vec<Block<'static>> = Vec::new();
        children.push(Block::Paragraph { children: inlines });
        self.pos = item_pos + 1;
        let mut done = false;
        proof {
            assert(content@.subrange(0, content@.len() as int) == content@);
            assert(block_views(children@) =~= seq![
                BlockView::Paragraph {
                    children: parse_inlines(item_text(trim(all[item_pos as int]))),
                },
            ]);
        }
        while !done && self.pos < n
            invariant
                self.lines() == all,
                n == all.len(),
                item_pos < self.pos <= n,
                indent == indent_of(all[item_pos as int]),
                block_views(children@) + item_rest(all, self.pos as int, indent as nat).0
                    == item_at(all, item_pos as int).0,
                (self.pos - item_pos - 1) + item_rest(all, self.pos as int, indent as nat).1
                    == item_at(all, item_pos as int).1,
                done ==> item_rest(all, self.pos as int, indent as nat) == (
                    Seq::<BlockView>::empty(),
                    0nat,
                ),
                n - item_pos == old(self).lines().len() - old(self).position(),
            decreases n - self.pos + (if done { 0int } else { 1int }),
        {
            let p = self.pos;
            let next_indent = count_indent(self.lines[p].as_slice());
            let blank = trim_chars(self.lines[p].as_slice()).len() == 0;
            let ghost before = block_views(children@);
            if blank {
                self.pos = p + 1;
            } else if next_indent > indent {
                proof {
                    lemma_list_bounds(all, p as int, next_indent as nat, true);
                }
                match self.parse_list(next_indent) {
                    Some(sub) => {
                        children.push(sub);
                        proof {
                            assert(block_views(children@) =~= before + seq![sub@]);
                            assert(before + seq![sub@] + item_rest(
                                all,
                                self.pos as int,
                                indent as nat,
                            ).0 =~= before + item_rest(all, p as int, indent as nat).0);
                        }
                    },
                    None => {
                        self.pos = p + 1;
                    },
                }
            } else {
                done = true;
            }
        }
        proof {
            assert(item_rest(all, self.pos as int, indent as nat).0 =~= Seq::<BlockView>::empty());
            assert(block_views(children@) =~= item_at(all, item_pos as int).0);
        }
        ListItem { children }
    }
}

} // verus!
