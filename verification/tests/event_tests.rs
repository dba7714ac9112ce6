use markup::iterator::event::{Event, Tag};
use markup::iterator::parser::{events, BlockContext, Parser};
use markup::iterator::scanner::Scanner;
use std::borrow::Cow;

fn ev_text(s: &str) -> Event<'_> {
    Event::Text(Cow::Borrowed(s))
}

fn events_of(s: &str) -> Vec<Event<'_>> {
    let all = events(s);
    assert_eq!(all, Parser::new(s).collect());
    all
}

#[test]
fn events_of_a_small_document() {
    let input = "# Hello World\n\nThis is a paragraph\nwith two lines.\n\n> This is a quote.\n> Second line of quote.\n\nAnd a final paragraph.";
    assert_eq!(
        events_of(input),
        vec![
            Event::Start(Tag::Heading(1)),
            ev_text("Hello World"),
            Event::End(Tag::Heading(1)),
            Event::Start(Tag::Paragraph),
            ev_text("This is a paragraph"),
            Event::SoftBreak,
            ev_text("with two lines."),
            Event::SoftBreak,
            Event::End(Tag::Paragraph),
            Event::Start(Tag::BlockQuote),
            Event::Start(Tag::Paragraph),
            ev_text("This is a quote."),
            Event::SoftBreak,
            Event::End(Tag::Paragraph),
            Event::Start(Tag::Paragraph),
            ev_text("Second line of quote."),
            Event::SoftBreak,
            Event::End(Tag::Paragraph),
            Event::End(Tag::BlockQuote),
            Event::Start(Tag::Paragraph),
            ev_text("And a final paragraph."),
            Event::End(Tag::Paragraph),
        ]
    );
}

#[test]
fn events_come_one_at_a_time() {
    let mut parser = Parser::new("# a\n\nb");
    assert_eq!(parser.next(), Some(Event::Start(Tag::Heading(1))));
    assert_eq!(parser.next(), Some(ev_text("a")));
    assert_eq!(parser.next(), Some(Event::End(Tag::Heading(1))));
    assert_eq!(parser.next(), Some(Event::Start(Tag::Paragraph)));
    assert_eq!(parser.next(), Some(ev_text("b")));
    assert_eq!(parser.next(), Some(Event::End(Tag::Paragraph)));
    assert_eq!(parser.next(), None);
    assert_eq!(parser.next(), None);
}

#[test]
fn two_trailing_spaces_make_a_hard_break() {
    assert_eq!(
        events_of("a  \nb \nc"),
        vec![
            Event::Start(Tag::Paragraph),
            ev_text("a  "),
            Event::HardBreak,
            ev_text("b "),
            Event::SoftBreak,
            ev_text("c"),
            Event::End(Tag::Paragraph),
        ]
    );
}

#[test]
fn list_items_hold_blocks() {
    assert_eq!(
        events_of("- a\n- b"),
        vec![
            Event::Start(Tag::List(None)),
            Event::Start(Tag::Item),
            Event::Start(Tag::Paragraph),
            ev_text("a"),
            Event::SoftBreak,
            Event::End(Tag::Paragraph),
            Event::End(Tag::Item),
            Event::Start(Tag::Item),
            Event::Start(Tag::Paragraph),
            ev_text("b"),
            Event::End(Tag::Paragraph),
            Event::End(Tag::Item),
            Event::End(Tag::List(None)),
        ]
    );
}

#[test]
fn empty_list_item_and_empty_quote_line() {
    assert_eq!(
        events_of("-\n"),
        vec![
            Event::Start(Tag::List(None)),
            Event::Start(Tag::Item),
            Event::End(Tag::Item),
            Event::End(Tag::List(None)),
        ]
    );
    assert_eq!(
        events_of(">\n> a"),
        vec![
            Event::Start(Tag::BlockQuote),
            Event::Start(Tag::Paragraph),
            ev_text("a"),
            Event::End(Tag::Paragraph),
            Event::End(Tag::BlockQuote),
        ]
    );
}

#[test]
fn heading_interrupts_a_paragraph() {
    assert_eq!(
        events_of("a\n## b"),
        vec![
            Event::Start(Tag::Paragraph),
            ev_text("a"),
            Event::SoftBreak,
            Event::End(Tag::Paragraph),
            Event::Start(Tag::Heading(2)),
            ev_text("b"),
            Event::End(Tag::Heading(2)),
        ]
    );
}

#[test]
fn heading_level_goes_by_marker_count() {
    for k in 1..=6u8 {
        let line = format!("{} t", "#".repeat(k as usize));
        let mut parser = Parser::new(&line);
        assert!(parser.parse_heading());
        assert_eq!(parser.next(), Some(Event::Start(Tag::Heading(k))));
    }
}

#[test]
fn more_than_six_markers_clamp_to_level_six() {
    let mut parser = Parser::new("######## deep");
    assert!(!parser.is_at_heading_start());
    assert!(parser.parse_heading());
    assert_eq!(
        parser.collect(),
        vec![
            Event::Start(Tag::Heading(6)),
            ev_text("deep"),
            Event::End(Tag::Heading(6)),
        ]
    );
}

#[test]
fn no_marker_is_no_heading() {
    let mut parser = Parser::new("plain");
    assert!(!parser.is_at_heading_start());
    assert!(!parser.parse_heading());
    assert_eq!(
        parser.collect(),
        vec![
            Event::Start(Tag::Paragraph),
            ev_text("plain"),
            Event::End(Tag::Paragraph),
        ]
    );
}

#[test]
fn seven_markers_open_a_paragraph_in_the_stream() {
    assert_eq!(
        events_of("####### Foo"),
        vec![
            Event::Start(Tag::Paragraph),
            ev_text("####### Foo"),
            Event::End(Tag::Paragraph),
        ]
    );
}

#[test]
fn starts_and_ends_are_balanced() {
    let input = "# h\n\n> - a\n>   b\n> > c\n\n- x\n\n- y\n  > z\n\ntext  \nmore\n";
    let events = events_of(input);
    let mut depth: i64 = 0;
    let mut starts = 0;
    let mut ends = 0;
    for e in &events {
        match e {
            Event::Start(_) => {
                depth += 1;
                starts += 1;
            }
            Event::End(_) => {
                depth -= 1;
                ends += 1;
            }
            _ => {}
        }
        assert!(depth >= 0);
    }
    assert_eq!(starts, ends);
    assert!(starts > 0);
}

#[test]
fn starts_and_ends_carry_equal_tags() {
    let events = events_of("> # a\n> - b\n\nc");
    let mut stack: Vec<&Tag> = Vec::new();
    for e in &events {
        match e {
            Event::Start(tag) => stack.push(tag),
            Event::End(tag) => assert_eq!(stack.pop(), Some(tag)),
            _ => {}
        }
    }
    assert!(stack.is_empty());
}

#[test]
fn line_ends_of_all_kinds_read_as_line_feeds() {
    let expected = vec![
        Event::Start(Tag::Paragraph),
        ev_text("a"),
        Event::SoftBreak,
        ev_text("b"),
        Event::End(Tag::Paragraph),
    ];
    assert_eq!(events_of("a\nb"), expected);
    assert_eq!(events_of("a\r\nb"), expected);
    assert_eq!(events_of("a\rb"), expected);
}

#[test]
fn blank_lines_between_blocks_give_no_events() {
    assert_eq!(events_of(""), Vec::<Event>::new());
    assert_eq!(events_of("\n \n\t\n"), Vec::<Event>::new());
    assert_eq!(
        events_of("\n\n  \na"),
        vec![
            Event::Start(Tag::Paragraph),
            ev_text("a"),
            Event::End(Tag::Paragraph),
        ]
    );
}

#[test]
fn multi_byte_text_in_events() {
    assert_eq!(
        events_of("# 世界\né"),
        vec![
            Event::Start(Tag::Heading(1)),
            ev_text("世界"),
            Event::End(Tag::Heading(1)),
            Event::Start(Tag::Paragraph),
            ev_text("é"),
            Event::End(Tag::Paragraph),
        ]
    );
}

#[test]
fn checks_leave_the_cursor_in_place() {
    let mut parser = Parser::new("  > q");
    assert!(parser.is_at_blockquote_start());
    assert!(!parser.is_at_list_item_start());
    assert!(parser.is_interrupted(BlockContext::Document));
    assert!(parser.is_at_blockquote_start());
    let mut list = Parser::new("\t+ item");
    assert!(list.is_at_list_item_start());
    assert!(!Parser::new("+item").is_at_list_item_start());
    assert!(Parser::new("*").is_at_list_item_start());
    assert!(Parser::new("-\nx").is_at_list_item_start());
}

#[test]
fn scanner_skips_a_byte_order_mark() {
    let s = Scanner::new("\u{FEFF}abc");
    assert_eq!(s.position(), 3);
    assert_eq!(s.peek(), Some('a'));
    assert_eq!(Scanner::new("abc").position(), 0);
}

#[test]
fn scanner_positions_are_byte_offsets() {
    let mut s = Scanner::new("é世a");
    assert_eq!(s.next_char(), Some('é'));
    assert_eq!(s.position(), 2);
    assert_eq!(s.next_char(), Some('世'));
    assert_eq!(s.position(), 5);
    assert_eq!(s.next_char(), Some('a'));
    assert_eq!(s.position(), 6);
    assert!(s.is_eof());
    assert_eq!(s.next_char(), None);
    assert_eq!(s.peek(), None);
    assert_eq!(s.position(), 6);
    let mut four = Scanner::new("😀!");
    assert_eq!(four.next_char(), Some('😀'));
    assert_eq!(four.position(), 4);
}

#[test]
fn scanner_set_position_clamps_to_the_end() {
    let mut s = Scanner::new("abc");
    s.set_position(100);
    assert_eq!(s.position(), 3);
    assert!(s.is_eof());
    s.set_position(1);
    assert_eq!(s.position(), 1);
    assert_eq!(s.remaining_str(), "bc");
}

#[test]
fn scanner_slices_are_exact() {
    let mut s = Scanner::new("ab世界cd");
    assert_eq!(s.slice(2, 8), "世界");
    assert_eq!(s.slice(0, 0), "");
    s.set_position(5);
    assert_eq!(s.slice_from(0), "ab世");
    assert_eq!(s.slice_from(5), "");
    assert_eq!(s.remaining_str(), "界cd");
}

#[test]
fn scanner_find_counts_from_the_cursor() {
    let mut s = Scanner::new("a,b,c");
    assert_eq!(s.find(b','), Some(1));
    s.set_position(2);
    assert_eq!(s.find(b','), Some(1));
    s.set_position(4);
    assert_eq!(s.find(b','), None);
    assert_eq!(s.find(b'c'), Some(0));
}

#[test]
fn scanner_match_str_moves_only_on_a_match() {
    let mut s = Scanner::new("héllo");
    assert!(!s.match_str("hx"));
    assert_eq!(s.position(), 0);
    assert!(!s.match_str("héllo!"));
    assert_eq!(s.position(), 0);
    assert!(s.match_str("hé"));
    assert_eq!(s.position(), 3);
    assert!(s.match_str(""));
    assert_eq!(s.position(), 3);
    assert!(!s.match_char('x'));
    assert_eq!(s.position(), 3);
}

#[test]
fn scanner_skip_whitespace_takes_spaces_and_tabs_only() {
    let mut s = Scanner::new(" \t \nx");
    assert_eq!(s.skip_whitespace(), 3);
    assert_eq!(s.skip_whitespace(), 0);
    assert_eq!(s.peek(), Some('\n'));
}
