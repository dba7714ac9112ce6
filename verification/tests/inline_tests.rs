use markup::dom::ast::Inline;
use markup::dom::inline_parser::InlineParser;
use std::borrow::Cow;

fn inline_text(s: &str) -> Inline<'static> {
    Inline::Text(Cow::Owned(s.to_string()))
}

fn parse_inline(s: &str) -> Vec<Inline<'static>> {
    InlineParser::new(s).parse()
}

#[test]
fn emphasis_needs_a_closing_run_of_the_same_length() {
    assert_eq!(parse_inline("*word**"), vec![inline_text("*word**")]);
    assert_eq!(parse_inline("**word*"), vec![inline_text("**word*")]);
}

#[test]
fn single_run_is_emphasis() {
    assert_eq!(
        parse_inline("*word*"),
        vec![Inline::Emphasis(vec![inline_text("word")])]
    );
}

#[test]
fn double_run_is_strong() {
    assert_eq!(
        parse_inline("**word**"),
        vec![Inline::Strong(vec![inline_text("word")])]
    );
}

#[test]
fn triple_run_is_strong_around_emphasis() {
    assert_eq!(
        parse_inline("***word***"),
        vec![Inline::Strong(vec![Inline::Emphasis(vec![inline_text(
            "word"
        )])])]
    );
}

#[test]
fn run_longer_than_three_is_literal() {
    assert_eq!(parse_inline("****a****"), vec![inline_text("****a****")]);
    assert_eq!(parse_inline("****a***"), vec![inline_text("****a***")]);
}

#[test]
fn closing_run_is_searched_past_runs_of_other_lengths() {
    assert_eq!(
        parse_inline("*a**b*"),
        vec![Inline::Emphasis(vec![inline_text("a**b")])]
    );
}

#[test]
fn code_span_closes_on_the_same_number_of_backticks() {
    assert_eq!(
        parse_inline("``a`b``"),
        vec![Inline::CodeSpan(Cow::Borrowed("a`b"))]
    );
    assert_eq!(
        parse_inline("`x`"),
        vec![Inline::CodeSpan(Cow::Borrowed("x"))]
    );
}

#[test]
fn code_span_content_is_not_parsed() {
    assert_eq!(
        parse_inline("`*a*`"),
        vec![Inline::CodeSpan(Cow::Borrowed("*a*"))]
    );
}

#[test]
fn unmatched_backtick_run_is_literal() {
    assert_eq!(parse_inline("``a`"), vec![inline_text("``a`")]);
    assert_eq!(parse_inline("`a"), vec![inline_text("`a")]);
}

#[test]
fn escaped_punctuation_is_literal() {
    assert_eq!(
        parse_inline("\\*not emphasis\\*"),
        vec![inline_text("*not emphasis*")]
    );
}

#[test]
fn backslash_before_other_characters_stays() {
    assert_eq!(parse_inline("a\\b"), vec![inline_text("a\\b")]);
    assert_eq!(parse_inline("end\\"), vec![inline_text("end\\")]);
}

#[test]
fn link_label_is_parsed_in_turn() {
    assert_eq!(
        parse_inline("[a *b*](http://x.y)"),
        vec![Inline::Link {
            children: vec![inline_text("a "), Inline::Emphasis(vec![inline_text("b")])],
            url: Cow::Borrowed("http://x.y"),
        }]
    );
}

#[test]
fn link_label_ends_at_the_first_unescaped_bracket() {
    assert_eq!(
        parse_inline("[a\\]b](u)"),
        vec![Inline::Link {
            children: vec![inline_text("a]b")],
            url: Cow::Borrowed("u"),
        }]
    );
}

#[test]
fn broken_link_is_literal() {
    assert_eq!(parse_inline("[text"), vec![inline_text("[text")]);
    assert_eq!(parse_inline("[text] (u)"), vec![inline_text("[text] (u)")]);
    assert_eq!(parse_inline("[text](u"), vec![inline_text("[text](u")]);
}

#[test]
fn image_keeps_its_alt_text_as_it_stands() {
    assert_eq!(
        parse_inline("![alt *x*](pic.png)"),
        vec![Inline::Image {
            alt: Cow::Borrowed("alt *x*"),
            url: Cow::Borrowed("pic.png"),
        }]
    );
    assert_eq!(parse_inline("!x"), vec![inline_text("!x")]);
    assert_eq!(parse_inline("![x"), vec![inline_text("![x")]);
}

#[test]
fn raw_markup_is_kept_verbatim() {
    assert_eq!(
        parse_inline("<b>bold</b>"),
        vec![
            Inline::RawHtml(Cow::Borrowed("<b>")),
            inline_text("bold"),
            Inline::RawHtml(Cow::Borrowed("</b>")),
        ]
    );
    assert_eq!(
        parse_inline("<!-- c -->"),
        vec![Inline::RawHtml(Cow::Borrowed("<!-- c -->"))]
    );
}

#[test]
fn raw_markup_may_open_with_any_alphanumeric_character() {
    assert_eq!(
        parse_inline("<é>"),
        vec![Inline::RawHtml(Cow::Borrowed("<é>"))]
    );
    assert_eq!(
        parse_inline("<5>"),
        vec![Inline::RawHtml(Cow::Borrowed("<5>"))]
    );
}

#[test]
fn angle_bracket_that_opens_no_tag_is_literal() {
    assert_eq!(parse_inline("a < b"), vec![inline_text("a < b")]);
    assert_eq!(parse_inline("<>"), vec![inline_text("<>")]);
    assert_eq!(parse_inline("<->"), vec![inline_text("<->")]);
    assert_eq!(parse_inline("< a>"), vec![inline_text("< a>")]);
}

#[test]
fn strikethrough_takes_exactly_two_tildes() {
    assert_eq!(
        parse_inline("~~gone~~"),
        vec![Inline::Strikethrough(vec![inline_text("gone")])]
    );
    assert_eq!(parse_inline("~gone~"), vec![inline_text("~gone~")]);
    assert_eq!(parse_inline("~~~a~~"), vec![inline_text("~~~a~~")]);
    assert_eq!(parse_inline("~~a"), vec![inline_text("~~a")]);
}

#[test]
fn plain_text_is_merged_into_one_node() {
    assert_eq!(
        parse_inline("a *b* c"),
        vec![
            inline_text("a "),
            Inline::Emphasis(vec![inline_text("b")]),
            inline_text(" c"),
        ]
    );
}

#[test]
fn multi_byte_text_is_kept_whole() {
    assert_eq!(
        parse_inline("é*ü*世界"),
        vec![
            inline_text("é"),
            Inline::Emphasis(vec![inline_text("ü")]),
            inline_text("世界"),
        ]
    );
}

#[test]
fn empty_text_gives_no_nodes() {
    assert_eq!(parse_inline(""), Vec::<Inline<'static>>::new());
}

#[test]
fn a_parser_parses_its_text_once() {
    let mut parser = InlineParser::new("a");
    assert_eq!(parser.parse(), vec![inline_text("a")]);
    assert_eq!(parser.parse(), Vec::<Inline<'static>>::new());
}

#[test]
fn nested_spans() {
    assert_eq!(
        parse_inline("**a ~~b~~**"),
        vec![Inline::Strong(vec![
            inline_text("a "),
            Inline::Strikethrough(vec![inline_text("b")]),
        ])]
    );
}
