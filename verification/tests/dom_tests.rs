use markup::dom::ast::{Alignment, Block, Inline, ListItem};
use markup::dom::list_parser::ListParser;
use markup::dom::parser::Parser;
use std::borrow::Cow;

fn txt(s: &str) -> Inline<'static> {
    Inline::Text(Cow::Owned(s.to_string()))
}

fn para(s: &str) -> Block<'static> {
    Block::Paragraph {
        children: vec![txt(s)],
    }
}

fn item(children: Vec<Block<'static>>) -> ListItem<'static> {
    ListItem { children }
}

fn parse_doc(s: &str) -> Vec<Block<'_>> {
    Parser::new(s).parse()
}

#[test]
fn document_with_heading_paragraphs_and_quote() {
    let input = "# Hello World\n\nThis is a paragraph\nwith two lines.\n\n> This is a quote.\n> Second line of quote.\n\nAnd a final paragraph.";
    assert_eq!(
        parse_doc(input),
        vec![
            Block::Heading {
                level: 1,
                children: vec![txt("Hello World")],
            },
            para("This is a paragraph\nwith two lines."),
            Block::BlockQuote(vec![para("This is a quote.\nSecond line of quote.")]),
            para("And a final paragraph."),
        ]
    );
}

#[test]
fn heading_levels_one_to_six() {
    for k in 1..=6u8 {
        let line = format!("{} Title", "#".repeat(k as usize));
        assert_eq!(
            parse_doc(&line),
            vec![Block::Heading {
                level: k,
                children: vec![txt("Title")],
            }]
        );
    }
}

#[test]
fn seven_markers_make_no_heading() {
    assert_eq!(parse_doc("####### Foo"), vec![para("####### Foo")]);
}

#[test]
fn heading_needs_space_after_markers() {
    assert_eq!(parse_doc("#Foo"), vec![para("#Foo")]);
    assert_eq!(
        parse_doc("#"),
        vec![Block::Heading {
            level: 1,
            children: vec![],
        }]
    );
    assert_eq!(
        parse_doc("##\tTab   "),
        vec![Block::Heading {
            level: 2,
            children: vec![txt("Tab")],
        }]
    );
}

#[test]
fn table_with_alignments() {
    let input = "| A | B |\n|---|:-:|\n| 1 | 2 |";
    assert_eq!(
        parse_doc(input),
        vec![Block::Table {
            headers: vec![vec![txt("A")], vec![txt("B")]],
            rows: vec![vec![vec![txt("1")], vec![txt("2")]]],
            alignments: vec![Alignment::Unset, Alignment::Center],
        }]
    );
}

#[test]
fn table_alignment_left_and_right() {
    let input = "a|b|c\n:--|--:|---\n";
    assert_eq!(
        parse_doc(input),
        vec![Block::Table {
            headers: vec![vec![txt("a")], vec![txt("b")], vec![txt("c")]],
            rows: vec![],
            alignments: vec![Alignment::Left, Alignment::Right, Alignment::Unset],
        }]
    );
}

#[test]
fn table_row_with_other_cell_count_is_kept() {
    let input = "| A | B |\n|---|---|\n| 1 |\n| 1 | 2 | 3 |\n\nafter";
    assert_eq!(
        parse_doc(input),
        vec![
            Block::Table {
                headers: vec![vec![txt("A")], vec![txt("B")]],
                rows: vec![
                    vec![vec![txt("1")]],
                    vec![vec![txt("1")], vec![txt("2")], vec![txt("3")]],
                ],
                alignments: vec![Alignment::Unset, Alignment::Unset],
            },
            para("after"),
        ]
    );
}

#[test]
fn line_with_pipe_without_delimiter_row_is_text() {
    assert_eq!(parse_doc("a | b\nc"), vec![para("a | b\nc")]);
    assert_eq!(parse_doc("a | b\n|x|"), vec![para("a | b\n|x|")]);
    assert_eq!(parse_doc("a | b\n||"), vec![para("a | b\n||")]);
    assert_eq!(parse_doc("a | b\n| |"), vec![para("a | b\n| |")]);
    assert_eq!(parse_doc("a | b\n|---| |"), vec![para("a | b\n|---| |")]);
}

#[test]
fn list_kind_switch_starts_a_new_list() {
    let lines = vec!["- a".to_string(), "1. b".to_string()];
    let blocks = ListParser::new(&lines).parse();
    assert_eq!(
        blocks,
        vec![
            Block::List {
                ordered: false,
                items: vec![item(vec![para("a")])],
            },
            Block::List {
                ordered: true,
                items: vec![item(vec![para("b")])],
            },
        ]
    );
    assert_eq!(parse_doc("- a\n1. b"), blocks);
}

#[test]
fn nested_list_by_indentation() {
    assert_eq!(
        parse_doc("- a\n  - b\n  - c\n- d"),
        vec![Block::List {
            ordered: false,
            items: vec![
                item(vec![
                    para("a"),
                    Block::List {
                        ordered: false,
                        items: vec![item(vec![para("b")]), item(vec![para("c")])],
                    },
                ]),
                item(vec![para("d")]),
            ],
        }]
    );
}

#[test]
fn list_passes_over_blank_lines_and_unmarked_text() {
    assert_eq!(
        parse_doc("- a\n\n- b\n  text\n- c"),
        vec![Block::List {
            ordered: false,
            items: vec![
                item(vec![para("a")]),
                item(vec![para("b")]),
                item(vec![para("c")]),
            ],
        }]
    );
}

#[test]
fn ordered_marker_at_line_end_gives_empty_item() {
    assert_eq!(
        parse_doc("1."),
        vec![Block::List {
            ordered: true,
            items: vec![item(vec![Block::Paragraph { children: vec![] }])],
        }]
    );
    assert_eq!(
        parse_doc("-"),
        vec![Block::List {
            ordered: false,
            items: vec![item(vec![Block::Paragraph { children: vec![] }])],
        }]
    );
}

#[test]
fn ordered_list_with_long_numbers() {
    assert_eq!(
        parse_doc("10. ten\n11. eleven"),
        vec![Block::List {
            ordered: true,
            items: vec![item(vec![para("ten")]), item(vec![para("eleven")])],
        }]
    );
    assert_eq!(parse_doc("1.x"), vec![para("1.x")]);
    assert_eq!(parse_doc("-x"), vec![para("-x")]);
}

#[test]
fn list_ends_at_plain_text() {
    assert_eq!(
        parse_doc("- a\ntext"),
        vec![
            Block::List {
                ordered: false,
                items: vec![item(vec![para("a")])],
            },
            para("text"),
        ]
    );
}

#[test]
fn fenced_code_block_with_language() {
    assert_eq!(
        parse_doc("```rust\nfn main() {}\n  indented *x*\n```\nafter"),
        vec![
            Block::CodeBlock {
                code: Cow::Borrowed("fn main() {}\n  indented *x*"),
                language: Cow::Borrowed("rust"),
            },
            para("after"),
        ]
    );
}

#[test]
fn unterminated_fence_runs_to_the_end() {
    assert_eq!(
        parse_doc("```\na\n\nb"),
        vec![Block::CodeBlock {
            code: Cow::Borrowed("a\n\nb"),
            language: Cow::Borrowed(""),
        }]
    );
    assert_eq!(
        parse_doc("```"),
        vec![Block::CodeBlock {
            code: Cow::Borrowed(""),
            language: Cow::Borrowed(""),
        }]
    );
}

#[test]
fn thematic_breaks() {
    assert_eq!(parse_doc("---"), vec![Block::ThematicBreak]);
    assert_eq!(parse_doc("* * *"), vec![Block::ThematicBreak]);
    assert_eq!(parse_doc("___  "), vec![Block::ThematicBreak]);
    assert_eq!(parse_doc("--"), vec![para("--")]);
    assert_eq!(parse_doc("--x"), vec![para("--x")]);
    assert_eq!(parse_doc("-*-"), vec![para("-*-")]);
}

#[test]
fn thematic_break_ends_a_paragraph() {
    assert_eq!(
        parse_doc("a\n---\nb"),
        vec![para("a"), Block::ThematicBreak, para("b")]
    );
}

#[test]
fn nested_block_quote() {
    assert_eq!(
        parse_doc("> a\n> > b"),
        vec![Block::BlockQuote(vec![
            para("a"),
            Block::BlockQuote(vec![para("b")]),
        ])]
    );
}

#[test]
fn block_quote_keeps_indentation_after_one_space() {
    assert_eq!(
        parse_doc("> - a\n>   - b"),
        vec![Block::BlockQuote(vec![Block::List {
            ordered: false,
            items: vec![item(vec![
                para("a"),
                Block::List {
                    ordered: false,
                    items: vec![item(vec![para("b")])],
                },
            ])],
        }])]
    );
}

#[test]
fn empty_quote_line_separates_paragraphs() {
    assert_eq!(
        parse_doc("> a\n>\n> b"),
        vec![Block::BlockQuote(vec![para("a"), para("b")])]
    );
    assert_eq!(parse_doc(">"), vec![Block::BlockQuote(vec![])]);
}

#[test]
fn quote_ends_at_line_without_marker() {
    assert_eq!(
        parse_doc("> a\nb"),
        vec![Block::BlockQuote(vec![para("a")]), para("b")]
    );
}

#[test]
fn paragraph_lines_are_trimmed_and_joined() {
    assert_eq!(parse_doc("  a  \n\tb\t"), vec![para("a\nb")]);
}

#[test]
fn empty_and_blank_documents_have_no_blocks() {
    assert_eq!(parse_doc(""), Vec::<Block>::new());
    assert_eq!(parse_doc("\n\n  \n"), Vec::<Block>::new());
}

#[test]
fn carriage_returns_at_line_ends_are_dropped() {
    assert_eq!(parse_doc("a\r\nb\r\n"), vec![para("a\nb")]);
}

#[test]
fn parse_is_repeatable() {
    let mut parser = Parser::new("# a\n\nb");
    let first = parser.parse();
    let second = parser.parse();
    assert_eq!(first, second);
}

#[test]
fn preprocess_normalizes_line_ends_and_tabs() {
    assert_eq!(Parser::preprocess("a\r\nb\tc"), "a\nb    c\n");
    assert_eq!(Parser::preprocess("a\rb"), "a\nb\n");
    assert_eq!(Parser::preprocess("a"), "a\n");
    assert_eq!(Parser::preprocess(""), "\n");
}

#[test]
fn preprocess_leaves_exactly_one_trailing_line_feed() {
    assert_eq!(Parser::preprocess("a\n"), "a\n");
    assert_eq!(Parser::preprocess("a\n\n\n"), "a\n");
    assert_eq!(Parser::preprocess("a\r\n\r\n"), "a\n");
    assert_eq!(Parser::preprocess("\n\n"), "\n");
}

#[test]
fn into_owned_keeps_the_tree() {
    let input = String::from("# *a*\n\n> [b](c)\n\n- `d`\n\n| x |\n|---|\n| ![y](z) |");
    let owned: Vec<Block<'static>> = {
        let blocks = Parser::new(&input).parse();
        let expected = Parser::new(&input).parse();
        let owned: Vec<Block<'static>> = blocks.into_iter().map(|b| b.into_owned()).collect();
        assert_eq!(owned, expected);
        owned
    };
    drop(input);
    assert_eq!(owned.len(), 4);
    let again: Vec<Block<'static>> = owned.into_iter().map(|b| b.into_owned()).collect();
    assert_eq!(again.len(), 4);
}

#[test]
fn into_owned_detaches_borrowed_strings() {
    let inline = Inline::Emphasis(vec![Inline::Text(Cow::Borrowed("a"))]);
    match inline.into_owned() {
        Inline::Emphasis(children) => match &children[0] {
            Inline::Text(Cow::Owned(s)) => assert_eq!(s, "a"),
            other => panic!("not detached: {:?}", other),
        },
        other => panic!("changed: {:?}", other),
    }
    let li = ListItem {
        children: vec![Block::CodeBlock {
            code: Cow::Borrowed("c"),
            language: Cow::Borrowed("l"),
        }],
    };
    match &li.into_owned().children[0] {
        Block::CodeBlock {
            code: Cow::Owned(c),
            language: Cow::Owned(l),
        } => {
            assert_eq!(c, "c");
            assert_eq!(l, "l");
        }
        other => panic!("not detached: {:?}", other),
    }
}
