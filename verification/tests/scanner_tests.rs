use markup::iterator::parser::Parser;
use markup::iterator::scanner::Scanner;

#[test]
fn test_scanner_basics() {
    let mut s = Scanner::new("Hello # 世界");

    assert_eq!(s.next_char(), Some('H'));
    assert!(s.match_str("ello"));
    assert_eq!(s.skip_whitespace(), 1);
    assert!(s.match_char('#'));
    assert_eq!(s.skip_whitespace(), 1);

    assert_eq!(s.peek(), Some('世'));
    assert_eq!(s.next_char(), Some('世'));

    assert_eq!(s.remaining_str(), "界");
}

#[test]
fn test_match_char_crlf() {
    let mut s = Scanner::new("A\r\nB");

    assert!(s.match_char('A'));

    assert!(s.match_char('\n'));

    assert_eq!(s.peek(), Some('B'));
    assert!(s.match_char('B'));
}

#[test]
fn test_match_char_cr() {
    let mut s = Scanner::new("A\rB");
    assert!(s.match_char('A'));
    assert!(s.match_char('\n'));
    assert_eq!(s.peek(), Some('B'));
}

#[test]
fn test_heading_detection() {
    let inputs = vec![
        ("# Foo", true),
        ("## Foo", true),
        ("###### Foo", true),
        ("#", true),
        ("#\n", true),
        ("####### Foo", false),
        ("#Foo", false),
        (" # Foo", false),
    ];

    for (input, expected) in inputs {
        let mut parser = Parser::new(input);

        assert_eq!(
            parser.is_at_heading_start(),
            expected,
            "Failed for input: {:?}",
            input
        );
    }
}
