use lexcursor::{Cursor, Span};

#[test]
fn fresh_cursor_over_full_text() {
    let c = Cursor::from("héllo");
    assert_eq!(c.position(), 0);
    assert_eq!(c.as_str(), "héllo");
    assert_eq!(c.input(), "héllo");
    assert!(!c.is_empty());
    assert!(Cursor::from("").is_empty());
}

#[test]
fn consume_advances_byte_position() {
    let mut c = Cursor::from("héllo");
    assert_eq!(c.consume(), Some('h'));
    assert_eq!(c.position(), 1);
    assert_eq!(c.consume(), Some('é'));
    assert_eq!(c.position(), 3);
    assert_eq!(c.as_str(), "llo");
    assert_eq!(c.as_str().len() + c.position(), c.input().len());
}

#[test]
fn lookahead_does_not_consume() {
    let mut c = Cursor::from("ab");
    assert_eq!(c.previous(), '\n');
    assert_eq!(c.first(), Some('a'));
    assert_eq!(c.second(), Some('b'));
    assert_eq!(c.as_str(), "ab");
    c.consume();
    assert_eq!(c.previous(), 'a');
    assert_eq!(c.first(), Some('b'));
    assert_eq!(c.second(), None);
    c.consume();
    assert_eq!(c.first(), None);
    assert_eq!(c.consume(), None);
    assert!(c.is_empty());
}

#[test]
fn chars_is_independent_of_the_cursor() {
    let c = Cursor::from("xyz");
    let mut it = c.chars();
    assert_eq!(it.next(), Some('x'));
    assert_eq!(it.next(), Some('y'));
    assert_eq!(c.as_str(), "xyz");
}

#[test]
fn position_never_decreases() {
    let mut c = Cursor::from("one\ntwo three\nfour");
    let mut last = c.position();
    c.consume();
    assert!(c.position() >= last);
    last = c.position();
    c.consume_while(|ch: char| ch != ' ');
    assert!(c.position() >= last);
    last = c.position();
    c.consume_line();
    assert!(c.position() >= last);
    last = c.position();
    c.consume_until(|ch: char| ch == 'q');
    assert!(c.position() >= last);
}

#[test]
fn consume_while_takes_maximal_prefix() {
    let mut c = Cursor::from("aaab");
    c.consume_while(|ch: char| ch == 'a');
    assert_eq!(c.as_str(), "b");
    c.consume_while(|ch: char| ch == 'a');
    assert_eq!(c.as_str(), "b");
    let mut d = Cursor::from("aaa");
    d.consume_while(|ch: char| ch == 'a');
    assert!(d.is_empty());
}

#[test]
fn consume_until_is_inclusive() {
    let mut c = Cursor::from("abc;def");
    c.consume_until(|ch: char| ch == ';');
    assert_eq!(c.as_str(), "def");
    let mut d = Cursor::from("abc");
    d.consume_until(|ch: char| ch == ';');
    assert!(d.is_empty());
}

#[test]
fn consume_line_goes_through_the_newline() {
    let mut c = Cursor::from("one\ntwo");
    c.consume_line();
    assert_eq!(c.as_str(), "two");
    c.consume_line();
    assert!(c.is_empty());
}

#[test]
fn consume_lines_while_stops_before_failing_line() {
    let mut c = Cursor::from("aa\nab\nbb\nrest");
    c.consume_lines_while(|line: &str| line.starts_with('a'));
    assert_eq!(c.as_str(), "bb\nrest");
}

#[test]
fn consume_lines_until_is_inclusive() {
    let mut c = Cursor::from("aa\nab\nbb\nrest");
    c.consume_lines_until(|line: &str| line == "ab");
    assert_eq!(c.as_str(), "bb\nrest");
}

#[test]
fn line_content_excludes_carriage_return_of_crlf() {
    let mut c = Cursor::from("aa\r\nbb");
    c.consume_lines_while(|line: &str| line == "aa");
    assert_eq!(c.as_str(), "bb");
}

#[test]
fn consume_with_applies_the_action() {
    let mut c = Cursor::from("xxrest");
    c.consume_with(|mut inner: Cursor| {
        inner.consume();
        inner.consume();
        inner
    });
    assert_eq!(c.as_str(), "rest");
}

#[test]
fn focus_while_carves_exactly_the_consumed_prefix() {
    let mut c = Cursor::from("abc def");
    let word = c.focus_while(|ch: char| ch != ' ');
    assert_eq!(word.as_str(), "abc");
    assert_eq!(word.position(), 0);
    assert_eq!(c.as_str(), " def");
    let sp = c.focus_char();
    assert_eq!(sp.as_str(), " ");
    assert_eq!(sp.position(), 3);
}

#[test]
fn focus_until_carves_through_the_match() {
    let mut c = Cursor::from("key=value");
    let key = c.focus_until(|ch: char| ch == '=');
    assert_eq!(key.as_str(), "key=");
    assert_eq!(c.as_str(), "value");
}

#[test]
fn focus_line_and_focus_lines() {
    let mut c = Cursor::from("one\ntwo\nthree");
    let first = c.focus_line();
    assert_eq!(first.as_str(), "one\n");
    let rest = c.focus_lines_while(|line: &str| line.starts_with('t'));
    assert_eq!(rest.as_str(), "two\nthree");
    assert!(c.is_empty());
}

#[test]
fn focus_lines_until_carves_through_the_match() {
    let mut c = Cursor::from("aa\nbb\ncc");
    let taken = c.focus_lines_until(|line: &str| line == "bb");
    assert_eq!(taken.as_str(), "aa\nbb\n");
    assert_eq!(c.as_str(), "cc");
}

#[test]
fn focus_with_carves_what_the_action_consumed() {
    let mut c = Cursor::from("num42 tail");
    let token = c.focus_with(|mut inner: Cursor| {
        inner.consume_while(|ch: char| ch != ' ');
        inner
    });
    assert_eq!(token.as_str(), "num42");
    assert_eq!(c.as_str(), " tail");
}

#[test]
fn focused_cursor_walks_independently() {
    let mut c = Cursor::from("ab cd");
    let mut word = c.focus_while(|ch: char| ch != ' ');
    assert_eq!(word.consume(), Some('a'));
    assert_eq!(word.consume(), Some('b'));
    assert_eq!(word.consume(), None);
    assert_eq!(c.as_str(), " cd");
}

#[test]
fn explicit_windows() {
    let text = "hello";
    let c = Cursor::new(text, 1, 4);
    assert_eq!(c.as_str(), "ell");
    assert_eq!(c.position(), 1);
    let d = c.focus(2, 5);
    assert_eq!(d.as_str(), "llo");
    assert_eq!(d.position(), 2);
}

#[test]
fn span_keeps_text_and_changes_only_the_tag() {
    let mut c = Cursor::from("word rest");
    let word = c.focus_while(|ch: char| ch != ' ');
    let span = Span::new(1u32, word);
    assert_eq!(span.kind, 1u32);
    assert_eq!(span.cursor.as_str(), "word");
    let renamed = span.to_kind("ident");
    assert_eq!(renamed.kind, "ident");
    assert_eq!(renamed.cursor.as_str(), "word");
    assert_eq!(span.kind, 1u32);
}
