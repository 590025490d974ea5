use lexcursor::unescape::{unescape_str, EscapeError, Mode};
use lexcursor::Cursor;

#[test]
fn test_unescape_char_bad() {
    let cases: Vec<(&str, EscapeError)> = vec![
        (r"\", EscapeError::LoneSlash),
        ("\r", EscapeError::BareCarriageReturn),
        (r"\v", EscapeError::InvalidEscape),
        (r"\💩", EscapeError::InvalidEscape),
        (r"\●", EscapeError::InvalidEscape),
        ("\\\r", EscapeError::InvalidEscape),
        (r"\x", EscapeError::TooShortHexEscape),
        (r"\x0", EscapeError::TooShortHexEscape),
        (r"\xf", EscapeError::TooShortHexEscape),
        (r"\xa", EscapeError::TooShortHexEscape),
        (r"\xx", EscapeError::InvalidCharInHexEscape),
        (r"\xы", EscapeError::InvalidCharInHexEscape),
        (r"\x🦀", EscapeError::InvalidCharInHexEscape),
        (r"\xtt", EscapeError::InvalidCharInHexEscape),
        (r"\u", EscapeError::NoBraceInUnicodeEscape),
        (r"\u[0123]", EscapeError::NoBraceInUnicodeEscape),
        (r"\u{0x}", EscapeError::InvalidCharInUnicodeEscape),
        (r"\u{", EscapeError::UnclosedUnicodeEscape),
        (r"\u{0000", EscapeError::UnclosedUnicodeEscape),
        (r"\u{}", EscapeError::EmptyUnicodeEscape),
        (r"\u{_0000}", EscapeError::LeadingUnderscoreUnicodeEscape),
        (r"\u{0000000}", EscapeError::OverlongUnicodeEscape),
        (r"\u{FFFFFF}", EscapeError::OutOfRangeUnicodeEscape),
        (r"\u{ffffff}", EscapeError::OutOfRangeUnicodeEscape),
        (r"\u{ffffff}", EscapeError::OutOfRangeUnicodeEscape),
        (r"\u{DC00}", EscapeError::LoneSurrogateUnicodeEscape),
        (r"\u{DDDD}", EscapeError::LoneSurrogateUnicodeEscape),
        (r"\u{DFFF}", EscapeError::LoneSurrogateUnicodeEscape),
        (r"\u{D800}", EscapeError::LoneSurrogateUnicodeEscape),
        (r"\u{DAAA}", EscapeError::LoneSurrogateUnicodeEscape),
        (r"\u{DBFF}", EscapeError::LoneSurrogateUnicodeEscape),
    ];
    for (literal_text, expected_error) in cases {
        let actual_results = unescape_str(Cursor::from(literal_text), Mode::Double);
        assert_eq!(actual_results[0].1, Err(expected_error));
    }
}

#[test]
fn test_unescape_char_good() {
    let cases: Vec<(&str, char)> = vec![
        ("a", 'a'),
        ("ы", 'ы'),
        ("🦀", '🦀'),
        (r#"\""#, '"'),
        (r"\n", '\n'),
        (r"\r", '\r'),
        (r"\t", '\t'),
        (r"\\", '\\'),
        (r"\'", '\''),
        (r"\0", '\0'),
        (r"\x00", '\0'),
        (r"\x5a", 'Z'),
        (r"\x5A", 'Z'),
        (r"\x7f", 127 as char),
        (r"\u{0}", '\0'),
        (r"\u{000000}", '\0'),
        (r"\u{41}", 'A'),
        (r"\u{0041}", 'A'),
        (r"\u{00_41}", 'A'),
        (r"\u{4__1__}", 'A'),
        (r"\u{1F63b}", '😻'),
    ];
    for (literal_text, expected_char) in cases {
        let units = unescape_str(Cursor::from(literal_text), Mode::Double);
        for (_range, actual_result) in units {
            assert_eq!(actual_result, Ok(expected_char));
        }
    }
}

#[test]
fn test_unescape_str_warn() {}

#[test]
fn test_unescape_str_good() {
    let cases: Vec<(&str, &str)> =
        vec![("foo", "foo"), ("", ""), (" \t\n", " \t\n"), ("thread's", "thread's")];
    for (literal_text, expected) in cases {
        let units = unescape_str(Cursor::from(literal_text), Mode::Double);
        let mut buf = String::with_capacity(literal_text.len());
        let mut failed = false;
        for (_range, c) in units {
            match c {
                Ok(c) => buf.push(c),
                Err(_) => failed = true,
            }
        }
        assert!(!failed);
        assert_eq!(buf, expected);
    }
}
