use lexcursor::unescape::{unescape_str, EscapeError, Mode};
use lexcursor::Cursor;

#[test]
fn single_char_is_one_unit() {
    let units = unescape_str(Cursor::from("a"), Mode::Double);
    assert_eq!(units, vec![((0, 1), Ok('a'))]);
}

#[test]
fn newline_escape_is_one_unit() {
    let units = unescape_str(Cursor::from(r"\n"), Mode::Double);
    assert_eq!(units, vec![((0, 2), Ok('\n'))]);
}

#[test]
fn hex_escape_is_one_unit() {
    let units = unescape_str(Cursor::from(r"\x7f"), Mode::Double);
    assert_eq!(units, vec![((0, 4), Ok(127 as char))]);
}

#[test]
fn unicode_escape_is_one_unit() {
    let units = unescape_str(Cursor::from(r"\u{1F63B}"), Mode::Double);
    assert_eq!(units, vec![((0, 9), Ok('😻'))]);
}

#[test]
fn lone_slash_is_one_error_unit() {
    let units = unescape_str(Cursor::from(r"\"), Mode::Double);
    assert_eq!(units, vec![((0, 1), Err(EscapeError::LoneSlash))]);
}

#[test]
fn bare_carriage_return_is_one_error_unit() {
    let units = unescape_str(Cursor::from("\r"), Mode::Double);
    assert_eq!(units, vec![((0, 1), Err(EscapeError::BareCarriageReturn))]);
}

#[test]
fn quote_governed_by_mode() {
    let double = unescape_str(Cursor::from("\""), Mode::Double);
    assert_eq!(double, vec![((0, 1), Err(EscapeError::EscapeOnlyChar))]);
    let single = unescape_str(Cursor::from("\""), Mode::Single);
    assert_eq!(single, vec![((0, 1), Ok('"'))]);
}

#[test]
fn apostrophe_governed_by_mode() {
    let single = unescape_str(Cursor::from("'"), Mode::Single);
    assert_eq!(single, vec![((0, 1), Err(EscapeError::EscapeOnlyChar))]);
    let double = unescape_str(Cursor::from("'"), Mode::Double);
    assert_eq!(double, vec![((0, 1), Ok('\''))]);
}

#[test]
fn surrogate_is_one_error_unit() {
    let units = unescape_str(Cursor::from(r"\u{DC00}"), Mode::Double);
    assert_eq!(units, vec![((0, 8), Err(EscapeError::LoneSurrogateUnicodeEscape))]);
}

#[test]
fn scan_continues_past_errors() {
    let units = unescape_str(Cursor::from("a\rb"), Mode::Double);
    assert_eq!(
        units,
        vec![
            ((0, 1), Ok('a')),
            ((1, 2), Err(EscapeError::BareCarriageReturn)),
            ((2, 3), Ok('b')),
        ]
    );
}

#[test]
fn ranges_are_byte_ranges() {
    let units = unescape_str(Cursor::from("é🦀"), Mode::Double);
    assert_eq!(units, vec![((0, 2), Ok('é')), ((2, 6), Ok('🦀'))]);
}

#[test]
fn high_hex_escape_is_permitted() {
    let units = unescape_str(Cursor::from(r"\xff"), Mode::Double);
    assert_eq!(units, vec![((0, 4), Ok('\u{ff}'))]);
}

#[test]
fn raw_tab_and_newline_pass_through() {
    let units = unescape_str(Cursor::from("\t\n"), Mode::Double);
    assert_eq!(units, vec![((0, 1), Ok('\t')), ((1, 2), Ok('\n'))]);
}

#[test]
fn ranges_tile_mixed_input() {
    let units = unescape_str(Cursor::from("a\\nß\\u{41}"), Mode::Double);
    assert_eq!(
        units,
        vec![
            ((0, 1), Ok('a')),
            ((1, 3), Ok('\n')),
            ((3, 5), Ok('ß')),
            ((5, 11), Ok('A')),
        ]
    );
}

#[test]
fn overlong_value_is_not_accumulated() {
    let units = unescape_str(Cursor::from(r"\u{0000041}"), Mode::Double);
    assert_eq!(units, vec![((0, 11), Err(EscapeError::OverlongUnicodeEscape))]);
}

#[test]
fn underscores_do_not_count_as_digits() {
    let units = unescape_str(Cursor::from(r"\u{1_F63B_}"), Mode::Double);
    assert_eq!(units, vec![((0, 11), Ok('😻'))]);
}
