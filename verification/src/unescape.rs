//! Escape-sequence decoding for the content of quoted literals.
//!
//! The decoder walks literal content (quotes already stripped) and produces
//! one unit per plain character or escape sequence: the unit's byte range
//! within the content, and either the character it denotes or the precise
//! error. One unit's failure never stops the scan; the whole input is
//! covered by consecutive units.

use vstd::prelude::*;

use crate::measure::{byte_len, lemma_byte_len_encodes, lemma_byte_len_split};
use crate::Cursor;

verus! {

/// A decode failure of one unit.
#[derive(Debug, PartialEq, Eq, Clone, Copy)]
pub enum EscapeError {
    /// Backslash at the very end of the content.
    LoneSlash,
    /// Unrecognized character after a backslash.
    InvalidEscape,
    /// Raw carriage return in the content.
    BareCarriageReturn,
    /// Unescaped occurrence of the mode's own quote character.
    EscapeOnlyChar,
    /// Fewer than two characters after `\x`.
    TooShortHexEscape,
    /// Non-hexadecimal digit in `\xHH`.
    InvalidCharInHexEscape,
    /// `\u` not followed by `{`.
    NoBraceInUnicodeEscape,
    /// Character in `\u{..}` that is no hexadecimal digit, `_`, or `}`.
    InvalidCharInUnicodeEscape,
    /// `\u{}`.
    EmptyUnicodeEscape,
    /// Content ends before the `}` of a `\u{..}`.
    UnclosedUnicodeEscape,
    /// `\u{_..}`.
    LeadingUnderscoreUnicodeEscape,
    /// More than six significant digits in `\u{..}`.
    OverlongUnicodeEscape,
    /// `\u{..}` value in the surrogate range.
    LoneSurrogateUnicodeEscape,
    /// `\u{..}` value above 0x10FFFF.
    OutOfRangeUnicodeEscape,
}

/// Which quote character must be escaped: the governing literal's own
/// delimiter (`'` for `Single`, `"` for `Double`).
#[derive(Debug, Clone, Copy, PartialEq, Eq)]
pub enum Mode {
    Single,
    Double,
}

/// True for the characters `to_digit(16)` accepts.
pub open spec fn is_hex_digit(c: char) -> bool {
    ||| ('0' as u32) <= (c as u32) <= ('9' as u32)
    ||| ('a' as u32) <= (c as u32) <= ('f' as u32)
    ||| ('A' as u32) <= (c as u32) <= ('F' as u32)
}

/// Value of a hexadecimal digit character.
pub open spec fn hex_val(c: char) -> int {
    if ('0' as u32) <= (c as u32) <= ('9' as u32) {
        (c as u32) - ('0' as u32)
    } else if ('a' as u32) <= (c as u32) <= ('f' as u32) {
        (c as u32) - ('a' as u32) + 10
    } else {
        (c as u32) - ('A' as u32) + 10
    }
}

/// Result of scanning the digits of `\u{..}` from index `j`, having seen
/// `n_digits` significant digits accumulating to `value`: the index just
/// past the last consumed character, and the decoded character or error.
/// Underscores separate without counting; past six digits further digits
/// are consumed but no longer change the value.
pub open spec fn unicode_escape_spec(
    s: Seq<char>,
    j: int,
    to: int,
    n_digits: int,
    value: int,
) -> (int, Result<char, EscapeError>)
    decreases to - j,
{
    if j >= to {
        (j, Err(EscapeError::UnclosedUnicodeEscape))
    } else if s[j] == '_' {
        unicode_escape_spec(s, j + 1, to, n_digits, value)
    } else if s[j] == '}' {
        (
            j + 1,
            if n_digits > 6 {
                Err(EscapeError::OverlongUnicodeEscape)
            } else if value > 0x10FFFF {
                Err(EscapeError::OutOfRangeUnicodeEscape)
            } else if 0xD800 <= value <= 0xDFFF {
                Err(EscapeError::LoneSurrogateUnicodeEscape)
            } else {
                Ok(value as char)
            },
        )
    } else if is_hex_digit(s[j]) {
        if n_digits + 1 > 6 {
            unicode_escape_spec(s, j + 1, to, n_digits + 1, value)
        } else {
            unicode_escape_spec(s, j + 1, to, n_digits + 1, value * 16 + hex_val(s[j]))
        }
    } else {
        (j + 1, Err(EscapeError::InvalidCharInUnicodeEscape))
    }
}

/// Result of scanning `\xHH` from index `j` (just past the `x`).
pub open spec fn hex_escape_spec(s: Seq<char>, j: int, to: int) -> (int, Result<
    char,
    EscapeError,
>) {
    if j >= to {
        (j, Err(EscapeError::TooShortHexEscape))
    } else if !is_hex_digit(s[j]) {
        (j + 1, Err(EscapeError::InvalidCharInHexEscape))
    } else if j + 1 >= to {
        (j + 1, Err(EscapeError::TooShortHexEscape))
    } else if !is_hex_digit(s[j + 1]) {
        (j + 2, Err(EscapeError::InvalidCharInHexEscape))
    } else {
        (j + 2, Ok((hex_val(s[j]) * 16 + hex_val(s[j + 1])) as char))
    }
}

/// Result of scanning one escape sequence whose backslash stood at index
/// `i - 1`: the index just past the sequence, and the character it denotes
/// or the error.
pub open spec fn scan_escape_spec(s: Seq<char>, i: int, to: int) -> (int, Result<
    char,
    EscapeError,
>) {
    if i >= to {
        (i, Err(EscapeError::LoneSlash))
    } else if s[i] == '"' {
        (i + 1, Ok('"'))
    } else if s[i] == 'n' {
        (i + 1, Ok('\n'))
    } else if s[i] == 'r' {
        (i + 1, Ok('\r'))
    } else if s[i] == 't' {
        (i + 1, Ok('\t'))
    } else if s[i] == '\\' {
        (i + 1, Ok('\\'))
    } else if s[i] == '\'' {
        (i + 1, Ok('\''))
    } else if s[i] == '0' {
        (i + 1, Ok('\0'))
    } else if s[i] == 'x' {
        hex_escape_spec(s, i + 1, to)
    } else if s[i] == 'u' {
        if i + 1 >= to {
            (i + 1, Err(EscapeError::NoBraceInUnicodeEscape))
        } else if s[i + 1] != '{' {
            (i + 2, Err(EscapeError::NoBraceInUnicodeEscape))
        } else if i + 2 >= to {
            (i + 2, Err(EscapeError::UnclosedUnicodeEscape))
        } else if s[i + 2] == '_' {
            (i + 3, Err(EscapeError::LeadingUnderscoreUnicodeEscape))
        } else if s[i + 2] == '}' {
            (i + 3, Err(EscapeError::EmptyUnicodeEscape))
        } else if !is_hex_digit(s[i + 2]) {
            (i + 3, Err(EscapeError::InvalidCharInUnicodeEscape))
        } else {
            unicode_escape_spec(s, i + 3, to, 1, hex_val(s[i + 2]))
        }
    } else {
        (i + 1, Err(EscapeError::InvalidEscape))
    }
}

/// Result of decoding the one unit that starts at index `i`.
pub open spec fn unit_spec(s: Seq<char>, i: int, to: int, mode: Mode) -> (int, Result<
    char,
    EscapeError,
>) {
    let c = s[i];
    if c == '\\' {
        scan_escape_spec(s, i + 1, to)
    } else if c == '\n' {
        (i + 1, Ok('\n'))
    } else if c == '\t' {
        (i + 1, Ok('\t'))
    } else if c == '"' && mode == Mode::Double {
        (i + 1, Err(EscapeError::EscapeOnlyChar))
    } else if c == '\'' && mode == Mode::Single {
        (i + 1, Err(EscapeError::EscapeOnlyChar))
    } else if c == '\r' {
        (i + 1, Err(EscapeError::BareCarriageReturn))
    } else {
        (i + 1, Ok(c))
    }
}

/// The scan of `\u{..}` digits consumes at least nothing and at most the
/// rest of the window.
pub proof fn lemma_unicode_escape_bounds(s: Seq<char>, j: int, to: int, n_digits: int, value: int)
    requires
        j <= to,
    ensures
        j <= unicode_escape_spec(s, j, to, n_digits, value).0 <= to,
    decreases to - j,
{
    if j >= to {
    } else if s[j] == '_' {
        lemma_unicode_escape_bounds(s, j + 1, to, n_digits, value);
    } else if s[j] == '}' {
    } else if is_hex_digit(s[j]) {
        if n_digits + 1 > 6 {
            lemma_unicode_escape_bounds(s, j + 1, to, n_digits + 1, value);
        } else {
            lemma_unicode_escape_bounds(s, j + 1, to, n_digits + 1, value * 16 + hex_val(s[j]));
        }
    } else {
    }
}

/// An escape scan never runs past the window and never steps back.
pub proof fn lemma_scan_escape_bounds(s: Seq<char>, i: int, to: int)
    requires
        i <= to,
    ensures
        i <= scan_escape_spec(s, i, to).0 <= to,
{
    if i < to && s[i] == 'u' && i + 2 < to && s[i + 1] == '{' && s[i + 2] != '_' && s[i + 2] != '}'
        && is_hex_digit(s[i + 2]) {
        lemma_unicode_escape_bounds(s, i + 3, to, 1, hex_val(s[i + 2]));
    }
}

/// Every unit consumes at least one character and stays in the window.
pub proof fn lemma_unit_spec_bounds(s: Seq<char>, i: int, to: int, mode: Mode)
    requires
        i < to,
    ensures
        i < unit_spec(s, i, to, mode).0 <= to,
{
    if s[i] == '\\' {
        lemma_scan_escape_bounds(s, i + 1, to);
    }
}

/// The units decoded from the window `[i, to)` of `s`, with byte ranges
/// measured from index `base` (the start of the content handed to the
/// decoder): consecutive, covering the window exactly once.
pub open spec fn unescape_units(s: Seq<char>, i: int, to: int, base: int, mode: Mode) -> Seq<
    ((int, int), Result<char, EscapeError>),
>
    decreases to - i,
    via unescape_units_decreases
{
    if i >= to {
        Seq::empty()
    } else {
        let j = unit_spec(s, i, to, mode).0;
        let res = unit_spec(s, i, to, mode).1;
        seq![
            ((byte_len(s.subrange(base, i)) as int, byte_len(s.subrange(base, j)) as int), res),
        ] + unescape_units(s, j, to, base, mode)
    }
}

#[via_fn]
proof fn unescape_units_decreases(s: Seq<char>, i: int, to: int, base: int, mode: Mode) {
    if i < to {
        lemma_unit_spec_bounds(s, i, to, mode);
    }
}

/// Value of a hexadecimal digit, as `char::to_digit(16)` computes it.
fn hex_digit_val(c: char) -> (r: Option<u32>)
    ensures
        r == if is_hex_digit(c) {
            Some(hex_val(c) as u32)
        } else {
            None::<u32>
        },
        r is Some ==> r->0 <= 15,
{
    let u: u32 = c as u32;
    if u >= ('0' as u32) && u <= ('9' as u32) {
        Some(u - ('0' as u32))
    } else if u >= ('a' as u32) && u <= ('f' as u32) {
        Some(u - ('a' as u32) + 10)
    } else if u >= ('A' as u32) && u <= ('F' as u32) {
        Some(u - ('A' as u32) + 10)
    } else {
        None
    }
}

/// Relies on char::from_u32: every value at most 0x10FFFF and outside the
/// surrogate range names a character, and the call returns it.
#[verifier::external_body]
fn char_of_scalar(v: u32) -> (r: char)
    requires
        v <= 0x10FFFF,
        !(0xD800 <= v <= 0xDFFF),
    ensures
        r == (v as char),
{
    char::from_u32(v).unwrap()
}

spec fn pow16(k: int) -> int
    decreases k,
{
    if k <= 0 {
        1
    } else {
        16 * pow16(k - 1)
    }
}

proof fn lemma_pow16_pos(k: int)
    ensures
        pow16(k) >= 1,
    decreases
            if k > 0 {
                k
            } else {
                0
            },
{
    if k > 0 {
        lemma_pow16_pos(k - 1);
    }
}

proof fn lemma_pow16_mono(a: int, b: int)
    requires
        a <= b,
    ensures
        pow16(a) <= pow16(b),
    decreases b - a,
{
    if a < b {
        lemma_pow16_mono(a, b - 1);
        lemma_pow16_pos(b - 1);
    }
}

proof fn lemma_pow16_six()
    ensures
        pow16(6) == 0x1000000,
{
    assert(pow16(0) == 1);
    assert(pow16(1) == 16);
    assert(pow16(2) == 256);
    assert(pow16(3) == 4096);
    assert(pow16(4) == 0x10000);
    assert(pow16(5) == 0x100000);
    assert(pow16(6) == 0x1000000);
}

/// Scan one escape sequence; the character just consumed before the call
/// was the introducing backslash.
fn scan_escape<'i>(cursor: &mut Cursor<'i>) -> (r: Result<char, EscapeError>)
    requires
        old(cursor).wf(),
        old(cursor).start() >= 1,
        old(cursor).full_text()[old(cursor).start() - 1] == '\\',
    ensures
        final(cursor).wf(),
        final(cursor).advanced_from(*old(cursor)),
        final(cursor).start() == scan_escape_spec(
            old(cursor).full_text(),
            old(cursor).start(),
            old(cursor).end(),
        ).0,
        r == scan_escape_spec(old(cursor).full_text(), old(cursor).start(), old(cursor).end()).1,
{
    let ghost s = old(cursor).full_text();
    let ghost i0 = old(cursor).start();
    let ghost to = old(cursor).end();

    let second = match cursor.consume() {
        None => {
            return Err(EscapeError::LoneSlash);
        },
        Some(c) => c,
    };

    match second {
        '"' => Ok('"'),
        'n' => Ok('\n'),
        'r' => Ok('\r'),
        't' => Ok('\t'),
        '\\' => Ok('\\'),
        '\'' => Ok('\''),
        '0' => Ok('\0'),
        'x' => {
            let hi = match cursor.consume() {
                None => {
                    return Err(EscapeError::TooShortHexEscape);
                },
                Some(c) => c,
            };
            let hv = match hex_digit_val(hi) {
                None => {
                    return Err(EscapeError::InvalidCharInHexEscape);
                },
                Some(v) => v,
            };
            let lo = match cursor.consume() {
                None => {
                    return Err(EscapeError::TooShortHexEscape);
                },
                Some(c) => c,
            };
            let lv = match hex_digit_val(lo) {
                None => {
                    return Err(EscapeError::InvalidCharInHexEscape);
                },
                Some(v) => v,
            };
            let value: u32 = hv * 16 + lv;
            Ok(value as u8 as char)
        },
        'u' => {
            match cursor.consume() {
                None => {
                    return Err(EscapeError::NoBraceInUnicodeEscape);
                },
                Some(c) => {
                    if c != '{' {
                        return Err(EscapeError::NoBraceInUnicodeEscape);
                    }
                },
            }
            let first = match cursor.consume() {
                None => {
                    return Err(EscapeError::UnclosedUnicodeEscape);
                },
                Some(c) => c,
            };
            if first == '_' {
                return Err(EscapeError::LeadingUnderscoreUnicodeEscape);
            }
            if first == '}' {
                return Err(EscapeError::EmptyUnicodeEscape);
            }
            let d0 = match hex_digit_val(first) {
                None => {
                    return Err(EscapeError::InvalidCharInUnicodeEscape);
                },
                Some(v) => v,
            };

            // The significant-digit counter saturates at seven: past six,
            // only "more than six" is ever asked of it.
            let mut n_digits: u32 = 1;
            let ghost mut nd: int = 1;
            let mut value: u32 = d0;
            proof {
                assert(pow16(0) == 1);
                assert(pow16(1) == 16);
            }
            loop
                invariant
                    s == old(cursor).full_text(),
                    i0 == old(cursor).start(),
                    to == old(cursor).end(),
                    cursor.wf(),
                    cursor.full_text() == s,
                    cursor.end() == to,
                    i0 + 3 <= cursor.start() <= to,
                    1 <= nd,
                    (nd <= 6 && n_digits as int == nd) || (nd > 6 && n_digits == 7),
                    nd <= 6 ==> (value as int) < pow16(nd),
                    value < 0x1000000,
                    scan_escape_spec(s, i0, to) == unicode_escape_spec(
                        s,
                        cursor.start(),
                        to,
                        nd,
                        value as int,
                    ),
                decreases to - cursor.start(),
            {
                let ghost pre = cursor.start();
                match cursor.consume() {
                    None => {
                        return Err(EscapeError::UnclosedUnicodeEscape);
                    },
                    Some(c2) => {
                        if c2 == '_' {
                        } else if c2 == '}' {
                            if n_digits > 6 {
                                return Err(EscapeError::OverlongUnicodeEscape);
                            }
                            if value > 0x10FFFF {
                                return Err(EscapeError::OutOfRangeUnicodeEscape);
                            }
                            if value >= 0xD800 && value <= 0xDFFF {
                                return Err(EscapeError::LoneSurrogateUnicodeEscape);
                            }
                            return Ok(char_of_scalar(value));
                        } else {
                            match hex_digit_val(c2) {
                                None => {
                                    return Err(EscapeError::InvalidCharInUnicodeEscape);
                                },
                                Some(d) => {
                                    proof {
                                        if nd + 1 <= 6 {
                                            lemma_pow16_mono(nd, 5);
                                            lemma_pow16_six();
                                        }
                                        nd = nd + 1;
                                    }
                                    if n_digits < 7 {
                                        n_digits = n_digits + 1;
                                    }
                                    if n_digits > 6 {
                                    } else {
                                        value = value * 16 + d;
                                    }
                                },
                            }
                        }
                    },
                }
            }
        },
        _ => Err(EscapeError::InvalidEscape),
    }
}

/// Byte length of a cursor's remainder.
fn remaining_byte_len(c: &Cursor<'_>) -> (r: usize)
    requires
        c.wf(),
    ensures
        r == byte_len(c.remaining()),
{
    let t: &str = c.as_str();
    let n: usize = t.as_bytes().len();
    proof {
        lemma_byte_len_encodes(t@);
    }
    n
}

/// Decode the cursor's whole remainder as literal content: one unit per
/// plain character or escape sequence, each with its byte range within the
/// content and the character it denotes or the error. Errors never stop
/// the scan.
pub fn unescape_str(cursor: Cursor<'_>, mode: Mode) -> (r: Vec<
    ((usize, usize), Result<char, EscapeError>),
>)
    requires
        cursor.wf(),
    ensures
        ({
            let units = unescape_units(
                cursor.full_text(),
                cursor.start(),
                cursor.end(),
                cursor.start(),
                mode,
            );
            &&& r@.len() == units.len()
            &&& forall|k: int|
                0 <= k < units.len() ==> ((#[trigger] r@[k]).0.0 as int == units[k].0.0
                    && r@[k].0.1 as int == units[k].0.1 && r@[k].1 == units[k].1)
        }),
{
    let ghost s = cursor.full_text();
    let ghost base = cursor.start();
    let ghost to = cursor.end();

    let mut cur = cursor;
    let total: usize = remaining_byte_len(&cur);
    let mut out: Vec<((usize, usize), Result<char, EscapeError>)> = Vec::new();
    let ghost mut done_units: Seq<((int, int), Result<char, EscapeError>)> = Seq::empty();

    loop
        invariant
            s == cursor.full_text(),
            base == cursor.start(),
            to == cursor.end(),
            0 <= base <= to <= s.len(),
            cur.wf(),
            cur.full_text() == s,
            cur.end() == to,
            base <= cur.start() <= to,
            total == byte_len(s.subrange(base, to)),
            unescape_units(s, base, to, base, mode) == done_units + unescape_units(
                s,
                cur.start(),
                to,
                base,
                mode,
            ),
            out@.len() == done_units.len(),
            forall|k: int|
                0 <= k < done_units.len() ==> ((#[trigger] out@[k]).0.0 as int
                    == done_units[k].0.0 && out@[k].0.1 as int == done_units[k].0.1 && out@[k].1
                    == done_units[k].1),
        ensures
            cur.start() == to,
        decreases to - cur.start(),
    {
        proof {
            lemma_byte_len_split(s, base, cur.start(), to);
        }
        let start_b: usize = total - remaining_byte_len(&cur);
        let ghost i = cur.start();
        match cur.consume() {
            None => {
                break;
            },
            Some(c) => {
                let res: Result<char, EscapeError> = if c == '\\' {
                    scan_escape(&mut cur)
                } else if c == '\n' {
                    Ok('\n')
                } else if c == '\t' {
                    Ok('\t')
                } else if c == '"' && matches!(mode, Mode::Double) {
                    Err(EscapeError::EscapeOnlyChar)
                } else if c == '\'' && matches!(mode, Mode::Single) {
                    Err(EscapeError::EscapeOnlyChar)
                } else if c == '\r' {
                    Err(EscapeError::BareCarriageReturn)
                } else {
                    Ok(c)
                };
                proof {
                    lemma_byte_len_split(s, base, cur.start(), to);
                }
                let end_b: usize = total - remaining_byte_len(&cur);
                proof {
                    assert((cur.start() as int, res) == unit_spec(s, i, to, mode));
                    assert(unescape_units(s, i, to, base, mode) == seq![
                        ((start_b as int, end_b as int), res),
                    ] + unescape_units(s, cur.start() as int, to, base, mode));
                    assert(done_units + unescape_units(s, i, to, base, mode) == (done_units
                        + seq![((start_b as int, end_b as int), res)]) + unescape_units(
                        s,
                        cur.start() as int,
                        to,
                        base,
                        mode,
                    ));
                    done_units = done_units + seq![((start_b as int, end_b as int), res)];
                }
                out.push(((start_b, end_b), res));
            },
        }
    }
    proof {
        assert(unescape_units(s, to, to, base, mode) =~= Seq::empty());
        assert(unescape_units(s, base, to, base, mode) =~= done_units);
    }
    out
}

/// Whatever the content, the decoded units cover the window exactly once:
/// there is a unit exactly when the window is non-empty, the first unit's
/// range starts at the window's first byte, each unit's range ends where
/// the next one's starts, every range is ascending, and the last range
/// ends at the window's last byte.
pub proof fn lemma_units_tile(s: Seq<char>, i: int, to: int, base: int, mode: Mode)
    requires
        0 <= base <= i <= to <= s.len(),
    ensures
        ({
            let units = unescape_units(s, i, to, base, mode);
            &&& units.len() == 0 <==> i == to
            &&& units.len() > 0 ==> units[0].0.0 == byte_len(s.subrange(base, i))
            &&& units.len() > 0 ==> units[units.len() - 1].0.1 == byte_len(s.subrange(base, to))
            &&& forall|k: int| 0 <= k < units.len() ==> (#[trigger] units[k]).0.0 <= units[k].0.1
            &&& forall|k: int|
                0 <= k < units.len() - 1 ==> (#[trigger] units[k]).0.1 == units[k + 1].0.0
        }),
    decreases to - i,
{
    if i < to {
        lemma_unit_spec_bounds(s, i, to, mode);
        let j = unit_spec(s, i, to, mode).0;
        lemma_byte_len_split(s, base, i, j);
        lemma_units_tile(s, j, to, base, mode);
        let units = unescape_units(s, i, to, base, mode);
        let rest = unescape_units(s, j, to, base, mode);
        assert forall|k: int|
            0 <= k < units.len() - 1 implies (#[trigger] units[k]).0.1 == units[k + 1].0.0 by {
            if k > 0 {
                assert(units[k] == rest[k - 1] && units[k + 1] == rest[k]);
            }
        };
        assert forall|k: int|
            0 <= k < units.len() implies (#[trigger] units[k]).0.0 <= units[k].0.1 by {
            if k > 0 {
                assert(units[k] == rest[k - 1]);
            }
        };
    }
}

/// Decoding content that contains no backslash, no carriage return, and no
/// unescaped occurrence of the mode's own quote yields every character
/// unchanged, one unit per character, with byte ranges tiling the content
/// without gap or overlap.
pub proof fn lemma_unescape_plain(s: Seq<char>, i: int, to: int, base: int, mode: Mode)
    requires
        0 <= base <= i <= to <= s.len(),
        forall|k: int| i <= k < to ==> s[k] != '\\',
        forall|k: int| i <= k < to ==> s[k] != '\r',
        mode == Mode::Double ==> forall|k: int| i <= k < to ==> s[k] != '"',
        mode == Mode::Single ==> forall|k: int| i <= k < to ==> s[k] != '\'',
    ensures
        unescape_units(s, i, to, base, mode).len() == to - i,
        forall|k: int|
            0 <= k < to - i ==> unescape_units(s, i, to, base, mode)[k] == (
            (
                byte_len(s.subrange(base, i + k)) as int,
                byte_len(s.subrange(base, i + k + 1)) as int,
            ),
            Ok::<char, EscapeError>(s[i + k]),
            ),
    decreases to - i,
{
    if i < to {
        assert(unit_spec(s, i, to, mode) == (i + 1, Ok::<char, EscapeError>(s[i])));
        lemma_unescape_plain(s, i + 1, to, base, mode);
        assert forall|k: int| 0 <= k < to - i implies unescape_units(s, i, to, base, mode)[k] == (
        (
            byte_len(s.subrange(base, i + k)) as int,
            byte_len(s.subrange(base, i + k + 1)) as int,
        ),
        Ok::<char, EscapeError>(s[i + k]),
        ) by {
            if k > 0 {
                assert(unescape_units(s, i, to, base, mode)[k] == unescape_units(
                    s,
                    i + 1,
                    to,
                    base,
                    mode,
                )[k - 1]);
            }
        };
    }
}

} // verus!
