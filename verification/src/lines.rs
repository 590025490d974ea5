//! Line structure of a text window.
//!
//! A window decomposes into newline-delimited lines. A line's content
//! excludes its terminator; a `"\r\n"` ending contributes neither character
//! to the content, while a carriage return not followed by a newline stays
//! part of it.

use vstd::prelude::*;

verus! {

/// Index of the first `'\n'` in `s` within `[from, to)`, or `to` if none.
pub open spec fn find_nl(s: Seq<char>, from: int, to: int) -> int
    decreases to - from,
{
    if from >= to {
        to
    } else if s[from] == '\n' {
        from
    } else {
        find_nl(s, from + 1, to)
    }
}

/// Index just past the line that starts at `from`: past its `'\n'`
/// terminator, or `to` when the line is unterminated.
pub open spec fn line_advance(s: Seq<char>, from: int, to: int) -> int {
    let n = find_nl(s, from, to);
    if n < to {
        n + 1
    } else {
        to
    }
}

/// End of the content of the line that starts at `from`: its `'\n'` is
/// excluded, and so is a `'\r'` directly before that `'\n'`.
pub open spec fn line_content_end(s: Seq<char>, from: int, to: int) -> int {
    let n = find_nl(s, from, to);
    if n < to && from < n && s[n - 1] == '\r' {
        n - 1
    } else {
        n
    }
}

/// `find_nl` lands in `[from, to]`, on a `'\n'` unless it is `to`, and
/// nothing before it is a `'\n'`.
pub proof fn lemma_find_nl(s: Seq<char>, from: int, to: int)
    requires
        from <= to,
    ensures
        from <= find_nl(s, from, to) <= to,
        find_nl(s, from, to) < to ==> s[find_nl(s, from, to)] == '\n',
        forall|k: int| from <= k < find_nl(s, from, to) ==> s[k] != '\n',
    decreases to - from,
{
    if from >= to {
    } else if s[from] == '\n' {
    } else {
        lemma_find_nl(s, from + 1, to);
    }
}

/// Consuming a line from a non-empty window makes progress and stays in it.
pub proof fn lemma_line_advance(s: Seq<char>, from: int, to: int)
    requires
        from <= to,
    ensures
        from <= line_advance(s, from, to) <= to,
        from < to ==> from < line_advance(s, from, to),
        from <= line_content_end(s, from, to) <= line_advance(s, from, to),
{
    lemma_find_nl(s, from, to);
}

/// A scan that consumed up to and including the first `'\n'` (or everything,
/// when there is none) stopped exactly at the line boundary.
pub proof fn lemma_scan_is_line_advance(s: Seq<char>, a: int, to: int, f: int)
    requires
        a <= to,
        a <= f <= to,
        a < to ==> f > a,
        a == to ==> f == a,
        forall|i: int| a <= i < f - 1 ==> s[i] != '\n',
        f < to ==> s[f - 1] == '\n',
    ensures
        f == line_advance(s, a, to),
{
    lemma_find_nl(s, a, to);
    let n = find_nl(s, a, to);
    if a < to {
        if f < to {
            if n < f - 1 {
                assert(s[n] != '\n');
                assert(false);
            }
            if n > f - 1 {
                assert(s[f - 1] != '\n');
                assert(false);
            }
        } else {
            if n < to - 1 {
                assert(s[n] != '\n');
                assert(false);
            }
        }
    }
}

/// What `consume_lines_while` leaves behind: `end` is reached from `from`
/// by consuming whole lines whose content the predicate accepted, and the
/// consumption stops either at the window's end or before a line whose
/// content the predicate rejected.
pub open spec fn lines_while_post<F: Fn(&str) -> bool>(
    pred: F,
    s: Seq<char>,
    from: int,
    to: int,
    end: int,
) -> bool
    decreases to - from,
    via lines_while_post_decreases::<F>
{
    if from >= to {
        end == from
    } else {
        let content = s.subrange(from, line_content_end(s, from, to));
        ||| (end == from && (exists|t: &str|
            t@ == content && call_ensures(pred, (t,), false)))
        ||| ((exists|t: &str| t@ == content && call_ensures(pred, (t,), true))
            && lines_while_post(pred, s, line_advance(s, from, to), to, end))
    }
}

#[via_fn]
proof fn lines_while_post_decreases<F: Fn(&str) -> bool>(
    pred: F,
    s: Seq<char>,
    from: int,
    to: int,
    end: int,
) {
    if from < to {
        lemma_line_advance(s, from, to);
    }
}

/// What `consume_lines_until` leaves behind: lines are consumed one after
/// the other, each tested after its consumption, and the consumption stops
/// just past the first line whose content the predicate accepted, or at the
/// window's end.
pub open spec fn lines_until_post<F: Fn(&str) -> bool>(
    pred: F,
    s: Seq<char>,
    from: int,
    to: int,
    end: int,
) -> bool
    decreases to - from,
    via lines_until_post_decreases::<F>
{
    if from >= to {
        end == from
    } else {
        let content = s.subrange(from, line_content_end(s, from, to));
        ||| ((exists|t: &str| t@ == content && call_ensures(pred, (t,), true))
            && end == line_advance(s, from, to))
        ||| ((exists|t: &str| t@ == content && call_ensures(pred, (t,), false))
            && lines_until_post(pred, s, line_advance(s, from, to), to, end))
    }
}

#[via_fn]
proof fn lines_until_post_decreases<F: Fn(&str) -> bool>(
    pred: F,
    s: Seq<char>,
    from: int,
    to: int,
    end: int,
) {
    if from < to {
        lemma_line_advance(s, from, to);
    }
}

} // verus!
