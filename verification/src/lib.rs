//! A lexical-scanning toolkit: a position-tracking cursor over immutable
//! text, spans that tag a scanned sub-range with a semantic kind, and an
//! escape-sequence decoder for quoted-literal content.

use vstd::prelude::*;

pub mod lines;
pub mod measure;
pub mod unescape;

use crate::lines::{
    find_nl, lemma_find_nl, lemma_line_advance, lemma_scan_is_line_advance, line_advance,
    line_content_end, lines_until_post, lines_while_post,
};
use crate::measure::{byte_len, lemma_byte_len_encodes, lemma_byte_len_split};
use vstd::string::StrSliceExecFns;

verus! {

/// A non-copying walker over a window of an immutable text buffer.
///
/// The cursor keeps a reference to the complete original text and a window
/// `[lo, hi)` of character indices into it: the unconsumed remainder.
/// Consumption moves `lo` forward; `hi` marks where this cursor's view of
/// the text ends (the end of the text for a cursor built by `from`, an
/// interior boundary for one carved out by a `focus_*` operation).
#[derive(Debug, Clone, Copy)]
pub struct Cursor<'i> {
    input: &'i str,
    lo: usize,
    hi: usize,
}

impl<'i> Cursor<'i> {
    /// The complete original text, as a character sequence.
    pub closed spec fn full_text(self) -> Seq<char> {
        self.input@
    }

    /// Character index where the remainder starts.
    pub closed spec fn start(self) -> int {
        self.lo as int
    }

    /// Character index where this cursor's window ends.
    pub closed spec fn end(self) -> int {
        self.hi as int
    }

    /// The unconsumed remainder.
    pub open spec fn remaining(self) -> Seq<char> {
        self.full_text().subrange(self.start(), self.end())
    }

    /// The window is contained in the text.
    pub open spec fn wf(self) -> bool {
        0 <= self.start() <= self.end() <= self.full_text().len()
    }

    /// Byte offset of the remainder's start in the original text.
    pub open spec fn byte_pos(self) -> nat {
        byte_len(self.full_text().take(self.start()))
    }

    /// `self` is `from` after some consumption: same text, same window end,
    /// and a start that has not moved backwards.
    pub open spec fn advanced_from(self, from: Cursor<'i>) -> bool {
        &&& self.full_text() == from.full_text()
        &&& self.end() == from.end()
        &&& from.start() <= self.start()
    }

    /// A full cursor over `input`, positioned at its start.
    pub fn from(input: &'i str) -> (r: Self)
        ensures
            r.wf(),
            r.full_text() == input@,
            r.start() == 0,
            r.end() == input@.len(),
    {
        let hi: usize = input.unicode_len();
        Cursor { input, lo: 0, hi }
    }

    /// A cursor over the window `[lo, hi)` of character indices of `input`.
    ///
    /// The window must lie inside the text; passing one that does not is a
    /// caller bug, ruled out here by precondition rather than detected at
    /// run time.
    pub fn new(input: &'i str, lo: usize, hi: usize) -> (r: Self)
        requires
            lo <= hi <= input@.len(),
        ensures
            r.wf(),
            r.full_text() == input@,
            r.start() == lo,
            r.end() == hi,
    {
        Cursor { input, lo, hi }
    }

    /// A cursor over the same text with the window `[lo, hi)`.
    pub fn focus(&self, lo: usize, hi: usize) -> (r: Self)
        requires
            lo <= hi <= self.full_text().len(),
        ensures
            r.wf(),
            r.full_text() == self.full_text(),
            r.start() == lo,
            r.end() == hi,
    {
        Cursor { input: self.input, lo, hi }
    }

    /// The complete original text.
    pub fn input(&self) -> (r: &'i str)
        ensures
            r@ == self.full_text(),
    {
        self.input
    }

    /// The unconsumed remainder, as a string slice.
    pub fn as_str(&self) -> (r: &'i str)
        requires
            self.wf(),
        ensures
            r@ == self.remaining(),
    {
        self.input.substring_char(self.lo, self.hi)
    }

    /// An independently advanceable iterator over the remainder; the cursor
    /// itself is not moved by advancing it.
    pub fn chars(&self) -> (r: std::str::Chars<'i>)
        requires
            self.wf(),
        ensures
            vstd::string::into_iter_elts(r) == self.remaining(),
    {
        broadcast use vstd::string::axiom_spec_iter;

        self.as_str().chars()
    }

    /// True iff no characters remain.
    pub fn is_empty(&self) -> (r: bool)
        requires
            self.wf(),
        ensures
            r == (self.remaining().len() == 0),
    {
        self.lo >= self.hi
    }

    /// Byte offset of the remainder's start in the original text.
    pub fn position(&self) -> (r: usize)
        requires
            self.wf(),
        ensures
            r == self.byte_pos(),
    {
        let prefix: &str = self.input.substring_char(0, self.lo);
        let n: usize = prefix.as_bytes().len();
        proof {
            lemma_byte_len_encodes(prefix@);
            assert(prefix@ =~= self.full_text().take(self.start()));
        }
        n
    }

    /// The character just before the remainder, or `'\n'` at the start of
    /// the text (so that "is the previous character a newline" holds there).
    pub fn previous(&self) -> (r: char)
        requires
            self.wf(),
        ensures
            self.start() == 0 ==> r == '\n',
            self.start() > 0 ==> r == self.full_text()[self.start() - 1],
    {
        if self.lo == 0 {
            '\n'
        } else {
            self.input.get_char(self.lo - 1)
        }
    }

    /// The first remaining character, without consuming it.
    pub fn first(&self) -> (r: Option<char>)
        requires
            self.wf(),
        ensures
            r == if self.remaining().len() > 0 {
                Some(self.remaining()[0])
            } else {
                None::<char>
            },
    {
        if self.lo < self.hi {
            Some(self.input.get_char(self.lo))
        } else {
            None
        }
    }

    /// The second remaining character, without consuming anything.
    pub fn second(&self) -> (r: Option<char>)
        requires
            self.wf(),
        ensures
            r == if self.remaining().len() > 1 {
                Some(self.remaining()[1])
            } else {
                None::<char>
            },
    {
        if self.lo < self.hi && self.lo + 1 < self.hi {
            Some(self.input.get_char(self.lo + 1))
        } else {
            None
        }
    }

    /// Remove and return the first remaining character; `None` when the
    /// remainder is empty. The sole primitive that advances the cursor.
    pub fn consume(&mut self) -> (r: Option<char>)
        requires
            old(self).wf(),
        ensures
            final(self).wf(),
            final(self).advanced_from(*old(self)),
            old(self).remaining().len() > 0 ==> {
                &&& r == Some(old(self).remaining()[0])
                &&& final(self).start() == old(self).start() + 1
            },
            old(self).remaining().len() == 0 ==> {
                &&& r == None::<char>
                &&& final(self).start() == old(self).start()
            },
    {
        if self.lo < self.hi {
            let c = self.input.get_char(self.lo);
            self.lo = self.lo + 1;
            Some(c)
        } else {
            None
        }
    }
}

impl<'i> Cursor<'i> {
    /// Hand the cursor to `func` and continue with whatever it returns.
    pub fn consume_with<F: FnOnce(Cursor<'i>) -> Cursor<'i>>(&mut self, func: F)
        requires
            old(self).wf(),
            call_requires(func, (*old(self),)),
        ensures
            call_ensures(func, (*old(self),), *final(self)),
    {
        let c: Cursor<'i> = *self;
        *self = func(c);
    }

    /// Consume characters as long as `predicate` holds for the next one,
    /// stopping before the first character for which it does not (that
    /// character stays available), or at the end of the window.
    pub fn consume_while<F: Fn(char) -> bool>(&mut self, predicate: F)
        requires
            old(self).wf(),
            forall|i: int|
                old(self).start() <= i < old(self).end() ==> call_requires(
                    predicate,
                    (old(self).full_text()[i],),
                ),
        ensures
            final(self).wf(),
            final(self).advanced_from(*old(self)),
            forall|i: int|
                old(self).start() <= i < final(self).start() ==> call_ensures(
                    predicate,
                    (old(self).full_text()[i],),
                    true,
                ),
            final(self).start() < final(self).end() ==> call_ensures(
                predicate,
                (old(self).full_text()[final(self).start()],),
                false,
            ),
    {
        let ghost orig = *self;
        loop
            invariant
                self.wf(),
                self.advanced_from(orig),
                forall|i: int|
                    orig.start() <= i < orig.end() ==> call_requires(
                        predicate,
                        (orig.full_text()[i],),
                    ),
                forall|i: int|
                    orig.start() <= i < self.start() ==> call_ensures(
                        predicate,
                        (orig.full_text()[i],),
                        true,
                    ),
            ensures
                self.start() >= self.end() || call_ensures(
                    predicate,
                    (orig.full_text()[self.start()],),
                    false,
                ),
            decreases self.end() - self.start(),
        {
            if self.lo >= self.hi {
                break;
            }
            let c = self.input.get_char(self.lo);
            if predicate(c) {
                self.lo = self.lo + 1;
            } else {
                break;
            }
        }
    }

    /// Consume characters unconditionally, testing each one after it is
    /// consumed: stop just past the first character satisfying `predicate`,
    /// or at the end of the window when none does.
    pub fn consume_until<F: Fn(char) -> bool>(&mut self, predicate: F)
        requires
            old(self).wf(),
            forall|i: int|
                old(self).start() <= i < old(self).end() ==> call_requires(
                    predicate,
                    (old(self).full_text()[i],),
                ),
        ensures
            final(self).wf(),
            final(self).advanced_from(*old(self)),
            old(self).start() < old(self).end() ==> final(self).start() > old(self).start(),
            old(self).start() == old(self).end() ==> final(self).start() == old(self).start(),
            forall|i: int|
                old(self).start() <= i < final(self).start() - 1 ==> call_ensures(
                    predicate,
                    (old(self).full_text()[i],),
                    false,
                ),
            final(self).start() < final(self).end() ==> call_ensures(
                predicate,
                (old(self).full_text()[final(self).start() - 1],),
                true,
            ),
    {
        let ghost orig = *self;
        loop
            invariant_except_break
                forall|i: int|
                    orig.start() <= i < self.start() ==> call_ensures(
                        predicate,
                        (orig.full_text()[i],),
                        false,
                    ),
            invariant
                self.wf(),
                self.advanced_from(orig),
                forall|i: int|
                    orig.start() <= i < orig.end() ==> call_requires(
                        predicate,
                        (orig.full_text()[i],),
                    ),
            ensures
                orig.start() == orig.end() ==> self.start() == orig.start(),
                orig.start() < orig.end() ==> self.start() > orig.start(),
                forall|i: int|
                    orig.start() <= i < self.start() - 1 ==> call_ensures(
                        predicate,
                        (orig.full_text()[i],),
                        false,
                    ),
                self.start() < self.end() ==> call_ensures(
                    predicate,
                    (orig.full_text()[self.start() - 1],),
                    true,
                ),
            decreases self.end() - self.start(),
        {
            if self.lo >= self.hi {
                break;
            }
            let c = self.input.get_char(self.lo);
            self.lo = self.lo + 1;
            if predicate(c) {
                break;
            }
        }
    }

    /// Consume through and including the next `'\n'`, or the whole
    /// remainder when there is none.
    pub fn consume_line(&mut self)
        requires
            old(self).wf(),
        ensures
            final(self).wf(),
            final(self).advanced_from(*old(self)),
            final(self).start() == line_advance(
                old(self).full_text(),
                old(self).start(),
                old(self).end(),
            ),
    {
        let is_nl = |c: char| -> (b: bool)
            ensures
                b == (c == '\n'),
            { c == '\n' };
        self.consume_until(is_nl);
        proof {
            lemma_scan_is_line_advance(
                old(self).full_text(),
                old(self).start(),
                old(self).end(),
                self.start(),
            );
        }
    }

    /// First index of `'\n'` in the window, or the window's end.
    fn find_newline(&self) -> (r: usize)
        requires
            self.wf(),
        ensures
            r == find_nl(self.full_text(), self.start(), self.end()),
    {
        let mut j: usize = self.lo;
        while j < self.hi
            invariant
                self.wf(),
                self.lo <= j <= self.hi,
                find_nl(self.full_text(), self.start(), self.end()) == find_nl(
                    self.full_text(),
                    j as int,
                    self.end(),
                ),
            decreases self.hi - j,
        {
            if self.input.get_char(j) == '\n' {
                return j;
            }
            j = j + 1;
        }
        j
    }

    /// Content of the line the window starts with (terminator excluded).
    fn first_line(&self) -> (t: &'i str)
        requires
            self.wf(),
        ensures
            t@ == self.full_text().subrange(
                self.start(),
                line_content_end(self.full_text(), self.start(), self.end()),
            ),
    {
        let n = self.find_newline();
        proof {
            lemma_find_nl(self.full_text(), self.start(), self.end());
        }
        let ce: usize = if n < self.hi && self.lo < n && self.input.get_char(n - 1) == '\r' {
            n - 1
        } else {
            n
        };
        self.input.substring_char(self.lo, ce)
    }

    /// Consume whole lines as long as `predicate` holds for each line's
    /// content, stopping before the first failing line or at the end.
    pub fn consume_lines_while<F: Fn(&str) -> bool>(&mut self, predicate: F)
        requires
            old(self).wf(),
            forall|t: &str| call_requires(predicate, (t,)),
        ensures
            final(self).wf(),
            final(self).advanced_from(*old(self)),
            lines_while_post(
                predicate,
                old(self).full_text(),
                old(self).start(),
                old(self).end(),
                final(self).start(),
            ),
    {
        let ghost orig = *self;
        loop
            invariant
                self.wf(),
                self.advanced_from(orig),
                forall|t: &str| call_requires(predicate, (t,)),
                forall|e: int|
                    lines_while_post(predicate, orig.full_text(), self.start(), self.end(), e)
                        ==> lines_while_post(
                        predicate,
                        orig.full_text(),
                        orig.start(),
                        orig.end(),
                        e,
                    ),
            ensures
                lines_while_post(
                    predicate,
                    orig.full_text(),
                    orig.start(),
                    orig.end(),
                    self.start(),
                ),
            decreases self.end() - self.start(),
        {
            if self.lo >= self.hi {
                proof {
                    assert(lines_while_post(
                        predicate,
                        orig.full_text(),
                        self.start(),
                        self.end(),
                        self.start() as int,
                    ));
                }
                break;
            }
            let t = self.first_line();
            if predicate(t) {
                let ghost pre = self.start();
                self.consume_line();
                proof {
                    lemma_line_advance(orig.full_text(), pre, self.end());
                    assert forall|e: int|
                        lines_while_post(
                            predicate,
                            orig.full_text(),
                            self.start(),
                            self.end(),
                            e,
                        ) implies lines_while_post(
                        predicate,
                        orig.full_text(),
                        pre,
                        self.end(),
                        e,
                    ) by {
                        assert(lines_while_post(
                            predicate,
                            orig.full_text(),
                            pre,
                            self.end(),
                            e,
                        ));
                    };
                }
            } else {
                proof {
                    assert(lines_while_post(
                        predicate,
                        orig.full_text(),
                        self.start(),
                        self.end(),
                        self.start() as int,
                    ));
                }
                break;
            }
        }
    }

    /// Consume lines unconditionally, testing each line's content after it
    /// is consumed: stop just past the first line satisfying `predicate`,
    /// or at the end when none does.
    pub fn consume_lines_until<F: Fn(&str) -> bool>(&mut self, predicate: F)
        requires
            old(self).wf(),
            forall|t: &str| call_requires(predicate, (t,)),
        ensures
            final(self).wf(),
            final(self).advanced_from(*old(self)),
            lines_until_post(
                predicate,
                old(self).full_text(),
                old(self).start(),
                old(self).end(),
                final(self).start(),
            ),
    {
        let ghost orig = *self;
        loop
            invariant_except_break
                forall|e: int|
                    lines_until_post(predicate, orig.full_text(), self.start(), self.end(), e)
                        ==> lines_until_post(
                        predicate,
                        orig.full_text(),
                        orig.start(),
                        orig.end(),
                        e,
                    ),
            invariant
                self.wf(),
                self.advanced_from(orig),
                forall|t: &str| call_requires(predicate, (t,)),
            ensures
                lines_until_post(
                    predicate,
                    orig.full_text(),
                    orig.start(),
                    orig.end(),
                    self.start(),
                ),
            decreases self.end() - self.start(),
        {
            if self.lo >= self.hi {
                proof {
                    assert(lines_until_post(
                        predicate,
                        orig.full_text(),
                        self.start(),
                        self.end(),
                        self.start() as int,
                    ));
                }
                break;
            }
            let t = self.first_line();
            let ghost pre = self.start();
            self.consume_line();
            proof {
                lemma_line_advance(orig.full_text(), pre, self.end());
            }
            if predicate(t) {
                proof {
                    assert(lines_until_post(
                        predicate,
                        orig.full_text(),
                        pre,
                        self.end(),
                        self.start() as int,
                    ));
                    assert(lines_until_post(
                        predicate,
                        orig.full_text(),
                        orig.start(),
                        orig.end(),
                        self.start() as int,
                    ));
                }
                break;
            } else {
                proof {
                    assert forall|e: int|
                        lines_until_post(
                            predicate,
                            orig.full_text(),
                            self.start(),
                            self.end(),
                            e,
                        ) implies lines_until_post(
                        predicate,
                        orig.full_text(),
                        pre,
                        self.end(),
                        e,
                    ) by {
                        assert(lines_until_post(
                            predicate,
                            orig.full_text(),
                            pre,
                            self.end(),
                            e,
                        ));
                    };
                }
            }
        }
    }
}

impl<'i> Cursor<'i> {
    /// Let `func` advance the cursor, and return a sub-cursor whose window
    /// is exactly what `func` consumed; that sub-cursor can be walked
    /// independently of this one.
    pub fn focus_with<F: FnOnce(Cursor<'i>) -> Cursor<'i>>(&mut self, func: F) -> (r: Cursor<'i>)
        requires
            old(self).wf(),
            call_requires(func, (*old(self),)),
            forall|c: Cursor<'i>| #[trigger]
                call_ensures(func, (*old(self),), c) ==> c.wf() && c.advanced_from(*old(self)),
        ensures
            call_ensures(func, (*old(self),), *final(self)),
            final(self).wf(),
            final(self).advanced_from(*old(self)),
            r.wf(),
            r.full_text() == old(self).full_text(),
            r.start() == old(self).start(),
            r.end() == final(self).start(),
            r.remaining() == old(self).full_text().subrange(
                old(self).start(),
                final(self).start(),
            ),
    {
        let start = self.lo;
        let c: Cursor<'i> = *self;
        let advanced = func(c);
        proof {
            assert(call_ensures(func, (*old(self),), advanced));
            assert(advanced.wf() && advanced.advanced_from(*old(self)));
        }
        *self = advanced;
        Cursor { input: self.input, lo: start, hi: self.lo }
    }

    /// A sub-cursor over exactly the one character `consume` takes here
    /// (empty when the remainder is empty).
    pub fn focus_char(&mut self) -> (r: Cursor<'i>)
        requires
            old(self).wf(),
        ensures
            final(self).wf(),
            final(self).advanced_from(*old(self)),
            old(self).remaining().len() > 0 ==> final(self).start() == old(self).start() + 1,
            old(self).remaining().len() == 0 ==> final(self).start() == old(self).start(),
            r.wf(),
            r.full_text() == old(self).full_text(),
            r.start() == old(self).start(),
            r.end() == final(self).start(),
            r.remaining() == old(self).full_text().subrange(
                old(self).start(),
                final(self).start(),
            ),
    {
        let start = self.lo;
        self.consume();
        Cursor { input: self.input, lo: start, hi: self.lo }
    }

    /// A sub-cursor over exactly the line `consume_line` takes here.
    pub fn focus_line(&mut self) -> (r: Cursor<'i>)
        requires
            old(self).wf(),
        ensures
            final(self).wf(),
            final(self).advanced_from(*old(self)),
            final(self).start() == line_advance(
                old(self).full_text(),
                old(self).start(),
                old(self).end(),
            ),
            r.wf(),
            r.full_text() == old(self).full_text(),
            r.start() == old(self).start(),
            r.end() == final(self).start(),
            r.remaining() == old(self).full_text().subrange(
                old(self).start(),
                final(self).start(),
            ),
    {
        let start = self.lo;
        self.consume_line();
        Cursor { input: self.input, lo: start, hi: self.lo }
    }

    /// A sub-cursor over exactly the prefix `consume_while` takes here.
    pub fn focus_while<F: Fn(char) -> bool>(&mut self, predicate: F) -> (r: Cursor<'i>)
        requires
            old(self).wf(),
            forall|i: int|
                old(self).start() <= i < old(self).end() ==> call_requires(
                    predicate,
                    (old(self).full_text()[i],),
                ),
        ensures
            final(self).wf(),
            final(self).advanced_from(*old(self)),
            forall|i: int|
                old(self).start() <= i < final(self).start() ==> call_ensures(
                    predicate,
                    (old(self).full_text()[i],),
                    true,
                ),
            final(self).start() < final(self).end() ==> call_ensures(
                predicate,
                (old(self).full_text()[final(self).start()],),
                false,
            ),
            r.wf(),
            r.full_text() == old(self).full_text(),
            r.start() == old(self).start(),
            r.end() == final(self).start(),
            r.remaining() == old(self).full_text().subrange(
                old(self).start(),
                final(self).start(),
            ),
    {
        let start = self.lo;
        self.consume_while(predicate);
        Cursor { input: self.input, lo: start, hi: self.lo }
    }

    /// A sub-cursor over exactly what `consume_until` takes here.
    pub fn focus_until<F: Fn(char) -> bool>(&mut self, predicate: F) -> (r: Cursor<'i>)
        requires
            old(self).wf(),
            forall|i: int|
                old(self).start() <= i < old(self).end() ==> call_requires(
                    predicate,
                    (old(self).full_text()[i],),
                ),
        ensures
            final(self).wf(),
            final(self).advanced_from(*old(self)),
            old(self).start() < old(self).end() ==> final(self).start() > old(self).start(),
            old(self).start() == old(self).end() ==> final(self).start() == old(self).start(),
            forall|i: int|
                old(self).start() <= i < final(self).start() - 1 ==> call_ensures(
                    predicate,
                    (old(self).full_text()[i],),
                    false,
                ),
            final(self).start() < final(self).end() ==> call_ensures(
                predicate,
                (old(self).full_text()[final(self).start() - 1],),
                true,
            ),
            r.wf(),
            r.full_text() == old(self).full_text(),
            r.start() == old(self).start(),
            r.end() == final(self).start(),
            r.remaining() == old(self).full_text().subrange(
                old(self).start(),
                final(self).start(),
            ),
    {
        let start = self.lo;
        self.consume_until(predicate);
        Cursor { input: self.input, lo: start, hi: self.lo }
    }

    /// A sub-cursor over exactly the lines `consume_lines_while` takes here.
    pub fn focus_lines_while<F: Fn(&str) -> bool>(&mut self, predicate: F) -> (r: Cursor<'i>)
        requires
            old(self).wf(),
            forall|t: &str| call_requires(predicate, (t,)),
        ensures
            final(self).wf(),
            final(self).advanced_from(*old(self)),
            lines_while_post(
                predicate,
                old(self).full_text(),
                old(self).start(),
                old(self).end(),
                final(self).start(),
            ),
            r.wf(),
            r.full_text() == old(self).full_text(),
            r.start() == old(self).start(),
            r.end() == final(self).start(),
            r.remaining() == old(self).full_text().subrange(
                old(self).start(),
                final(self).start(),
            ),
    {
        let start = self.lo;
        self.consume_lines_while(predicate);
        Cursor { input: self.input, lo: start, hi: self.lo }
    }

    /// A sub-cursor over exactly the lines `consume_lines_until` takes here.
    pub fn focus_lines_until<F: Fn(&str) -> bool>(&mut self, predicate: F) -> (r: Cursor<'i>)
        requires
            old(self).wf(),
            forall|t: &str| call_requires(predicate, (t,)),
        ensures
            final(self).wf(),
            final(self).advanced_from(*old(self)),
            lines_until_post(
                predicate,
                old(self).full_text(),
                old(self).start(),
                old(self).end(),
                final(self).start(),
            ),
            r.wf(),
            r.full_text() == old(self).full_text(),
            r.start() == old(self).start(),
            r.end() == final(self).start(),
            r.remaining() == old(self).full_text().subrange(
                old(self).start(),
                final(self).start(),
            ),
    {
        let start = self.lo;
        self.consume_lines_until(predicate);
        Cursor { input: self.input, lo: start, hi: self.lo }
    }
}

/// A semantic tag attached to a cursor snapshot denoting a sub-range of
/// text; the tag is opaque to this crate.
#[derive(Debug, Clone)]
pub struct Span<'i, Kind> {
    pub kind: Kind,
    pub cursor: Cursor<'i>,
}

impl<'i, Kind> Span<'i, Kind> {
    /// Attach `kind` to `cursor`.
    pub fn new(kind: Kind, cursor: Cursor<'i>) -> (r: Self)
        ensures
            r.kind == kind,
            r.cursor == cursor,
    {
        Span { kind, cursor }
    }

    /// The same range under another tag: only the tag changes, never the
    /// spanned text.
    pub fn to_kind<OtherKind>(&self, other_kind: OtherKind) -> (r: Span<'i, OtherKind>)
        ensures
            r.kind == other_kind,
            r.cursor == self.cursor,
            r.cursor.remaining() == self.cursor.remaining(),
    {
        Span { kind: other_kind, cursor: self.cursor }
    }
}

/// The byte offset of the remainder plus the remainder's byte length is the
/// byte length of the original text, for any cursor whose window reaches the
/// end of the text (as those built by `from` and moved by consumption do).
pub proof fn lemma_position_remaining(c: Cursor)
    requires
        c.wf(),
        c.end() == c.full_text().len(),
    ensures
        c.byte_pos() + byte_len(c.remaining()) == byte_len(c.full_text()),
{
    assert(c.full_text().take(c.start()) =~= c.full_text().subrange(0, c.start()));
    assert(c.full_text() =~= c.full_text().subrange(0, c.full_text().len() as int));
    lemma_byte_len_split(c.full_text(), 0, c.start(), c.full_text().len() as int);
}

/// The byte position never decreases across consumption: whenever `b` was
/// reached from `a` by consuming (in any number of steps), `b`'s byte
/// position is at least `a`'s.
pub proof fn lemma_position_monotone(a: Cursor, b: Cursor)
    requires
        a.wf(),
        b.wf(),
        b.advanced_from(a),
    ensures
        a.byte_pos() <= b.byte_pos(),
{
    assert(b.full_text().take(b.start()) =~= b.full_text().subrange(0, b.start()));
    assert(a.full_text().take(a.start()) =~= a.full_text().subrange(0, a.start()));
    lemma_byte_len_split(b.full_text(), 0, a.start(), b.start());
}

} // verus!
