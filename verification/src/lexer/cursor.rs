//! A cursor over the characters of a source text.

use vstd::prelude::*;
use vstd::utf8::encode_utf8;
use crate::lexer::encoding::{byte_pos, utf8_width, lemma_byte_pos_order, lemma_byte_pos_step};
use crate::lexer::span::{
    FilePosition, Span, chars_of, cut, lemma_position_bounds, lemma_span_between, position_of,
    span_between,
};

verus! {

/// The character of `text` at position `i`, or NUL where there is none.
pub open spec fn char_at(text: Seq<char>, i: int) -> char {
    if 0 <= i < text.len() {
        text[i]
    } else {
        '\0'
    }
}

/// Walks over a source text one character at a time.  It remembers where the
/// lexeme being read started, and how far it has read.
pub struct Cursor<'a> {
    src: &'a str,
    chars: Vec<char>,
    start: usize,
    start_offset: usize,
    pos: usize,
    offset: usize,
    file_pos: FilePosition,
}

impl<'a> Cursor<'a> {
    /// The characters of the source text.
    pub closed spec fn text(&self) -> Seq<char> {
        self.chars@
    }

    /// The number of characters that lie before the current lexeme.
    pub closed spec fn start(&self) -> int {
        self.start as int
    }

    /// The number of characters read so far.
    pub closed spec fn pos(&self) -> int {
        self.pos as int
    }

    /// The characters read since the current lexeme started.
    pub open spec fn lexeme(&self) -> Seq<char> {
        self.text().subrange(self.start(), self.pos())
    }

    /// The cursor's counters agree with the positions it stands for.
    pub closed spec fn wf(&self) -> bool {
        &&& self.chars@ == self.src@
        &&& encode_utf8(self.chars@).len() <= usize::MAX
        &&& self.start <= self.pos <= self.chars@.len()
        &&& self.start_offset == byte_pos(self.chars@, self.start as int)
        &&& self.offset == byte_pos(self.chars@, self.pos as int)
        &&& self.file_pos == position_of(
            self.chars@.take(self.start as int),
            self.chars@.subrange(self.start as int, self.pos as int),
        )
    }

    /// A well-formed cursor has read no further than the text goes.
    pub proof fn lemma_bounds(&self)
        requires
            self.wf(),
        ensures
            0 <= self.start() <= self.pos() <= self.text().len(),
            encode_utf8(self.text()).len() <= usize::MAX,
    {
    }

    /// A cursor at the start of `text`.
    pub fn new(text: &'a str) -> (c: Cursor<'a>)
        ensures
            c.wf(),
            c.text() == text@,
            c.start() == 0,
            c.pos() == 0,
    {
        let total = text.as_bytes().len();
        let chars = chars_of(text);
        proof {
            lemma_byte_pos_order(chars@, 0, 0);
            assert(chars@.take(0) =~= Seq::<char>::empty());
            assert(chars@.subrange(0, 0) =~= Seq::<char>::empty());
        }
        Cursor {
            src: text,
            chars,
            start: 0,
            start_offset: 0,
            pos: 0,
            offset: 0,
            file_pos: FilePosition::default(),
        }
    }

    /// Starts a new lexeme where the cursor stands.
    pub fn step(&mut self)
        requires
            old(self).wf(),
        ensures
            final(self).wf(),
            final(self).text() == old(self).text(),
            final(self).start() == old(self).pos(),
            final(self).pos() == old(self).pos(),
    {
        proof {
            let text = self.chars@;
            let s = self.start as int;
            let p = self.pos as int;
            assert(text.take(s) + text.subrange(s, p) =~= text.take(p));
            assert(text.subrange(p, p) =~= Seq::<char>::empty());
            assert(text.take(p) + Seq::<char>::empty() =~= text.take(p));
        }
        self.start = self.pos;
        self.start_offset = self.offset;
        self.file_pos.start_line = self.file_pos.end_line;
        self.file_pos.start_col = self.file_pos.end_col;
    }

    /// Whether every character has been read.
    pub fn is_finished(&self) -> (r: bool)
        requires
            self.wf(),
        ensures
            r == (self.pos() == self.text().len()),
    {
        self.pos >= self.chars.len()
    }

    /// The characters read since the current lexeme started, borrowed from
    /// the source.
    pub fn current_lexem(&self) -> (r: &'a str)
        requires
            self.wf(),
        ensures
            r@ == self.lexeme(),
    {
        proof {
            lemma_span_between(self.chars@, self.start as int, self.pos as int);
        }
        cut(self.src, self.start_offset, self.offset)
    }

    /// The bytes of the source that the current lexeme covers.
    pub fn get_span(&self) -> (r: Span)
        requires
            self.wf(),
        ensures
            r == span_between(self.text(), self.start(), self.pos()),
    {
        proof {
            lemma_byte_pos_order(self.chars@, self.start as int, self.pos as int);
        }
        Span { offset: self.start_offset, len: self.offset - self.start_offset }
    }

    /// The lines and columns at which the current lexeme starts and at which
    /// the cursor stands.
    pub fn file_pos(&self) -> (r: FilePosition)
        requires
            self.wf(),
        ensures
            r == position_of(self.text().take(self.start()), self.lexeme()),
    {
        self.file_pos
    }

    /// Reads one character and returns it.  At the end of the text it returns
    /// NUL and stays where it is.
    pub fn advance(&mut self) -> (c: char)
        requires
            old(self).wf(),
        ensures
            final(self).wf(),
            final(self).text() == old(self).text(),
            final(self).start() == old(self).start(),
            c == char_at(old(self).text(), old(self).pos()),
            final(self).pos() == if old(self).pos() < old(self).text().len() {
                old(self).pos() + 1
            } else {
                old(self).pos()
            },
    {
        if self.pos >= self.chars.len() {
            return '\0';
        }
        let c = self.chars[self.pos];
        let w = utf8_width(c);
        proof {
            let text = self.chars@;
            let s = self.start as int;
            let p = self.pos as int;
            lemma_byte_pos_step(text, p);
            lemma_byte_pos_order(text, p + 1, p + 1);
            let now = text.take(s) + text.subrange(s, p);
            let next = text.take(s) + text.subrange(s, p + 1);
            assert(now =~= text.take(p));
            assert(next =~= text.take(p + 1));
            assert(next.drop_last() =~= now);
            assert(next.last() == c);
            lemma_position_bounds(now);
        }
        self.pos = self.pos + 1;
        self.offset = self.offset + w;
        self.file_pos.end_col = self.file_pos.end_col + 1;
        if c == '\n' {
            self.file_pos.end_line = self.file_pos.end_line + 1;
            self.file_pos.end_col = 1;
        }
        c
    }

    /// Reads on while `f` holds of the next character.  Returns `false` where
    /// the text ran out before `f` failed, `true` where `f` failed of the next
    /// character.  At the end of the text the next character counts as NUL:
    /// a cursor that stands there reads nothing, and returns what `f` fails
    /// of NUL.
    pub fn advance_while<F: Fn(&char) -> bool>(&mut self, f: F) -> (r: bool)
        requires
            old(self).wf(),
            forall|c: char| f.requires((&c,)),
        ensures
            final(self).wf(),
            final(self).text() == old(self).text(),
            final(self).start() == old(self).start(),
            old(self).pos() <= final(self).pos() <= old(self).text().len(),
            forall|i: int|
                old(self).pos() <= i < final(self).pos() ==> f.ensures(
                    (&#[trigger] old(self).text()[i],),
                    true,
                ),
            r ==> f.ensures((&char_at(old(self).text(), final(self).pos()),), false),
            r ==> final(self).pos() < old(self).text().len() || final(self).pos() == old(self).pos(),
            !r ==> final(self).pos() == old(self).text().len(),
            !r && old(self).pos() == old(self).text().len() ==> f.ensures((&'\0',), true),
    {
        loop
            invariant
                self.wf(),
                self.text() == old(self).text(),
                self.start() == old(self).start(),
                old(self).pos() <= self.pos() <= old(self).text().len(),
                self.pos() < old(self).text().len() || self.pos() == old(self).pos(),
                forall|c: char| f.requires((&c,)),
                forall|i: int|
                    old(self).pos() <= i < self.pos() ==> f.ensures(
                        (&#[trigger] old(self).text()[i],),
                        true,
                    ),
            decreases self.text().len() - self.pos(),
        {
            let c = self.peek();
            if !f(&c) {
                return true;
            }
            self.advance();
            if self.is_finished() {
                return false;
            }
        }
    }

    /// The next character, or NUL at the end of the text.  Reads nothing.
    pub fn peek(&self) -> (c: char)
        requires
            self.wf(),
        ensures
            c == char_at(self.text(), self.pos()),
    {
        if self.pos < self.chars.len() {
            self.chars[self.pos]
        } else {
            '\0'
        }
    }

    /// The character after the next, or NUL where there is none.  Reads
    /// nothing.
    pub fn peek_next(&self) -> (c: char)
        requires
            self.wf(),
        ensures
            c == char_at(self.text(), self.pos() + 1),
    {
        if self.pos < self.chars.len() && self.pos + 1 < self.chars.len() {
            self.chars[self.pos + 1]
        } else {
            '\0'
        }
    }

    /// Reads the next character if it is `c`, and tells whether it was.  At
    /// the end of the text the next character counts as NUL, and nothing is
    /// read.
    pub fn match_next(&mut self, c: char) -> (r: bool)
        requires
            old(self).wf(),
        ensures
            final(self).wf(),
            final(self).text() == old(self).text(),
            final(self).start() == old(self).start(),
            r == (char_at(old(self).text(), old(self).pos()) == c),
            final(self).pos() == if r && old(self).pos() < old(self).text().len() {
                old(self).pos() + 1
            } else {
                old(self).pos()
            },
    {
        if self.peek() == c {
            self.advance();
            return true;
        }
        false
    }
}

} // verus!
