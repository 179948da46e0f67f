//! Places in a source text: byte ranges, and lines and columns.

use vstd::prelude::*;
use vstd::utf8::*;
use vstd::string::*;
use crate::text::{decimal, push_decimal};
use crate::lexer::encoding::{
    byte_pos, lemma_byte_pos_boundary, lemma_byte_pos_order, lemma_bytes_between, lemma_encode_len,
};

verus! {

/// A range of bytes in a source text: where it starts and how long it is.
#[derive(Clone, Copy, Debug)]
pub struct Span {
    /// Byte offset of the first byte.
    pub offset: usize,
    /// Number of bytes.
    pub len: usize,
}

/// Where a range of text starts and ends, in lines and columns.
#[derive(Clone, Copy, Debug)]
pub struct FilePosition {
    pub start_line: usize,
    pub start_col: usize,
    pub end_line: usize,
    pub end_col: usize,
}

/// The line reached after reading `s`: the number of line feeds in it.
pub open spec fn line_after(s: Seq<char>) -> nat
    decreases s.len(),
{
    if s.len() == 0 {
        0
    } else if s.last() == '\n' {
        line_after(s.drop_last()) + 1
    } else {
        line_after(s.drop_last())
    }
}

/// The column reached after reading `s`: every character moves it on by one,
/// and a line feed sets it to one.
pub open spec fn column_after(s: Seq<char>) -> nat
    decreases s.len(),
{
    if s.len() == 0 {
        0
    } else if s.last() == '\n' {
        1
    } else {
        column_after(s.drop_last()) + 1
    }
}

/// Neither a line nor a column can exceed the number of characters read.
pub proof fn lemma_position_bounds(s: Seq<char>)
    ensures
        line_after(s) <= s.len(),
        column_after(s) <= s.len(),
    decreases s.len(),
{
    if s.len() > 0 {
        lemma_position_bounds(s.drop_last());
    }
}

/// The position after `before`, then after `before` followed by `inside`.
pub open spec fn position_of(before: Seq<char>, inside: Seq<char>) -> FilePosition {
    FilePosition {
        start_line: line_after(before) as usize,
        start_col: column_after(before) as usize,
        end_line: line_after(before + inside) as usize,
        end_col: column_after(before + inside) as usize,
    }
}

/// The span of the characters of `text` from position `i` up to position `j`.
pub open spec fn span_between(text: Seq<char>, i: int, j: int) -> Span {
    Span {
        offset: byte_pos(text, i) as usize,
        len: (byte_pos(text, j) - byte_pos(text, i)) as usize,
    }
}

impl FilePosition {
    /// The position as it is shown: `[line:col,line:col]`, the start and
    /// then the end.
    pub open spec fn display(self) -> Seq<char> {
        seq!['['] + decimal(self.start_line as nat) + seq![':'] + decimal(self.start_col as nat)
            + seq![','] + decimal(self.end_line as nat) + seq![':'] + decimal(self.end_col as nat)
            + seq![']']
    }

    /// The position as it is shown: `[line:col,line:col]`, the start and
    /// then the end.
    pub fn to_string(&self) -> (r: String)
        ensures
            r@ == self.display(),
    {
        let mut out = String::new();
        out.push('[');
        push_decimal(&mut out, self.start_line as u64);
        out.push(':');
        push_decimal(&mut out, self.start_col as u64);
        out.push(',');
        push_decimal(&mut out, self.end_line as u64);
        out.push(':');
        push_decimal(&mut out, self.end_col as u64);
        out.push(']');
        proof {
            assert(out@ =~= self.display());
        }
        out
    }
}

impl Default for FilePosition {
    fn default() -> (r: FilePosition)
        ensures
            r == position_of(Seq::empty(), Seq::empty()),
    {
        assert(Seq::<char>::empty() + Seq::<char>::empty() =~= Seq::<char>::empty());
        FilePosition { start_line: 0, start_col: 0, end_line: 0, end_col: 0 }
    }
}

/// Reads on from line `line` and column `col` over `chars`.
fn read_on(chars: &Vec<char>, line: usize, col: usize, Ghost(before): Ghost<Seq<char>>) -> (r: (
    usize,
    usize,
))
    requires
        line == line_after(before),
        col == column_after(before),
        before.len() + chars@.len() <= usize::MAX,
    ensures
        r.0 == line_after(before + chars@),
        r.1 == column_after(before + chars@),
{
    let mut line: usize = line;
    let mut col: usize = col;
    let mut i: usize = 0;
    assert(before + chars@.take(0) =~= before);
    while i < chars.len()
        invariant
            0 <= i <= chars@.len(),
            before.len() + chars@.len() <= usize::MAX,
            line == line_after(before + chars@.take(i as int)),
            col == column_after(before + chars@.take(i as int)),
        decreases chars@.len() - i,
    {
        proof {
            let now = before + chars@.take(i as int);
            let next = before + chars@.take(i + 1);
            lemma_position_bounds(now);
            assert(next.drop_last() =~= now);
            assert(next.last() == chars@[i as int]);
        }
        if chars[i] == '\n' {
            line = line + 1;
            col = 0;
        }
        col = col + 1;
        i = i + 1;
    }
    assert(chars@.take(i as int) =~= chars@);
    (line, col)
}

/// The characters of `s`, in order.
pub fn chars_of(s: &str) -> (r: Vec<char>)
    ensures
        r@ == s@,
{
    let mut v: Vec<char> = Vec::new();
    for c in it: s.chars()
        invariant
            it.seq() == s@,
            v@ == it.seq().take(it.index() as int),
    {
        v.push(c);
    }
    v
}

/// Cuts the bytes from `from` up to `to` out of `s`.
pub(crate) fn cut<'a>(s: &'a str, from: usize, to: usize) -> (r: &'a str)
    requires
        from <= to <= encode_utf8(s@).len(),
        is_char_boundary(encode_utf8(s@), from as int),
        is_char_boundary(encode_utf8(s@), to as int),
    ensures
        encode_utf8(r@) == encode_utf8(s@).subrange(from as int, to as int),
        r@ == decode_utf8(encode_utf8(s@).subrange(from as int, to as int)),
{
    broadcast use vstd::utf8::group_utf8_lib;

    let (head, _) = s.split_at(to);
    proof {
        let bytes = encode_utf8(s@);
        let front = encode_utf8(head@);
        assert(front == bytes.subrange(0, to as int));
        if from < to {
            assert(front[from as int] == bytes[from as int]);
            is_char_boundary_iff_not_is_continuation_byte(bytes, from as int);
            is_char_boundary_iff_not_is_continuation_byte(front, from as int);
        } else {
            is_char_boundary_start_end_of_seq(front);
        }
    }
    let (_, r) = head.split_at(from);
    proof {
        assert(encode_utf8(r@) =~= encode_utf8(s@).subrange(from as int, to as int));
    }
    r
}

impl Span {
    /// One past the last byte.
    pub open spec fn end(self) -> int {
        self.offset + self.len
    }

    /// The span lies within the encoding of `text` and cuts no character in two.
    pub open spec fn fits(self, text: Seq<char>) -> bool {
        &&& self.end() <= encode_utf8(text).len()
        &&& is_char_boundary(encode_utf8(text), self.offset as int)
        &&& is_char_boundary(encode_utf8(text), self.end())
    }

    /// The characters that the span covers in `text`.
    pub open spec fn text(self, text: Seq<char>) -> Seq<char> {
        decode_utf8(encode_utf8(text).subrange(self.offset as int, self.end()))
    }

    /// The characters of `text` that come before the span.
    pub open spec fn before(self, text: Seq<char>) -> Seq<char> {
        decode_utf8(encode_utf8(text).subrange(0, self.offset as int))
    }

    /// The lines and columns at which the span starts and ends in `text`.
    pub open spec fn position(self, text: Seq<char>) -> FilePosition {
        position_of(self.before(text), self.text(text))
    }

    /// The span as it is shown: `[start:end]`, in bytes.
    pub open spec fn display(self) -> Seq<char> {
        seq!['['] + decimal(self.offset as nat) + seq![':'] + decimal(self.end() as nat) + seq![
            ']',
        ]
    }

    /// The span as it is shown: `[start:end]`, in bytes.
    pub fn to_string(&self) -> (r: String)
        requires
            self.end() <= usize::MAX,
        ensures
            r@ == self.display(),
    {
        let mut out = String::new();
        out.push('[');
        push_decimal(&mut out, self.offset as u64);
        out.push(':');
        push_decimal(&mut out, (self.offset + self.len) as u64);
        out.push(']');
        proof {
            assert(out@ =~= self.display());
        }
        out
    }

    /// The part of `src` that the span covers.
    pub fn slice<'a>(&self, src: &'a str) -> (r: &'a str)
        requires
            self.fits(src@),
        ensures
            r@ == self.text(src@),
    {
        let total = src.as_bytes().len();
        cut(src, self.offset, self.offset + self.len)
    }

    /// The lines and columns at which the span starts and ends in `src`.
    pub fn file_position(&self, src: &str) -> (r: FilePosition)
        requires
            self.fits(src@),
        ensures
            r == self.position(src@),
    {
        broadcast use vstd::utf8::group_utf8_lib;

        let total = src.as_bytes().len();
        let before = chars_of(cut(src, 0, self.offset));
        let inside = chars_of(cut(src, self.offset, self.offset + self.len));
        proof {
            lemma_encode_len(before@);
            lemma_encode_len(inside@);
            assert(Seq::<char>::empty() + before@ =~= before@);
        }
        let start = read_on(&before, 0, 0, Ghost(Seq::empty()));
        let end = read_on(&inside, start.0, start.1, Ghost(before@));
        FilePosition { start_line: start.0, start_col: start.1, end_line: end.0, end_col: end.1 }
    }
}

/// A span between two character positions fits the text and covers the
/// characters between them; the text before it is the text up to the first.
pub proof fn lemma_span_between(text: Seq<char>, i: int, j: int)
    requires
        0 <= i <= j <= text.len(),
        encode_utf8(text).len() <= usize::MAX,
    ensures
        span_between(text, i, j).fits(text),
        span_between(text, i, j).text(text) == text.subrange(i, j),
        span_between(text, i, j).before(text) == text.take(i),
        span_between(text, i, j).offset == byte_pos(text, i),
        span_between(text, i, j).end() == byte_pos(text, j),
{
    lemma_byte_pos_order(text, i, j);
    lemma_byte_pos_order(text, 0, i);
    lemma_byte_pos_boundary(text, i);
    lemma_byte_pos_boundary(text, j);
    lemma_bytes_between(text, i, j);
    lemma_bytes_between(text, 0, i);
    assert(text.subrange(0, i) =~= text.take(i));
}

} // verus!
