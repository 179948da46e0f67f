//! Byte positions of characters in UTF-8 text.

use vstd::prelude::*;
use vstd::utf8::*;

verus! {

/// Number of bytes that `c` takes in UTF-8.
pub open spec fn width(c: char) -> nat {
    encode_scalar(c as u32).len()
}

/// Number of bytes that the first `i` characters of `text` take in UTF-8.
pub open spec fn byte_pos(text: Seq<char>, i: int) -> nat {
    encode_utf8(text.take(i)).len()
}

/// Encoding distributes over concatenation.
pub proof fn lemma_encode_concat(a: Seq<char>, b: Seq<char>)
    ensures
        encode_utf8(a + b) == encode_utf8(a) + encode_utf8(b),
    decreases a.len(),
{
    if a.len() == 0 {
        assert(a + b =~= b);
        assert(encode_utf8(a) + encode_utf8(b) =~= encode_utf8(b));
    } else {
        assert((a + b).drop_first() =~= a.drop_first() + b);
        lemma_encode_concat(a.drop_first(), b);
        assert((a + b)[0] == a[0]);
        assert(encode_utf8(a + b) =~= encode_utf8(a) + encode_utf8(b));
    }
}

/// Every character takes between one and four bytes.
pub proof fn lemma_width_bounds(c: char)
    ensures
        1 <= width(c) <= 4,
{
}

/// The encoding of a single character is that of its scalar.
pub proof fn lemma_encode_single(c: char)
    ensures
        encode_utf8(seq![c]) == encode_scalar(c as u32),
{
    let s = seq![c];
    assert(s.drop_first() =~= Seq::<char>::empty());
    assert(encode_utf8(s.drop_first()) =~= Seq::<u8>::empty());
    assert(encode_utf8(s) =~= encode_scalar(c as u32));
}

/// Text is never longer in characters than in bytes.
pub proof fn lemma_encode_len(a: Seq<char>)
    ensures
        a.len() <= encode_utf8(a).len(),
    decreases a.len(),
{
    if a.len() > 0 {
        lemma_encode_len(a.drop_first());
        lemma_width_bounds(a[0]);
    }
}

/// The byte position moves on by the width of the character stepped over.
pub proof fn lemma_byte_pos_step(text: Seq<char>, i: int)
    requires
        0 <= i < text.len(),
    ensures
        byte_pos(text, i + 1) == byte_pos(text, i) + width(text[i]),
        1 <= width(text[i]) <= 4,
{
    assert(text.take(i + 1) =~= text.take(i) + seq![text[i]]);
    lemma_encode_concat(text.take(i), seq![text[i]]);
    lemma_encode_single(text[i]);
    lemma_width_bounds(text[i]);
}

/// Byte positions grow with character positions and end at the text's byte length.
pub proof fn lemma_byte_pos_order(text: Seq<char>, i: int, j: int)
    requires
        0 <= i <= j <= text.len(),
    ensures
        byte_pos(text, i) + (j - i) <= byte_pos(text, j),
        byte_pos(text, j) <= encode_utf8(text).len(),
        byte_pos(text, 0) == 0,
        byte_pos(text, text.len() as int) == encode_utf8(text).len(),
{
    assert(text.take(j) =~= text.take(i) + text.subrange(i, j));
    lemma_encode_concat(text.take(i), text.subrange(i, j));
    lemma_encode_len(text.subrange(i, j));
    assert(text =~= text.take(j) + text.skip(j));
    lemma_encode_concat(text.take(j), text.skip(j));
    assert(text.take(0) =~= Seq::<char>::empty());
    assert(text.take(text.len() as int) =~= text);
}

/// The end of an encoded prefix is a character boundary of the whole encoding.
pub proof fn lemma_boundary_after(a: Seq<char>, b: Seq<char>)
    ensures
        is_char_boundary(encode_utf8(a + b), encode_utf8(a).len() as int),
    decreases a.len(),
{
    broadcast use encode_utf8_valid_utf8;

    let whole = a + b;
    let bytes = encode_utf8(whole);
    if a.len() == 0 {
    } else {
        encode_utf8_first_scalar(whole);
        assert(whole[0] == a[0]);
        assert(whole.drop_first() =~= a.drop_first() + b);
        assert(pop_first_scalar(bytes) =~= encode_utf8(whole.drop_first()));
        lemma_boundary_after(a.drop_first(), b);
        lemma_width_bounds(a[0]);
        lemma_encode_concat(a, b);
    }
}

/// Every byte position of a character is a character boundary.
pub proof fn lemma_byte_pos_boundary(text: Seq<char>, i: int)
    requires
        0 <= i <= text.len(),
    ensures
        is_char_boundary(encode_utf8(text), byte_pos(text, i) as int),
{
    assert(text =~= text.take(i) + text.skip(i));
    lemma_boundary_after(text.take(i), text.skip(i));
}

/// The bytes between two character positions decode to the characters between them.
pub proof fn lemma_bytes_between(text: Seq<char>, i: int, j: int)
    requires
        0 <= i <= j <= text.len(),
    ensures
        encode_utf8(text).subrange(byte_pos(text, i) as int, byte_pos(text, j) as int)
            == encode_utf8(text.subrange(i, j)),
        decode_utf8(
            encode_utf8(text).subrange(byte_pos(text, i) as int, byte_pos(text, j) as int),
        ) == text.subrange(i, j),
{
    broadcast use encode_utf8_decode_utf8;

    let a = text.take(i);
    let m = text.subrange(i, j);
    let z = text.skip(j);
    assert(text.take(j) =~= a + m);
    assert(text =~= (a + m) + z);
    lemma_encode_concat(a, m);
    lemma_encode_concat(a + m, z);
    assert(encode_utf8(text).subrange(byte_pos(text, i) as int, byte_pos(text, j) as int)
        =~= encode_utf8(m));
}

/// The number of bytes that `c` takes in UTF-8.
pub fn utf8_width(c: char) -> (r: usize)
    ensures
        r == width(c),
        1 <= r <= 4,
{
    let v: u32 = c as u32;
    proof {
        char_is_scalar(c);
    }
    if v <= 0x7F {
        1
    } else if v <= 0x7FF {
        2
    } else if v <= 0xFFFF {
        3
    } else {
        4
    }
}

} // verus!
