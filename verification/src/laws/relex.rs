//! The lexer finds again the lexemes that a text is made of.

use vstd::prelude::*;
use crate::config::JsonConfig;
use crate::laws::lexemes::{
    Lexeme, concat, ends_open, lemma_concat_add, lexable, set_apart, well_formed,
};
use crate::lexer::chars::{alphabetic, ascii_digit, numeric};
use crate::lexer::grammar::{
    Class, Scan, lemma_run_ends, number_len, punctuation, run_len, scan, scan_taken, string_len,
    tokens_from, whitespace,
};
use crate::lexer::followed_by;
use crate::lexer::span::span_between;
use crate::lexer::token::{Token, TokenType};
use crate::syntax::{decimal_literal, digits_from};
use crate::value::quotable_from;

verus! {

/// The number of characters before the lexeme at position `i`.
pub open spec fn offset(lexemes: Seq<Lexeme>, i: int) -> int {
    concat(lexemes.take(i)).len() as int
}

/// The tokens that stand for `lexemes` in the text that they make up
/// together with `rest` behind them.
pub open spec fn tokens_for(lexemes: Seq<Lexeme>, rest: Seq<char>) -> Seq<Token> {
    Seq::new(
        lexemes.len(),
        |i: int|
            Token {
                token_type: lexemes[i].kind,
                span: span_between(
                    concat(lexemes) + rest,
                    offset(lexemes, i),
                    offset(lexemes, i + 1),
                ),
            },
    )
}

/// A character behind which a number or a keyword has ended: a comma, a
/// closing bracket, a closing brace, or white space.
pub open spec fn breaks(c: char) -> bool {
    c == ',' || c == ']' || c == '}' || whitespace(c)
}

/// Nothing stands behind `lexemes` that could belong to the last of them:
/// where that is a number or a keyword, `rest` is empty or starts with a
/// character that ends it.
pub open spec fn ended(lexemes: Seq<Lexeme>, rest: Seq<char>) -> bool {
    lexemes.len() > 0 && ends_open(lexemes.last().kind) && rest.len() > 0 ==> breaks(rest[0])
}

/// Where a lexeme stands in the text that `lexemes` make up.
pub proof fn lemma_offset(lexemes: Seq<Lexeme>, i: int)
    requires
        0 <= i < lexemes.len(),
    ensures
        0 <= offset(lexemes, i),
        offset(lexemes, i + 1) == offset(lexemes, i) + lexemes[i].text.len(),
        offset(lexemes, i + 1) <= concat(lexemes).len(),
        concat(lexemes).subrange(offset(lexemes, i), offset(lexemes, i + 1)) == lexemes[i].text,
{
    let upto = lexemes.take(i + 1);
    assert(upto.drop_last() =~= lexemes.take(i));
    assert(upto.last() == lexemes[i]);
    assert(lexemes =~= upto + lexemes.skip(i + 1));
    lemma_concat_add(upto, lexemes.skip(i + 1));
    assert(concat(lexemes).subrange(offset(lexemes, i), offset(lexemes, i + 1))
        =~= lexemes[i].text);
}

/// The text that `lexemes` make up starts and ends where they do.
pub proof fn lemma_offset_ends(lexemes: Seq<Lexeme>)
    ensures
        offset(lexemes, 0) == 0,
        offset(lexemes, lexemes.len() as int) == concat(lexemes).len(),
{
    assert(lexemes.take(0) =~= Seq::<Lexeme>::empty());
    assert(lexemes.take(lexemes.len() as int) =~= lexemes);
}

/// Quotable text in a text, with a quote behind it, is scanned up to that
/// quote: from its character at position `k` on, where `escaped` tells how
/// the one before ended.
pub proof fn lemma_string_scan(text: Seq<char>, start: int, s: Seq<char>, k: int, escaped: bool)
    requires
        0 <= start,
        0 <= k <= s.len(),
        start + s.len() < text.len(),
        text.subrange(start, start + s.len()) == s,
        text[start + s.len()] == '"',
        quotable_from(s, k, escaped),
    ensures
        string_len(text, start + k, escaped) == Some((s.len() - k + 1) as nat),
    decreases s.len() - k,
{
    if k < s.len() {
        assert(s[k] == text.subrange(start, start + s.len())[k]);
        lemma_string_scan(text, start, s, k + 1, s[k] == '\\' && !escaped);
    }
}

/// A run of digits ends within the lexeme, holds digits alone, and ends
/// before a character that is no digit.
pub proof fn lemma_digits(s: Seq<char>, from: int)
    requires
        0 <= from <= s.len(),
    ensures
        from + digits_from(s, from) <= s.len(),
        forall|i: int| from <= i < from + digits_from(s, from) ==> ascii_digit(s[i]),
        from + digits_from(s, from) < s.len() ==> !ascii_digit(s[from + digits_from(s, from)]),
    decreases s.len() - from,
{
    if from < s.len() && ascii_digit(s[from]) {
        lemma_digits(s, from + 1);
    }
}

/// A decimal literal in a text, with nothing or a character that ends it
/// behind it, is scanned as one number.
pub proof fn lemma_number_scan(text: Seq<char>, start: int, literal: Seq<char>)
    requires
        0 <= start,
        start + literal.len() <= text.len(),
        text.subrange(start, start + literal.len()) == literal,
        decimal_literal(literal),
        start + literal.len() == text.len() || breaks(text[start + literal.len()]),
    ensures
        numeric(text[start]),
        1 + number_len(text, start + 1) == literal.len(),
{
    let whole = digits_from(literal, 0) as int;
    let end = start + literal.len();
    lemma_digits(literal, 0);
    assert forall|i: int| start <= i < end implies text[i] == literal[i - start] by {
        assert(literal[i - start] == text.subrange(start, end)[i - start]);
    }
    assert(text[start] == literal[0]);
    assert forall|i: int| start + 1 <= i < start + whole implies Class::Numeric.holds(
        #[trigger] text[i],
    ) by {
        assert(ascii_digit(literal[i - start]));
    }
    if whole == literal.len() {
        lemma_run_ends(text, start + 1, end, Class::Numeric);
    } else {
        let fraction = digits_from(literal, whole + 1) as int;
        lemma_digits(literal, whole + 1);
        assert(text[start + whole] == literal[whole]);
        lemma_run_ends(text, start + 1, start + whole, Class::Numeric);
        assert forall|i: int| start + whole + 1 <= i < end implies Class::Numeric.holds(
            #[trigger] text[i],
        ) by {
            assert(ascii_digit(literal[i - start]));
        }
        assert(text[start + whole + 1] == literal[whole + 1]);
        assert(ascii_digit(literal[whole + 1]));
        lemma_run_ends(text, start + whole + 1, end, Class::Numeric);
    }
}

/// A keyword in a text, with nothing or a character that ends it behind
/// it, is scanned as that keyword.
pub proof fn lemma_word_scan(text: Seq<char>, start: int, word: Seq<char>)
    requires
        0 <= start,
        start + word.len() <= text.len(),
        text.subrange(start, start + word.len()) == word,
        word == "true"@ || word == "false"@ || word == "null"@,
        start + word.len() == text.len() || breaks(text[start + word.len()]),
    ensures
        alphabetic(text[start]),
        !numeric(text[start]),
        !whitespace(text[start]),
        punctuation(text[start]) is None,
        text[start] != '/' && text[start] != '"',
        1 + run_len(text, start + 1, Class::Alphanumeric) == word.len(),
{
    reveal_strlit("true");
    reveal_strlit("false");
    reveal_strlit("null");
    let end = start + word.len();
    assert forall|i: int| start <= i < end implies text[i] == word[i - start] by {
        assert(word[i - start] == text.subrange(start, end)[i - start]);
    }
    assert(text[start] == word[0]);
    assert forall|i: int| start + 1 <= i < end implies Class::Alphanumeric.holds(
        #[trigger] text[i],
    ) by {
        assert(text[i] == word[i - start]);
    }
    lemma_run_ends(text, start + 1, end, Class::Alphanumeric);
}

/// A well-formed lexeme in a text is scanned as a token of its kind and
/// length, where nothing or a character that ends it stands behind a number
/// or a keyword.
pub proof fn lemma_scan_lexeme(text: Seq<char>, start: int, lexeme: Lexeme, conf: JsonConfig)
    requires
        0 <= start,
        start + lexeme.text.len() <= text.len(),
        text.subrange(start, start + lexeme.text.len()) == lexeme.text,
        well_formed(lexeme),
        ends_open(lexeme.kind) ==> start + lexeme.text.len() == text.len() || breaks(
            text[start + lexeme.text.len()],
        ),
    ensures
        lexeme.text.len() > 0,
        scan(text, start, conf) == Scan::Token(lexeme.kind, lexeme.text.len()),
{
    reveal_strlit("true");
    reveal_strlit("false");
    reveal_strlit("null");
    let word = lexeme.text;
    let end = start + word.len();
    assert forall|i: int| start <= i < end implies text[i] == word[i - start] by {
        assert(word[i - start] == text.subrange(start, end)[i - start]);
    }
    match lexeme.kind {
        TokenType::String => {
            assert(text[start] == word[0]);
            assert(text[end - 1] == word[word.len() - 1]);
            let inner = word.subrange(1, word.len() - 1);
            assert(text.subrange(start + 1, start + 1 + inner.len()) =~= inner);
            lemma_string_scan(text, start + 1, inner, 0, false);
        },
        TokenType::Number => {
            lemma_number_scan(text, start, word);
            lemma_digits(word, 0);
            assert(text[start] == word[0]);
        },
        TokenType::True => {
            lemma_word_scan(text, start, word);
        },
        TokenType::False => {
            lemma_word_scan(text, start, word);
        },
        TokenType::Null => {
            lemma_word_scan(text, start, word);
        },
        _ => {
            assert(text[start] == word[0]);
        },
    }
}

/// The lexer finds in the text that lexable `lexemes` and `rest` make up,
/// from the lexeme at position `i` on, the tokens that stand for the
/// lexemes, and then what it finds in `rest`.
pub proof fn lemma_relex(lexemes: Seq<Lexeme>, rest: Seq<char>, i: int, conf: JsonConfig)
    requires
        lexable(lexemes),
        ended(lexemes, rest),
        0 <= i <= lexemes.len(),
    ensures
        tokens_from(concat(lexemes) + rest, offset(lexemes, i), conf) == followed_by(
            tokens_for(lexemes, rest).skip(i),
            tokens_from(concat(lexemes) + rest, concat(lexemes).len() as int, conf),
        ),
    decreases lexemes.len() - i,
{
    let text = concat(lexemes) + rest;
    let tokens = tokens_for(lexemes, rest);
    lemma_offset_ends(lexemes);
    if i == lexemes.len() {
        assert(tokens.skip(i) =~= Seq::<Token>::empty());
        match tokens_from(text, concat(lexemes).len() as int, conf) {
            Ok(more) => assert(Seq::<Token>::empty() + more =~= more),
            Err(_) => {},
        }
    } else {
        lemma_offset(lexemes, i);
        let start = offset(lexemes, i);
        let next = offset(lexemes, i + 1);
        assert(text.subrange(start, next) =~= concat(lexemes).subrange(start, next));
        if ends_open(lexemes[i].kind) {
            if i + 1 < lexemes.len() {
                lemma_offset(lexemes, i + 1);
                assert(set_apart(lexemes, i));
                let after = lexemes[i + 1];
                assert(well_formed(after));
                let then = offset(lexemes, i + 2);
                assert(text[next] == concat(lexemes).subrange(next, then)[0]);
            } else if rest.len() > 0 {
                assert(text[next] == rest[0]);
            }
        }
        lemma_scan_lexeme(text, start, lexemes[i], conf);
        lemma_relex(lexemes, rest, i + 1, conf);
        assert(scan_taken(text, start, conf) == lexemes[i].text.len());
        assert(tokens.skip(i) =~= seq![tokens[i]] + tokens.skip(i + 1));
        match tokens_from(text, concat(lexemes).len() as int, conf) {
            Ok(more) => assert(seq![tokens[i]] + (tokens.skip(i + 1) + more) =~= tokens.skip(i)
                + more),
            Err(_) => {},
        }
    }
}

} // verus!
