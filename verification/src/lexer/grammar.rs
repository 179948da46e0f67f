//! What the lexer makes of a text, stated over its characters.

use vstd::prelude::*;
use vstd::utf8::encode_utf8;
use crate::config::JsonConfig;
use crate::error::Failure;
use crate::lexer::chars::{alphabetic, alphanumeric, numeric};
use crate::lexer::cursor::char_at;
use crate::lexer::span::{column_after, lemma_span_between, line_after, span_between};
use crate::lexer::token::{Token, TokenType};
use crate::text::decimal;

verus! {

/// The classes of character of which the lexer reads a whole run.
pub enum Class {
    /// Numeric characters.
    Numeric,
    /// Alphabetic and numeric characters.
    Alphanumeric,
    /// Everything but a line feed.
    SameLine,
}

impl Class {
    /// Whether `c` belongs to the class.
    pub open spec fn holds(self, c: char) -> bool {
        match self {
            Class::Numeric => numeric(c),
            Class::Alphanumeric => alphanumeric(c),
            Class::SameLine => c != '\n',
        }
    }
}

/// The number of characters of `text` from position `from` on that belong to
/// `class`, up to the first that does not.
pub open spec fn run_len(text: Seq<char>, from: int, class: Class) -> nat
    decreases text.len() - from,
{
    if 0 <= from < text.len() && class.holds(text[from]) {
        1 + run_len(text, from + 1, class)
    } else {
        0
    }
}

/// The number of characters from position `from` up to and including the
/// quote that closes a string, or `None` where the text ends before one.
/// `escaped` tells whether the character before `from` was a backslash that
/// was not itself escaped: a quote behind such a backslash does not close
/// the string, and a backslash behind one escapes nothing.
pub open spec fn string_len(text: Seq<char>, from: int, escaped: bool) -> Option<nat>
    decreases text.len() - from,
{
    if !(0 <= from < text.len()) {
        None
    } else if text[from] == '"' && !escaped {
        Some(1)
    } else {
        match string_len(text, from + 1, text[from] == '\\' && !escaped) {
            Some(n) => Some(n + 1),
            None => None,
        }
    }
}

/// The number of characters from position `from` up to and including the
/// first `*/`, or `None` where the text holds none.
pub open spec fn comment_len(text: Seq<char>, from: int) -> Option<nat>
    decreases text.len() - from,
{
    if !(0 <= from < text.len()) {
        None
    } else if text[from] == '*' && char_at(text, from + 1) == '/' {
        Some(2)
    } else {
        match comment_len(text, from + 1) {
            Some(n) => Some(n + 1),
            None => None,
        }
    }
}

/// The number of characters of a number from position `from` on: a run of
/// numeric characters and, where a dot and a numeric character follow it, the
/// dot and the run behind it.
pub open spec fn number_len(text: Seq<char>, from: int) -> nat {
    let whole = run_len(text, from, Class::Numeric);
    let dot = from + whole;
    if char_at(text, dot) == '.' && numeric(char_at(text, dot + 1)) {
        whole + 1 + run_len(text, dot + 1, Class::Numeric)
    } else {
        whole
    }
}

/// The message for a character that starts no token.
pub open spec fn unexpected_character(c: char) -> Seq<char> {
    "Unexpected character '"@ + seq![c, '\'']
}

/// The message for a word that is none of `true`, `false` and `null`.
pub open spec fn unknown_keyword(word: Seq<char>) -> Seq<char> {
    "Unknown keyword '"@ + word + seq!['\'']
}

/// A failure whose message starts with the line and column reached after the
/// first `start` characters of `text`.
pub open spec fn failure_at(text: Seq<char>, start: int, msg: Seq<char>) -> Failure {
    Failure::plain(
        seq!['['] + decimal(line_after(text.take(start))) + seq![':'] + decimal(
            column_after(text.take(start)),
        ) + seq![']', ' '] + msg,
    )
}

/// What the lexer finds at one place of the text.
pub enum Scan {
    /// A token of the given kind, so many characters long.
    Token(TokenType, nat),
    /// So many characters of white space or comment, and no token.
    Skip(nat),
    /// Nothing that it accepts.
    Fail(Failure),
}

/// The token that a single character is, if it is one.
pub open spec fn punctuation(c: char) -> Option<TokenType> {
    if c == '{' {
        Some(TokenType::LeftBrace)
    } else if c == '}' {
        Some(TokenType::RightBrace)
    } else if c == '[' {
        Some(TokenType::LSquareBracket)
    } else if c == ']' {
        Some(TokenType::RSquareBracket)
    } else if c == ',' {
        Some(TokenType::Comma)
    } else if c == '.' {
        Some(TokenType::Dot)
    } else if c == '-' {
        Some(TokenType::Minus)
    } else if c == '+' {
        Some(TokenType::Plus)
    } else if c == ':' {
        Some(TokenType::Colon)
    } else {
        None
    }
}

/// Space, line feed, carriage return and tab.
pub open spec fn whitespace(c: char) -> bool {
    c == ' ' || c == '\n' || c == '\r' || c == '\t'
}

/// What starts at a slash at position `start`: a comment, where the
/// configuration allows comments and the text holds one.
pub open spec fn scan_slash(text: Seq<char>, start: int, conf: JsonConfig) -> Scan {
    if !conf.allow_comments {
        Scan::Fail(failure_at(text, start, "Comments are not supported"@))
    } else if char_at(text, start + 1) == '/' {
        Scan::Skip(2 + run_len(text, start + 2, Class::SameLine))
    } else if char_at(text, start + 1) == '*' {
        match comment_len(text, start + 2) {
            Some(n) => Scan::Skip(2 + n),
            None => Scan::Fail(failure_at(text, start, "Non terminated comment block."@)),
        }
    } else {
        Scan::Fail(failure_at(text, start, unexpected_character('/')))
    }
}

/// What a word that starts at position `start` is: one of the three
/// keywords, or a failure that names the word.
pub open spec fn scan_word(text: Seq<char>, start: int) -> Scan {
    let n = 1 + run_len(text, start + 1, Class::Alphanumeric);
    let word = text.subrange(start, start + n);
    if word == "true"@ {
        Scan::Token(TokenType::True, n)
    } else if word == "false"@ {
        Scan::Token(TokenType::False, n)
    } else if word == "null"@ {
        Scan::Token(TokenType::Null, n)
    } else {
        Scan::Fail(Failure::plain(unknown_keyword(word)))
    }
}

/// What the lexer finds at position `start` of `text`.
pub open spec fn scan(text: Seq<char>, start: int, conf: JsonConfig) -> Scan
    recommends
        0 <= start < text.len(),
{
    let c = text[start];
    if punctuation(c) is Some {
        Scan::Token(punctuation(c)->0, 1)
    } else if c == '/' {
        scan_slash(text, start, conf)
    } else if c == '"' {
        match string_len(text, start + 1, false) {
            Some(n) => Scan::Token(TokenType::String, 1 + n),
            None => Scan::Fail(failure_at(text, start, "Unterminated string"@)),
        }
    } else if whitespace(c) {
        Scan::Skip(1)
    } else if numeric(c) {
        Scan::Token(TokenType::Number, 1 + number_len(text, start + 1))
    } else if alphabetic(c) {
        scan_word(text, start)
    } else {
        Scan::Fail(failure_at(text, start, unexpected_character(c)))
    }
}

/// The number of characters that a scan takes; a failure counts as one.
pub open spec fn scan_taken(text: Seq<char>, start: int, conf: JsonConfig) -> nat {
    match scan(text, start, conf) {
        Scan::Token(_, n) => n,
        Scan::Skip(n) => n,
        Scan::Fail(_) => 1,
    }
}

/// A run ends within the text.
pub proof fn lemma_run_len(text: Seq<char>, from: int, class: Class)
    requires
        0 <= from <= text.len(),
    ensures
        from + run_len(text, from, class) <= text.len(),
        forall|i: int| from <= i < from + run_len(text, from, class) ==> class.holds(text[i]),
        from + run_len(text, from, class) < text.len() ==> !class.holds(
            text[from + run_len(text, from, class)],
        ),
    decreases text.len() - from,
{
    if from < text.len() && class.holds(text[from]) {
        lemma_run_len(text, from + 1, class);
    }
}

/// A run is known by where it ends: every character up to `to` belongs to
/// the class, and the character at `to` does not, or the text ends there.
pub proof fn lemma_run_ends(text: Seq<char>, from: int, to: int, class: Class)
    requires
        0 <= from <= to <= text.len(),
        forall|i: int| from <= i < to ==> class.holds(#[trigger] text[i]),
        to < text.len() ==> !class.holds(text[to]),
    ensures
        run_len(text, from, class) == to - from,
    decreases to - from,
{
    if from < to {
        lemma_run_ends(text, from + 1, to, class);
    }
}

/// A closed string ends within the text.
pub proof fn lemma_string_len(text: Seq<char>, from: int, escaped: bool)
    requires
        0 <= from,
    ensures
        string_len(text, from, escaped) matches Some(n) ==> 1 <= n && from + n <= text.len(),
    decreases text.len() - from,
{
    if from < text.len() && !(text[from] == '"' && !escaped) {
        lemma_string_len(text, from + 1, text[from] == '\\' && !escaped);
    }
}

/// A closed comment ends within the text.
pub proof fn lemma_comment_len(text: Seq<char>, from: int)
    requires
        0 <= from,
    ensures
        comment_len(text, from) matches Some(n) ==> 2 <= n && from + n <= text.len(),
    decreases text.len() - from,
{
    if from < text.len() && !(text[from] == '*' && char_at(text, from + 1) == '/') {
        lemma_comment_len(text, from + 1);
    }
}

/// A number ends within the text.
pub proof fn lemma_number_len(text: Seq<char>, from: int)
    requires
        0 <= from <= text.len(),
    ensures
        from + number_len(text, from) <= text.len(),
{
    lemma_run_len(text, from, Class::Numeric);
    let dot = from + run_len(text, from, Class::Numeric);
    if dot + 1 <= text.len() {
        lemma_run_len(text, dot + 1, Class::Numeric);
    }
}

/// Every scan takes at least one character and ends within the text.
pub proof fn lemma_scan_taken(text: Seq<char>, start: int, conf: JsonConfig)
    requires
        0 <= start < text.len(),
    ensures
        1 <= scan_taken(text, start, conf),
        start + scan_taken(text, start, conf) <= text.len(),
{
    lemma_run_len(text, start + 1, Class::Alphanumeric);
    lemma_number_len(text, start + 1);
    lemma_string_len(text, start + 1, false);
    if start + 2 <= text.len() {
        lemma_run_len(text, start + 2, Class::SameLine);
    }
    lemma_comment_len(text, start + 2);
}

/// The tokens of `text` from position `start` on, or the first failure.
pub open spec fn tokens_from(text: Seq<char>, start: int, conf: JsonConfig) -> Result<
    Seq<Token>,
    Failure,
>
    decreases text.len() - start,
{
    if !(0 <= start < text.len()) {
        Ok(Seq::empty())
    } else {
        let next = start + scan_taken(text, start, conf);
        proof {
            lemma_scan_taken(text, start, conf);
        }
        match scan(text, start, conf) {
            Scan::Token(kind, _) => match tokens_from(text, next, conf) {
                Ok(rest) => Ok(
                    seq![Token { token_type: kind, span: span_between(text, start, next) }] + rest,
                ),
                Err(failure) => Err(failure),
            },
            Scan::Skip(_) => tokens_from(text, next, conf),
            Scan::Fail(failure) => Err(failure),
        }
    }
}

/// The tokens of `text`, or the first failure of the lexer.
pub open spec fn tokens_of(text: Seq<char>, conf: JsonConfig) -> Result<Seq<Token>, Failure> {
    tokens_from(text, 0, conf)
}

/// The spans of the tokens of a text lie within the text, where the text
/// fits a string of this machine.
pub proof fn lemma_tokens_fit(text: Seq<char>, start: int, conf: JsonConfig)
    requires
        0 <= start,
        encode_utf8(text).len() <= usize::MAX,
    ensures
        tokens_from(text, start, conf) matches Ok(tokens) ==> forall|i: int|
            0 <= i < tokens.len() ==> (#[trigger] tokens[i]).span.fits(text),
    decreases text.len() - start,
{
    if start < text.len() {
        lemma_scan_taken(text, start, conf);
        let next = start + scan_taken(text, start, conf);
        lemma_tokens_fit(text, next, conf);
        lemma_span_between(text, start, next);
    }
}

} // verus!
