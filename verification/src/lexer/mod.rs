//! From text to tokens.

pub mod chars;
pub mod cursor;
pub mod encoding;
pub mod grammar;
pub mod span;
pub mod token;

use vstd::prelude::*;
use vstd::string::StringExecFns;
use crate::config::JsonConfig;
use crate::error::{Error, Failure};
use crate::lexer::chars::{alphanumeric, numeric};
use crate::lexer::cursor::Cursor;
use crate::lexer::encoding::lemma_encode_len;
use crate::lexer::grammar::{
    Class, Scan, comment_len, failure_at, lemma_run_ends, lemma_scan_taken, lemma_tokens_fit,
    number_len, run_len, scan, scan_word, string_len, tokens_from, tokens_of,
    unexpected_character, unknown_keyword,
};
use crate::lexer::span::{lemma_position_bounds, span_between};
use crate::lexer::token::{Token, TokenType};
use crate::text::{push_decimal, same_text};

verus! {

/// What a list of tokens or an error stands for in contracts.
pub open spec fn tokens_view(r: Result<Vec<Token>, Error>) -> Result<Seq<Token>, Failure> {
    match r {
        Ok(tokens) => Ok(tokens@),
        Err(e) => Err(e@),
    }
}

/// The tokens `done` followed by those of `rest`, or the failure of `rest`.
pub open spec fn followed_by(done: Seq<Token>, rest: Result<Seq<Token>, Failure>) -> Result<
    Seq<Token>,
    Failure,
> {
    match rest {
        Ok(more) => Ok(done + more),
        Err(failure) => Err(failure),
    }
}

/// A length counted from `k` characters further back.
pub open spec fn further(len: Option<nat>, k: int) -> Option<nat> {
    match len {
        Some(n) => Some((n + k) as nat),
        None => None,
    }
}

/// Whether `r`, with the lexeme of `text` read from `start` up to `end`, is
/// what the scan `expected` asks for.
pub open spec fn scanned(
    r: Result<Option<Token>, Error>,
    text: Seq<char>,
    start: int,
    end: int,
    expected: Scan,
) -> bool {
    match expected {
        Scan::Token(kind, n) => {
            &&& r matches Ok(Some(token))
            &&& token == (Token { token_type: kind, span: span_between(text, start, start + n) })
            &&& end == start + n
        },
        Scan::Skip(n) => r matches Ok(None) && end == start + n,
        Scan::Fail(failure) => r matches Err(e) && e@ == failure,
    }
}

struct Lexer<'a> {
    c: Cursor<'a>,
    conf: JsonConfig,
}

/// Cuts `text` into its tokens, or reports the first thing in it that is
/// none.
pub fn tokenize(text: &str, conf: JsonConfig) -> (r: Result<Vec<Token>, Error>)
    ensures
        tokens_view(r) == tokens_of(text@, conf),
        r matches Ok(tokens) ==> forall|i: int|
            0 <= i < tokens@.len() ==> (#[trigger] tokens@[i]).span.fits(text@),
{
    let mut lexer = Lexer { c: Cursor::new(text), conf };
    proof {
        lexer.c.lemma_bounds();
        lemma_tokens_fit(text@, 0, conf);
    }
    lexer.tokenize()
}

impl<'a> Lexer<'a> {
    /// The cursor is well formed and at the start of a lexeme.
    spec fn ready(&self) -> bool {
        self.c.wf() && self.c.start() == self.c.pos()
    }

    /// The same text, configuration and start of lexeme as `before`.
    spec fn follows(&self, before: &Self) -> bool {
        &&& self.c.wf()
        &&& self.c.text() == before.c.text()
        &&& self.c.start() == before.c.start()
        &&& self.conf == before.conf
    }

    #[verifier::loop_isolation(false)]
    fn tokenize(&mut self) -> (r: Result<Vec<Token>, Error>)
        requires
            old(self).c.wf(),
        ensures
            tokens_view(r) == tokens_from(old(self).c.text(), old(self).c.pos(), old(self).conf),
    {
        let mut tokens: Vec<Token> = Vec::new();
        let ghost text = self.c.text();
        let ghost conf = self.conf;
        let ghost whole = tokens_from(text, self.c.pos(), conf);
        proof {
            self.c.lemma_bounds();
            match whole {
                Ok(more) => assert(tokens@ + more =~= more),
                Err(_) => {},
            }
        }
        while !self.c.is_finished()
            invariant
                self.c.wf(),
                self.c.text() == text,
                self.conf == conf,
                0 <= self.c.pos() <= text.len(),
                whole == followed_by(tokens@, tokens_from(text, self.c.pos(), conf)),
            decreases text.len() - self.c.pos(),
        {
            let ghost start = self.c.pos();
            let ghost done = tokens@;
            self.c.step();
            proof {
                lemma_scan_taken(text, start, conf);
            }
            match self.scan_token() {
                Ok(Some(t)) => {
                    tokens.push(t);
                    proof {
                        match tokens_from(text, self.c.pos(), conf) {
                            Ok(more) => assert(done + (seq![t] + more) =~= tokens@ + more),
                            Err(_) => {},
                        }
                    }
                },
                Ok(None) => {},
                Err(e) => {
                    return Err(e);
                },
            }
        }
        proof {
            assert(tokens@ + Seq::<Token>::empty() =~= tokens@);
        }
        Ok(tokens)
    }

    fn add_token(&self, token_type: TokenType) -> (r: Result<Option<Token>, Error>)
        requires
            self.c.wf(),
        ensures
            r == Ok::<Option<Token>, Error>(
                Some(
                    Token {
                        token_type,
                        span: span_between(self.c.text(), self.c.start(), self.c.pos()),
                    },
                ),
            ),
    {
        Ok(Some(Token::new(token_type, self.c.get_span())))
    }

    fn scan_token(&mut self) -> (r: Result<Option<Token>, Error>)
        requires
            old(self).ready(),
            old(self).c.pos() < old(self).c.text().len(),
        ensures
            final(self).follows(old(self)),
            scanned(
                r,
                old(self).c.text(),
                old(self).c.pos(),
                final(self).c.pos(),
                scan(old(self).c.text(), old(self).c.pos(), old(self).conf),
            ),
    {
        proof {
            self.c.lemma_bounds();
        }
        let c = self.c.advance();
        if c == '{' {
            self.add_token(TokenType::LeftBrace)
        } else if c == '}' {
            self.add_token(TokenType::RightBrace)
        } else if c == '[' {
            self.add_token(TokenType::LSquareBracket)
        } else if c == ']' {
            self.add_token(TokenType::RSquareBracket)
        } else if c == ',' {
            self.add_token(TokenType::Comma)
        } else if c == '.' {
            self.add_token(TokenType::Dot)
        } else if c == '-' {
            self.add_token(TokenType::Minus)
        } else if c == '+' {
            self.add_token(TokenType::Plus)
        } else if c == ':' {
            self.add_token(TokenType::Colon)
        } else if c == '/' {
            if self.conf.allow_comments {
                if self.c.match_next('/') {
                    self.comment()
                } else if self.c.match_next('*') {
                    self.ml_comment()
                } else {
                    self.unexpected(c)
                }
            } else {
                self.error("Comments are not supported")
            }
        } else if c == '"' {
            self.string()
        } else if c == ' ' || c == '\n' || c == '\r' || c == '\t' {
            Ok(None)
        } else if c.is_numeric() {
            self.number()
        } else if c.is_alphabetic() {
            self.keyword()
        } else {
            self.unexpected(c)
        }
    }

    fn comment(&mut self) -> (r: Result<Option<Token>, Error>)
        requires
            old(self).c.wf(),
        ensures
            final(self).follows(old(self)),
            r == Ok::<Option<Token>, Error>(None),
            final(self).c.pos() == old(self).c.pos() + run_len(
                old(self).c.text(),
                old(self).c.pos(),
                Class::SameLine,
            ),
    {
        proof {
            self.c.lemma_bounds();
        }
        let ghost from = self.c.pos();
        let same_line = |c: &char| -> (b: bool)
            ensures
                b == (*c != '\n'),
            {
                let b = *c != '\n';
                b
            };
        self.c.advance_while(same_line);
        proof {
            lemma_run_ends(self.c.text(), from, self.c.pos(), Class::SameLine);
        }
        Ok(None)
    }

    #[verifier::loop_isolation(false)]
    fn ml_comment(&mut self) -> (r: Result<Option<Token>, Error>)
        requires
            old(self).c.wf(),
        ensures
            final(self).follows(old(self)),
            match comment_len(old(self).c.text(), old(self).c.pos()) {
                Some(n) => r == Ok::<Option<Token>, Error>(None) && final(self).c.pos() == old(
                    self,
                ).c.pos() + n,
                None => r matches Err(e) && e@ == failure_at(
                    old(self).c.text(),
                    old(self).c.start(),
                    "Non terminated comment block."@,
                ),
            },
    {
        let ghost text = self.c.text();
        let ghost from = self.c.pos();
        proof {
            self.c.lemma_bounds();
        }
        loop
            invariant
                self.follows(old(self)),
                self.c.text() == text,
                0 <= from <= self.c.pos() <= text.len(),
                comment_len(text, from) == further(
                    comment_len(text, self.c.pos()),
                    self.c.pos() - from,
                ),
            decreases text.len() - self.c.pos(),
        {
            let ghost at = self.c.pos();
            let c = self.c.advance();
            if c == '*' && self.c.peek() == '/' {
                self.c.advance();
                return Ok(None);
            }
            proof {
                assert(comment_len(text, at) == further(comment_len(text, at + 1), 1));
                assert(comment_len(text, text.len() as int) is None);
            }
            if self.c.is_finished() {
                return self.error("Non terminated comment block.");
            }
        }
    }

    #[verifier::loop_isolation(false)]
    fn string(&mut self) -> (r: Result<Option<Token>, Error>)
        requires
            old(self).c.wf(),
        ensures
            final(self).follows(old(self)),
            match string_len(old(self).c.text(), old(self).c.pos(), false) {
                Some(n) => {
                    &&& final(self).c.pos() == old(self).c.pos() + n
                    &&& r == Ok::<Option<Token>, Error>(
                        Some(
                            Token {
                                token_type: TokenType::String,
                                span: span_between(
                                    old(self).c.text(),
                                    old(self).c.start(),
                                    final(self).c.pos(),
                                ),
                            },
                        ),
                    )
                },
                None => r matches Err(e) && e@ == failure_at(
                    old(self).c.text(),
                    old(self).c.start(),
                    "Unterminated string"@,
                ),
            },
    {
        let ghost text = self.c.text();
        let ghost from = self.c.pos();
        proof {
            self.c.lemma_bounds();
        }
        let mut escaped = false;
        loop
            invariant
                self.follows(old(self)),
                self.c.text() == text,
                0 <= from <= self.c.pos() <= text.len(),
                string_len(text, from, false) == further(
                    string_len(text, self.c.pos(), escaped),
                    self.c.pos() - from,
                ),
            decreases text.len() - self.c.pos(),
        {
            let ghost at = self.c.pos();
            let ghost was = escaped;
            let c = self.c.peek();
            if c == '"' && !escaped {
                self.c.advance();
                return self.add_token(TokenType::String);
            }
            escaped = c == '\\' && !escaped;
            self.c.advance();
            proof {
                assert(string_len(text, at, was) == further(string_len(text, at + 1, escaped), 1));
                assert(string_len(text, text.len() as int, escaped) is None);
            }
            if self.c.is_finished() {
                return self.error("Unterminated string");
            }
        }
    }

    fn number(&mut self) -> (r: Result<Option<Token>, Error>)
        requires
            old(self).c.wf(),
        ensures
            final(self).follows(old(self)),
            final(self).c.pos() == old(self).c.pos() + number_len(
                old(self).c.text(),
                old(self).c.pos(),
            ),
            r == Ok::<Option<Token>, Error>(
                Some(
                    Token {
                        token_type: TokenType::Number,
                        span: span_between(
                            old(self).c.text(),
                            old(self).c.start(),
                            final(self).c.pos(),
                        ),
                    },
                ),
            ),
    {
        let ghost text = self.c.text();
        let ghost from = self.c.pos();
        proof {
            self.c.lemma_bounds();
        }
        let in_run = |c: &char| -> (b: bool)
            ensures
                b == numeric(*c),
            {
                let b = c.is_numeric();
                b
            };
        self.c.advance_while(in_run);
        proof {
            lemma_run_ends(text, from, self.c.pos(), Class::Numeric);
        }
        let ghost dot = self.c.pos();
        if self.c.peek() == '.' && self.c.peek_next().is_numeric() {
            self.c.advance();
            let in_run = |c: &char| -> (b: bool)
                ensures
                    b == numeric(*c),
                {
                    let b = c.is_numeric();
                    b
                };
            self.c.advance_while(in_run);
            proof {
                lemma_run_ends(text, dot + 1, self.c.pos(), Class::Numeric);
            }
        }
        self.add_token(TokenType::Number)
    }

    fn keyword(&mut self) -> (r: Result<Option<Token>, Error>)
        requires
            old(self).c.wf(),
            old(self).c.pos() == old(self).c.start() + 1,
        ensures
            final(self).follows(old(self)),
            scanned(
                r,
                old(self).c.text(),
                old(self).c.start(),
                final(self).c.pos(),
                scan_word(old(self).c.text(), old(self).c.start()),
            ),
    {
        let ghost text = self.c.text();
        let ghost from = self.c.pos();
        proof {
            self.c.lemma_bounds();
        }
        let in_run = |c: &char| -> (b: bool)
            ensures
                b == alphanumeric(*c),
            {
                let b = c.is_alphanumeric();
                b
            };
        self.c.advance_while(in_run);
        proof {
            lemma_run_ends(text, from, self.c.pos(), Class::Alphanumeric);
        }
        let lexem = self.c.current_lexem();
        if same_text(lexem, "true") {
            self.add_token(TokenType::True)
        } else if same_text(lexem, "false") {
            self.add_token(TokenType::False)
        } else if same_text(lexem, "null") {
            self.add_token(TokenType::Null)
        } else {
            let mut msg = "Unknown keyword '".to_owned();
            msg.append(lexem);
            msg.push('\'');
            proof {
                assert(msg@ =~= unknown_keyword(lexem@));
            }
            Err(Error::new(msg))
        }
    }

    /// Refuses the character `c`, which starts no token.
    fn unexpected(&self, c: char) -> (r: Result<Option<Token>, Error>)
        requires
            self.c.wf(),
        ensures
            r matches Err(e) && e@ == failure_at(
                self.c.text(),
                self.c.start(),
                unexpected_character(c),
            ),
    {
        let mut msg = "Unexpected character '".to_owned();
        msg.push(c);
        msg.push('\'');
        proof {
            assert(msg@ =~= unexpected_character(c));
        }
        self.error(msg.as_str())
    }

    /// An error whose message is `msg` behind the line and column at which
    /// the current lexeme starts.
    fn error(&self, msg: &str) -> (r: Result<Option<Token>, Error>)
        requires
            self.c.wf(),
        ensures
            r matches Err(e) && e@ == failure_at(self.c.text(), self.c.start(), msg@),
    {
        let pos = self.c.file_pos();
        proof {
            self.c.lemma_bounds();
            let before = self.c.text().take(self.c.start());
            lemma_position_bounds(before);
            lemma_encode_len(self.c.text());
        }
        let mut out = String::new();
        out.push('[');
        push_decimal(&mut out, pos.start_line as u64);
        out.push(':');
        push_decimal(&mut out, pos.start_col as u64);
        out.push(']');
        out.push(' ');
        out.append(msg);
        proof {
            assert(out@ =~= failure_at(self.c.text(), self.c.start(), msg@).msg);
        }
        Err(Error::new(out))
    }
}

} // verus!
