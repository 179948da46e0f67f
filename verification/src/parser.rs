//! From tokens to a value tree.

use vstd::prelude::*;
use vstd::string::StringExecFns;
use crate::config::JsonConfig;
use crate::error::{Error, Failure};
use crate::lexer::span::{Span, chars_of};
use crate::lexer::token::{Token, TokenType};
use crate::syntax::{
    Input, Parsed, digits_from, exponent_from, float_literal, spells, unquoted,
};
use crate::value::{
    Json, JsonValue, Object, item_views, lemma_array_view,
    lemma_position_of_key,
};

verus! {

/// What a value or an error stands for in contracts.
pub open spec fn json_view(r: Result<Json, Error>) -> Result<JsonValue, Failure> {
    match r {
        Ok(json) => Ok(json@),
        Err(e) => Err(e@),
    }
}

/// Whether `r`, with the parser left at position `curr`, is what `expected`
/// asks for.
pub open spec fn produced(r: Result<Json, Error>, curr: int, expected: Parsed) -> bool {
    match expected {
        Parsed::Done(value, next) => r matches Ok(json) && json@ == value && curr == next,
        Parsed::Failed(failure) => r matches Err(e) && e@ == failure,
    }
}

/// The message of the error that arises where a token is asked for and none
/// is there.
pub open spec fn out_of_range() -> Seq<char> {
    "Index should be valid when calling peek"@
}

struct Parser<'a> {
    tokens: &'a [Token],
    src: &'a str,
    curr: usize,
    conf: JsonConfig,
    depth: u64,
}

/// Reads the value that `tokens` start with.  The spans of the tokens refer
/// to `src`.
pub fn parse(src: &str, tokens: &[Token], conf: JsonConfig) -> (r: Result<Json, Error>)
    requires
        (Input { src: src@, tokens: tokens@, conf }).fits(),
    ensures
        json_view(r) == (Input { src: src@, tokens: tokens@, conf }).parsed(),
{
    let mut parser = Parser { tokens, src, curr: 0, depth: 0, conf };
    parser.parse()
}

/// Whether `chars` are a float literal.
pub fn is_float_literal(chars: &Vec<char>) -> (r: bool)
    ensures
        r == float_literal(chars@),
{
    let start: usize = if chars.len() > 0 && (chars[0] == '+' || chars[0] == '-') {
        1
    } else {
        0
    };
    proof {
        reveal_strlit("inf");
        reveal_strlit("INF");
        reveal_strlit("infinity");
        reveal_strlit("INFINITY");
        reveal_strlit("nan");
        reveal_strlit("NAN");
    }
    if spells_at(chars, start, "inf", "INF") || spells_at(chars, start, "infinity", "INFINITY")
        || spells_at(chars, start, "nan", "NAN") {
        return true;
    }
    let whole = count_digits(chars, start);
    let dot = start + whole;
    if dot < chars.len() && chars[dot] == '.' {
        let fraction = count_digits(chars, dot + 1);
        whole + fraction > 0 && is_exponent(chars, dot + 1 + fraction)
    } else {
        whole > 0 && is_exponent(chars, dot)
    }
}

/// Whether `chars` from position `from` on are the characters of `small`,
/// each as it stands there or as it stands in `capital`.
#[verifier::loop_isolation(false)]
fn spells_at(chars: &Vec<char>, from: usize, small: &str, capital: &str) -> (r: bool)
    requires
        from <= chars@.len(),
        small@.len() == capital@.len(),
    ensures
        r == spells(chars@, from as int, small@, capital@),
{
    let lower = chars_of(small);
    let upper = chars_of(capital);
    if chars.len() - from != lower.len() {
        return false;
    }
    let mut i: usize = 0;
    while i < lower.len()
        invariant
            0 <= i <= lower@.len(),
            lower@ == small@,
            upper@ == capital@,
            lower@.len() == upper@.len(),
            from + lower@.len() == chars@.len(),
            forall|k: int|
                0 <= k < i ==> chars@[from + k] == small@[k] || chars@[from + k]
                    == #[trigger] capital@[k],
        decreases lower@.len() - i,
    {
        if chars[from + i] != lower[i] && chars[from + i] != upper[i] {
            assert(!(chars@[from + i] == small@[i as int] || chars@[from + i] == capital@[i as int]));
            return false;
        }
        i = i + 1;
    }
    true
}

/// Whether `chars` from position `from` on are nothing or an exponent.
fn is_exponent(chars: &Vec<char>, from: usize) -> (r: bool)
    requires
        from <= chars@.len(),
    ensures
        r == exponent_from(chars@, from as int),
{
    if from == chars.len() {
        return true;
    }
    if chars[from] != 'e' && chars[from] != 'E' {
        return false;
    }
    let digits: usize = if from + 1 < chars.len() && (chars[from + 1] == '+' || chars[from + 1]
        == '-') {
        from + 2
    } else {
        from + 1
    };
    let n = count_digits(chars, digits);
    n > 0 && digits + n == chars.len()
}

/// The number of digits `0` to `9` that `chars` hold from position `from`
/// on, up to the first character that is none.
fn count_digits(chars: &Vec<char>, from: usize) -> (r: usize)
    requires
        from <= chars@.len(),
    ensures
        r == digits_from(chars@, from as int),
        from + r <= chars@.len(),
{
    let mut i: usize = from;
    while i < chars.len() && 48 <= chars[i] as u32 && chars[i] as u32 <= 57
        invariant
            from <= i <= chars@.len(),
            digits_from(chars@, from as int) == (i - from) + digits_from(chars@, i as int),
        decreases chars@.len() - i,
    {
        i = i + 1;
    }
    i - from
}

/// The string that `chars` hold between a quote at their start and a quote
/// at their end, where they have them.
pub fn strip_quotes(chars: &Vec<char>) -> (r: String)
    ensures
        r@ == unquoted(chars@),
{
    let mut from: usize = 0;
    let mut to: usize = chars.len();
    if from < to && chars[from] == '"' {
        from = from + 1;
    }
    if from < to && chars[to - 1] == '"' {
        to = to - 1;
    }
    let mut out = String::new();
    let mut i: usize = from;
    while i < to
        invariant
            from <= i <= to <= chars@.len(),
            out@ == chars@.subrange(from as int, i as int),
        decreases to - i,
    {
        out.push(chars[i]);
        assert(chars@.subrange(from as int, i + 1) =~= chars@.subrange(from as int, i as int).push(
            chars@[i as int],
        ));
        i = i + 1;
    }
    proof {
        let s = chars@;
        let rest = if s.len() > 0 && s.first() == '"' {
            s.drop_first()
        } else {
            s
        };
        assert(rest =~= s.subrange(from as int, s.len() as int));
        assert(unquoted(s) =~= s.subrange(from as int, to as int));
    }
    out
}

impl<'a> Parser<'a> {
    /// What the parser reads.
    spec fn input(&self) -> Input {
        Input { src: self.src@, tokens: self.tokens@, conf: self.conf }
    }

    /// The parser stands within its tokens, whose spans lie within the
    /// source, and counts no more depth than one beyond what is allowed.
    spec fn wf(&self) -> bool {
        &&& self.curr <= self.tokens@.len()
        &&& self.input().fits()
        &&& self.depth <= self.conf.max_depth + 1
    }

    /// The same input and depth as `before`, and no token given back.
    spec fn follows(&self, before: &Self) -> bool {
        &&& self.wf()
        &&& self.input() == before.input()
        &&& self.depth == before.depth
        &&& before.curr <= self.curr
    }

    fn parse(&mut self) -> (r: Result<Json, Error>)
        requires
            old(self).wf(),
            old(self).curr == 0,
            old(self).depth == 0,
        ensures
            json_view(r) == old(self).input().parsed(),
    {
        self.value()
    }

    fn is_finished(&self) -> (r: bool)
        ensures
            r == (self.curr >= self.tokens@.len()),
    {
        self.curr >= self.tokens.len()
    }

    /// An error with the message `msg`, placed at the token taken last, if
    /// one was taken.
    fn error<T>(&self, msg: &str) -> (r: Result<T, Error>)
        requires
            self.wf(),
        ensures
            r matches Err(e) && e@ == self.input().failure(self.curr as int, msg@),
    {
        match self.previous() {
            Ok(token) => {
                let mut e = Error::new(msg.to_owned());
                e.set_file_pos(token.span().file_position(self.src));
                Err(e)
            },
            Err(_) => Err(Error::new(msg.to_owned())),
        }
    }

    fn value(&mut self) -> (r: Result<Json, Error>)
        requires
            old(self).wf(),
        ensures
            final(self).follows(old(self)),
            produced(
                r,
                final(self).curr as int,
                old(self).input().value(old(self).curr as int, old(self).depth as nat),
            ),
            r is Ok ==> final(self).curr > old(self).curr,
        decreases old(self).tokens@.len() - old(self).curr, 0nat,
    {
        if self.depth > self.conf.max_depth as u64 {
            return self.error("Max depth reached");
        }
        if self.match_type(TokenType::LSquareBracket) {
            self.depth = self.depth + 1;
            let j = self.array();
            self.depth = self.depth - 1;
            j
        } else if self.match_type(TokenType::LeftBrace) {
            self.depth = self.depth + 1;
            let j = self.object();
            self.depth = self.depth - 1;
            j
        } else if self.match_type(TokenType::Number) {
            self.number()
        } else if self.match_type(TokenType::String) {
            self.string()
        } else if self.match_type(TokenType::True) {
            Ok(Json::True)
        } else if self.match_type(TokenType::False) {
            Ok(Json::False)
        } else if self.match_type(TokenType::Null) {
            Ok(Json::Null)
        } else {
            self.error("Unknown token")
        }
    }

    #[verifier::loop_isolation(false)]
    fn array(&mut self) -> (r: Result<Json, Error>)
        requires
            old(self).wf(),
        ensures
            final(self).follows(old(self)),
            produced(
                r,
                final(self).curr as int,
                old(self).input().array_from(
                    old(self).curr as int,
                    old(self).depth as nat,
                    Seq::empty(),
                ),
            ),
            r is Ok ==> final(self).curr > old(self).curr,
        decreases old(self).tokens@.len() - old(self).curr, 1nat,
    {
        let mut elems: Vec<Json> = Vec::new();
        let ghost input = self.input();
        let ghost depth = self.depth as nat;
        let ghost whole = input.array_from(self.curr as int, depth, Seq::empty());
        proof {
            assert(item_views(elems@) =~= Seq::<JsonValue>::empty());
        }
        loop
            invariant
                self.follows(old(self)),
                whole == input.array_from(self.curr as int, depth, item_views(elems@)),
                elems@.len() > 0 ==> self.curr > old(self).curr,
            decreases self.tokens@.len() - self.curr,
        {
            if self.check(TokenType::RSquareBracket) || self.is_finished() {
                return match self.consume(TokenType::RSquareBracket, "Unclosed '['") {
                    Ok(_) => {
                        proof {
                            lemma_array_view(elems);
                        }
                        Ok(Json::Array(elems))
                    },
                    Err(e) => Err(e),
                };
            }
            if !elems.is_empty() {
                match self.consume(TokenType::Comma, "Expected comma after element") {
                    Ok(_) => {},
                    Err(e) => {
                        return Err(e);
                    },
                }
            }
            let next = match self.peek() {
                Ok(token) => token,
                Err(_) => {
                    return self.error("Unclosed '['");
                },
            };
            if next.get_type() == TokenType::RSquareBracket {
                if self.conf.recover_from_errors {
                    continue ;
                } else {
                    return self.error("Trailing comma on list");
                }
            }
            let ghost before = item_views(elems@);
            match self.value() {
                Ok(json) => {
                    elems.push(json);
                    proof {
                        assert(item_views(elems@) =~= before.push(json@));
                    }
                },
                Err(e) => {
                    return Err(e);
                },
            }
        }
    }

    #[verifier::loop_isolation(false)]
    fn object(&mut self) -> (r: Result<Json, Error>)
        requires
            old(self).wf(),
            old(self).input().kind(old(self).curr - 1) == Some(TokenType::LeftBrace),
        ensures
            final(self).follows(old(self)),
            produced(
                r,
                final(self).curr as int,
                old(self).input().object_from(
                    old(self).curr as int,
                    old(self).depth as nat,
                    Seq::empty(),
                ),
            ),
            r is Ok ==> final(self).curr > old(self).curr,
        decreases old(self).tokens@.len() - old(self).curr, 1nat,
    {
        let mut elems = Object::new();
        let ghost input = self.input();
        let ghost depth = self.depth as nat;
        let ghost whole = input.object_from(self.curr as int, depth, Seq::empty());
        loop
            invariant
                self.follows(old(self)),
                whole == input.object_from(self.curr as int, depth, elems@),
                elems@.len() > 0 ==> self.curr > old(self).curr,
                elems@.len() == 0 ==> self.curr == old(self).curr,
            decreases self.tokens@.len() - self.curr,
        {
            if self.check(TokenType::RightBrace) || self.is_finished() {
                return match self.consume(TokenType::RightBrace, "Unclosed '{'") {
                    Ok(_) => Ok(Json::Object(elems)),
                    Err(e) => Err(e),
                };
            }
            if !elems.is_empty() {
                match self.consume(TokenType::Comma, "Expected comma after element") {
                    Ok(_) => {},
                    Err(e) => {
                        return Err(e);
                    },
                }
            }
            if !self.check(TokenType::String) {
                let last = match self.previous() {
                    Ok(token) => token,
                    Err(e) => {
                        return Err(e);
                    },
                };
                if last.get_type() == TokenType::Comma {
                    if self.conf.recover_from_errors {
                        continue ;
                    } else {
                        return self.error("Trailing comma in object");
                    }
                }
                return self.error("Expected STRING");
            }
            let span = match self.advance() {
                Ok(token) => token.span(),
                Err(e) => {
                    return Err(e);
                },
            };
            let key = self.owned_lexem_strip(span);
            match self.consume(TokenType::Colon, "Expected ':'") {
                Ok(_) => {},
                Err(e) => {
                    return Err(e);
                },
            }
            match self.value() {
                Ok(json) => {
                    proof {
                        lemma_position_of_key(elems@, key@);
                    }
                    elems.insert(key, json);
                },
                Err(e) => {
                    return Err(e);
                },
            }
        }
    }

    /// The lexeme that `span` covers, without the quotes around it.
    fn owned_lexem_strip(&self, span: Span) -> (r: String)
        requires
            span.fits(self.src@),
        ensures
            r@ == unquoted(span.text(self.src@)),
    {
        let chars = chars_of(span.slice(self.src));
        strip_quotes(&chars)
    }

    fn number(&mut self) -> (r: Result<Json, Error>)
        requires
            old(self).wf(),
            0 < old(self).curr,
        ensures
            final(self).follows(old(self)),
            final(self).curr == old(self).curr,
            match r {
                Ok(json) => float_literal(old(self).input().lexeme(old(self).curr - 1)) && json@
                    == JsonValue::Number(old(self).input().lexeme(old(self).curr - 1)),
                Err(e) => !float_literal(old(self).input().lexeme(old(self).curr - 1)) && e@
                    == old(self).input().failure(old(self).curr as int, "invalid float literal"@),
            },
    {
        let token = match self.previous() {
            Ok(token) => token,
            Err(e) => {
                return Err(e);
            },
        };
        let lexeme = token.span().slice(self.src);
        let chars = chars_of(lexeme);
        if is_float_literal(&chars) {
            Ok(Json::Number(lexeme.to_owned()))
        } else {
            self.error("invalid float literal")
        }
    }

    fn string(&mut self) -> (r: Result<Json, Error>)
        requires
            old(self).wf(),
            0 < old(self).curr,
        ensures
            final(self).follows(old(self)),
            final(self).curr == old(self).curr,
            r matches Ok(json) && json@ == JsonValue::String(
                unquoted(old(self).input().lexeme(old(self).curr - 1)),
            ),
    {
        let token = match self.previous() {
            Ok(token) => token,
            Err(e) => {
                return Err(e);
            },
        };
        let s = self.owned_lexem_strip(token.span());
        Ok(Json::String(s))
    }

    /// Takes the next token if it is of kind `t`, and fails with `msg` if it
    /// is not.
    fn consume(&mut self, t: TokenType, msg: &str) -> (r: Result<Token, Error>)
        requires
            old(self).wf(),
        ensures
            final(self).follows(old(self)),
            match r {
                Ok(token) => {
                    &&& old(self).input().kind(old(self).curr as int) == Some(t)
                    &&& token == old(self).tokens@[old(self).curr as int]
                    &&& final(self).curr == old(self).curr + 1
                },
                Err(e) => {
                    &&& old(self).input().kind(old(self).curr as int) != Some(t)
                    &&& e@ == old(self).input().failure(old(self).curr as int, msg@)
                    &&& final(self).curr == old(self).curr
                },
            },
    {
        if self.check(t) {
            return self.advance();
        }
        self.error(msg)
    }

    /// Takes the next token if it is of kind `t`, and tells whether it was.
    fn match_type(&mut self, t: TokenType) -> (r: bool)
        requires
            old(self).wf(),
        ensures
            final(self).follows(old(self)),
            r == (old(self).input().kind(old(self).curr as int) == Some(t)),
            final(self).curr == if r {
                old(self).curr + 1
            } else {
                old(self).curr as int
            },
    {
        if self.check(t) {
            let _ = self.advance();
            return true;
        }
        false
    }

    /// Whether the next token is of kind `t`.
    fn check(&self, t: TokenType) -> (r: bool)
        requires
            self.wf(),
        ensures
            r == (self.input().kind(self.curr as int) == Some(t)),
    {
        if self.is_finished() {
            return false;
        }
        match self.peek() {
            Ok(token) => token.get_type() == t,
            Err(_) => false,
        }
    }

    /// Steps over the next token, if there is one, and returns the token
    /// that then lies behind.
    fn advance(&mut self) -> (r: Result<Token, Error>)
        requires
            old(self).wf(),
        ensures
            final(self).follows(old(self)),
            final(self).curr == if old(self).curr < old(self).tokens@.len() {
                old(self).curr + 1
            } else {
                old(self).curr as int
            },
            match r {
                Ok(token) => final(self).curr > 0 && token == final(self).tokens@[final(self).curr
                    - 1],
                Err(e) => final(self).curr == 0 && e@ == Failure::plain(out_of_range()),
            },
    {
        if self.curr < self.tokens.len() {
            self.curr = self.curr + 1;
        }
        self.previous()
    }

    /// The next token.
    fn peek(&self) -> (r: Result<Token, Error>)
        requires
            self.wf(),
        ensures
            match r {
                Ok(token) => self.curr < self.tokens@.len() && token == self.tokens@[self.curr as int],
                Err(e) => self.curr >= self.tokens@.len() && e@ == Failure::plain(out_of_range()),
            },
    {
        if self.curr < self.tokens.len() {
            Ok(self.tokens[self.curr])
        } else {
            Err(Error::new("Index should be valid when calling peek".to_owned()))
        }
    }

    /// The token taken last.
    fn previous(&self) -> (r: Result<Token, Error>)
        requires
            self.wf(),
        ensures
            match r {
                Ok(token) => self.curr > 0 && token == self.tokens@[self.curr - 1],
                Err(e) => self.curr == 0 && e@ == Failure::plain(out_of_range()),
            },
    {
        if self.curr > 0 {
            Ok(self.tokens[self.curr - 1])
        } else {
            Err(Error::new("Index should be valid when calling peek".to_owned()))
        }
    }
}

} // verus!
