//! What the parser makes of a list of tokens, stated over the model of the
//! value tree.

use vstd::prelude::*;
use crate::config::JsonConfig;
use crate::error::Failure;
use crate::lexer::chars::ascii_digit;
use crate::lexer::token::{Token, TokenType};
use crate::value::{Entries, JsonValue, put};

verus! {

/// What the parser reads: the tokens, the source that their spans refer to,
/// and the configuration.
pub struct Input {
    pub src: Seq<char>,
    pub tokens: Seq<Token>,
    pub conf: JsonConfig,
}

/// What the parser makes of the tokens from some position on.
pub enum Parsed {
    /// A value, and the position of the first token behind it.
    Done(JsonValue, int),
    /// A failure.
    Failed(Failure),
}

/// The number of lexeme characters from position `from` on that are digits
/// `0` to `9`, up to the first that is not.
pub open spec fn digits_from(s: Seq<char>, from: int) -> nat
    decreases s.len() - from,
{
    if 0 <= from < s.len() && ascii_digit(s[from]) {
        1 + digits_from(s, from + 1)
    } else {
        0
    }
}

/// A decimal literal: digits `0` to `9`, at least one, and behind them
/// nothing, or a dot and again at least one digit.  Every number that the
/// lexer makes of ASCII characters is one.
pub open spec fn decimal_literal(s: Seq<char>) -> bool {
    let whole = digits_from(s, 0) as int;
    whole > 0 && (whole == s.len() || (s[whole] == '.' && digits_from(s, whole + 1) > 0
        && whole + 1 + digits_from(s, whole + 1) == s.len()))
}

/// A plus or minus sign.
pub open spec fn sign(c: char) -> bool {
    c == '+' || c == '-'
}

/// The characters of `s` from position `from` on are those of `small`, each
/// as it stands there or as it stands in `capital`.
pub open spec fn spells(s: Seq<char>, from: int, small: Seq<char>, capital: Seq<char>) -> bool {
    &&& s.len() - from == small.len()
    &&& forall|i: int|
        0 <= i < small.len() ==> s[from + i] == small[i] || s[from + i] == #[trigger] capital[i]
}

/// The characters of `s` from position `from` on name a float that has no
/// digits: `inf`, `infinity` or `nan`, in capital or small letters.
pub open spec fn named_float(s: Seq<char>, from: int) -> bool {
    ||| spells(s, from, "inf"@, "INF"@)
    ||| spells(s, from, "infinity"@, "INFINITY"@)
    ||| spells(s, from, "nan"@, "NAN"@)
}

/// The characters of `s` from position `from` on are nothing, or an
/// exponent: `e` or `E`, a sign or none, and digits, at least one.
pub open spec fn exponent_from(s: Seq<char>, from: int) -> bool {
    from == s.len() || (0 <= from < s.len() && (s[from] == 'e' || s[from] == 'E') && {
        let digits = if from + 1 < s.len() && sign(s[from + 1]) {
            from + 2
        } else {
            from + 1
        };
        digits_from(s, digits) > 0 && digits + digits_from(s, digits) == s.len()
    })
}

/// The characters of `s` from position `from` on are digits with a dot or
/// none among them, at least one digit in all, and an exponent or none.
pub open spec fn digits_float(s: Seq<char>, from: int) -> bool {
    let whole = digits_from(s, from) as int;
    let dot = from + whole;
    if 0 <= dot < s.len() && s[dot] == '.' {
        let fraction = digits_from(s, dot + 1) as int;
        whole + fraction > 0 && exponent_from(s, dot + 1 + fraction)
    } else {
        whole > 0 && exponent_from(s, dot)
    }
}

/// A float literal, as the parser takes it for a number: a sign or none, and
/// behind it either `inf`, `infinity` or `nan`, or digits with a dot or none
/// among them and an exponent or none.  No white space, and nothing else.
pub open spec fn float_literal(s: Seq<char>) -> bool {
    let start: int = if s.len() > 0 && sign(s[0]) {
        1
    } else {
        0
    };
    named_float(s, start) || digits_float(s, start)
}

/// Every decimal literal is a float literal.
pub proof fn lemma_decimal_is_float(s: Seq<char>)
    requires
        decimal_literal(s),
    ensures
        float_literal(s),
{
    assert(ascii_digit(s[0]));
}

/// The lexeme of a string without the quote at its start and the quote at
/// its end, where it has them.
pub open spec fn unquoted(s: Seq<char>) -> Seq<char> {
    let rest = if s.len() > 0 && s.first() == '"' {
        s.drop_first()
    } else {
        s
    };
    if rest.len() > 0 && rest.last() == '"' {
        rest.drop_last()
    } else {
        rest
    }
}

impl Input {
    /// The kind of the token at position `i`, if there is one.
    pub open spec fn kind(self, i: int) -> Option<TokenType> {
        if 0 <= i < self.tokens.len() {
            Some(self.tokens[i].token_type)
        } else {
            None
        }
    }

    /// The characters of the token at position `i`.
    pub open spec fn lexeme(self, i: int) -> Seq<char> {
        self.tokens[i].span.text(self.src)
    }

    /// Every token's span lies within the source.
    pub open spec fn fits(self) -> bool {
        forall|i: int| 0 <= i < self.tokens.len() ==> (#[trigger] self.tokens[i]).span.fits(self.src)
    }

    /// The failure with the message `msg` that arises at position `curr`: it
    /// is placed at the token before `curr`, the last that was taken.  Where
    /// none was taken yet, it has no place.
    pub open spec fn failure(self, curr: int, msg: Seq<char>) -> Failure {
        if 0 < curr <= self.tokens.len() {
            Failure::at(msg, self.tokens[curr - 1].span.position(self.src))
        } else {
            Failure::plain(msg)
        }
    }

    /// The value that starts at position `curr`, with `depth` arrays and
    /// objects around it.
    ///
    /// A value with more arrays and objects around it than the configuration
    /// allows is refused before any of its tokens is looked at.
    pub open spec fn value(self, curr: int, depth: nat) -> Parsed
        decreases self.tokens.len() - curr, 0nat,
    {
        if depth > self.conf.max_depth {
            Parsed::Failed(self.failure(curr, "Max depth reached"@))
        } else {
            match self.kind(curr) {
                Some(TokenType::LSquareBracket) => self.array_from(
                    curr + 1,
                    depth + 1,
                    Seq::empty(),
                ),
                Some(TokenType::LeftBrace) => self.object_from(curr + 1, depth + 1, Seq::empty()),
                Some(TokenType::Number) => if float_literal(self.lexeme(curr)) {
                    Parsed::Done(JsonValue::Number(self.lexeme(curr)), curr + 1)
                } else {
                    Parsed::Failed(self.failure(curr + 1, "invalid float literal"@))
                },
                Some(TokenType::String) => Parsed::Done(
                    JsonValue::String(unquoted(self.lexeme(curr))),
                    curr + 1,
                ),
                Some(TokenType::True) => Parsed::Done(JsonValue::True, curr + 1),
                Some(TokenType::False) => Parsed::Done(JsonValue::False, curr + 1),
                Some(TokenType::Null) => Parsed::Done(JsonValue::Null, curr + 1),
                _ => Parsed::Failed(self.failure(curr, "Unknown token"@)),
            }
        }
    }

    /// The array whose items so far are `items` and whose rest starts at
    /// position `curr`.  Its items have `depth` arrays and objects around
    /// them.
    ///
    /// Every item but the first stands behind a comma.  A comma before the
    /// closing bracket is passed over where the configuration recovers from
    /// errors, and refused where it does not.  Where the tokens end before
    /// the closing bracket, behind a comma too, the array is unclosed.  (A
    /// value takes at least one
    /// token and none but those that are there, so the case that refuses
    /// another never arises.)
    pub open spec fn array_from(self, curr: int, depth: nat, items: Seq<JsonValue>) -> Parsed
        decreases self.tokens.len() - curr, 1nat,
    {
        if self.kind(curr) == Some(TokenType::RSquareBracket) {
            Parsed::Done(JsonValue::Array(items), curr + 1)
        } else if !(0 <= curr < self.tokens.len()) {
            Parsed::Failed(self.failure(curr, "Unclosed '['"@))
        } else if items.len() > 0 && self.kind(curr) != Some(TokenType::Comma) {
            Parsed::Failed(self.failure(curr, "Expected comma after element"@))
        } else {
            let at = if items.len() > 0 {
                curr + 1
            } else {
                curr
            };
            if at >= self.tokens.len() {
                Parsed::Failed(self.failure(at, "Unclosed '['"@))
            } else if self.kind(at) == Some(TokenType::RSquareBracket) {
                if self.conf.recover_from_errors {
                    Parsed::Done(JsonValue::Array(items), at + 1)
                } else {
                    Parsed::Failed(self.failure(at, "Trailing comma on list"@))
                }
            } else {
                match self.value(at, depth) {
                    Parsed::Done(item, next) => if at < next <= self.tokens.len() {
                        self.array_from(next, depth, items.push(item))
                    } else {
                        Parsed::Failed(self.failure(at, "Unknown token"@))
                    },
                    Parsed::Failed(failure) => Parsed::Failed(failure),
                }
            }
        }
    }

    /// The object whose entries so far are `entries` and whose rest starts
    /// at position `curr`.  Its values have `depth` arrays and objects
    /// around them.
    ///
    /// Every entry but the first stands behind a comma, and is a string, a
    /// colon and a value.  A key that occurs again gives its entry the later
    /// value.  A comma that no entry follows is passed over where the
    /// configuration recovers from errors, and refused where it does not.
    pub open spec fn object_from(self, curr: int, depth: nat, entries: Entries) -> Parsed
        decreases self.tokens.len() - curr, 1nat,
    {
        if self.kind(curr) == Some(TokenType::RightBrace) {
            Parsed::Done(JsonValue::Object(entries), curr + 1)
        } else if !(0 <= curr < self.tokens.len()) {
            Parsed::Failed(self.failure(curr, "Unclosed '{'"@))
        } else if entries.len() > 0 && self.kind(curr) != Some(TokenType::Comma) {
            Parsed::Failed(self.failure(curr, "Expected comma after element"@))
        } else {
            let at = if entries.len() > 0 {
                curr + 1
            } else {
                curr
            };
            if self.kind(at) != Some(TokenType::String) {
                if entries.len() == 0 {
                    Parsed::Failed(self.failure(at, "Expected STRING"@))
                } else if self.conf.recover_from_errors {
                    self.object_from(at, depth, entries)
                } else {
                    Parsed::Failed(self.failure(at, "Trailing comma in object"@))
                }
            } else if self.kind(at + 1) != Some(TokenType::Colon) {
                Parsed::Failed(self.failure(at + 1, "Expected ':'"@))
            } else {
                match self.value(at + 2, depth) {
                    Parsed::Done(item, next) => if at < next <= self.tokens.len() {
                        self.object_from(next, depth, put(entries, unquoted(self.lexeme(at)), item))
                    } else {
                        Parsed::Failed(self.failure(at, "Unknown token"@))
                    },
                    Parsed::Failed(failure) => Parsed::Failed(failure),
                }
            }
        }
    }

    /// The value that the tokens start with, or the failure of the parser.
    /// Tokens behind that value are not looked at.
    pub open spec fn parsed(self) -> Result<JsonValue, Failure> {
        match self.value(0, 0) {
            Parsed::Done(value, _) => Ok(value),
            Parsed::Failed(failure) => Err(failure),
        }
    }
}

} // verus!
