//! Tokens: a kind and the place of the lexeme in the source.

use vstd::prelude::*;
use crate::lexer::span::Span;

verus! {

/// The kinds of token.
#[derive(Clone, Copy, Debug, PartialEq, Eq, Structural)]
pub enum TokenType {
    LSquareBracket,
    RSquareBracket,
    LeftBrace,
    RightBrace,
    Comma,
    Dot,
    Minus,
    Plus,
    Colon,
    String,
    Number,
    False,
    True,
    Null,
}

impl TokenType {
    /// The name of the kind, as it is shown.
    pub open spec fn display(self) -> Seq<char> {
        match self {
            TokenType::LSquareBracket => "LSquareBracket"@,
            TokenType::RSquareBracket => "RSquareBracket"@,
            TokenType::LeftBrace => "LeftBrace"@,
            TokenType::RightBrace => "RightBrace"@,
            TokenType::Comma => "Comma"@,
            TokenType::Dot => "Dot"@,
            TokenType::Minus => "Minus"@,
            TokenType::Plus => "Plus"@,
            TokenType::Colon => "Colon"@,
            TokenType::String => "String"@,
            TokenType::Number => "Number"@,
            TokenType::False => "False"@,
            TokenType::True => "True"@,
            TokenType::Null => "Null"@,
        }
    }

    /// The name of the kind.
    pub fn name(&self) -> (r: &'static str)
        ensures
            r@ == self.display(),
    {
        match self {
            TokenType::LSquareBracket => "LSquareBracket",
            TokenType::RSquareBracket => "RSquareBracket",
            TokenType::LeftBrace => "LeftBrace",
            TokenType::RightBrace => "RightBrace",
            TokenType::Comma => "Comma",
            TokenType::Dot => "Dot",
            TokenType::Minus => "Minus",
            TokenType::Plus => "Plus",
            TokenType::Colon => "Colon",
            TokenType::String => "String",
            TokenType::Number => "Number",
            TokenType::False => "False",
            TokenType::True => "True",
            TokenType::Null => "Null",
        }
    }

    /// The name of the kind, as an owned string.
    pub fn to_string(&self) -> (r: String)
        ensures
            r@ == self.display(),
    {
        self.name().to_owned()
    }
}

/// A token holds no text of its own: its lexeme is the part of the source
/// that its span covers.
#[derive(Clone, Copy, Debug)]
pub struct Token {
    pub token_type: TokenType,
    pub span: Span,
}

impl Token {
    /// The characters of the token in `text`.
    pub open spec fn lexeme(self, text: Seq<char>) -> Seq<char> {
        self.span.text(text)
    }

    pub fn new(token_type: TokenType, span: Span) -> (r: Token)
        ensures
            r == (Token { token_type, span }),
    {
        Token { token_type, span }
    }

    pub fn get_type(&self) -> (r: TokenType)
        ensures
            r == self.token_type,
    {
        self.token_type
    }

    pub fn span(&self) -> (r: Span)
        ensures
            r == self.span,
    {
        self.span
    }

    /// The lexeme of the token, borrowed from the source `src`.
    pub fn get_lexem<'a>(&self, src: &'a str) -> (r: &'a str)
        requires
            self.span.fits(src@),
        ensures
            r@ == self.lexeme(src@),
    {
        self.span.slice(src)
    }

    /// The lexeme of the token as an owned string, copied out of the source `src`.
    pub fn take_lexem(&self, src: &str) -> (r: String)
        requires
            self.span.fits(src@),
        ensures
            r@ == self.lexeme(src@),
    {
        self.span.slice(src).to_owned()
    }
}

} // verus!
