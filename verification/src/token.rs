//! Tokens: the lexical units that the lexer hands to the parser.

use vstd::prelude::*;

verus! {

/// The class of a token.
#[allow(non_camel_case_types)]
#[derive(Debug, Clone, Copy, PartialEq, Eq, Structural)]
pub enum TokenType {
    /// An integer literal.
    INTEGER,
    /// One of the four binary operators.
    OPERATOR,
    /// The sentinel behind the last character of the input.
    EOF,
}

/// What a token holds.
#[derive(Debug, Clone, Copy, PartialEq, Eq, Structural)]
pub enum TokenValue {
    /// The value of a run of decimal digits. It is never negative.
    Integer(i64),
    /// `+`
    Plus,
    /// `-`
    Minus,
    /// `*`
    Mult,
    /// `/`
    Div,
    /// No character is left.
    Eof,
}

/// A token: its class together with what it holds.
#[derive(Debug, Clone, Copy, PartialEq, Eq, Structural)]
pub struct Token {
    pub ttype: TokenType,
    pub value: TokenValue,
}

impl TokenValue {
    /// The class to which a token with this value belongs.
    pub open spec fn token_type(self) -> TokenType {
        match self {
            TokenValue::Integer(_) => TokenType::INTEGER,
            TokenValue::Plus | TokenValue::Minus | TokenValue::Mult | TokenValue::Div =>
                TokenType::OPERATOR,
            TokenValue::Eof => TokenType::EOF,
        }
    }
}

impl Token {
    /// A token is well formed when its class is the class of its value and
    /// an integer in it is not negative. Every token that the lexer produces
    /// is well formed.
    pub open spec fn wf(self) -> bool {
        &&& self.ttype == self.value.token_type()
        &&& self.value matches TokenValue::Integer(v) ==> v >= 0
    }

    /// Puts a class and a value together. Nothing is asked of the pair, so
    /// the result is well formed only where the pair is.
    pub fn new(ttype: TokenType, value: TokenValue) -> (token: Token)
        ensures
            token.ttype == ttype,
            token.value == value,
    {
        Token { ttype, value }
    }
}

/// Tells whether `token` belongs to the class `ttype`.
pub fn validate_token_type(token: &Token, ttype: TokenType) -> (same: bool)
    ensures
        same == (token.ttype == ttype),
{
    match (token.ttype, ttype) {
        (TokenType::INTEGER, TokenType::INTEGER) => true,
        (TokenType::OPERATOR, TokenType::OPERATOR) => true,
        (TokenType::EOF, TokenType::EOF) => true,
        _ => false,
    }
}

} // verus!
