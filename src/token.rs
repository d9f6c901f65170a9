use vstd::prelude::*;

verus! {

/// One lexeme of the language, classified.
///
/// Punctuation and operators carry their text and the character offset at
/// which they start; string literals carry their content without the quotes;
/// number literals carry the numeral as written (digits with at most one
/// decimal point), which states the value exactly, fraction included.
#[derive(Debug, PartialEq)]
pub enum Token {
    LeftParen(char, usize),
    RightParen(char, usize),
    LeftBrace(char, usize),
    RightBrace(char, usize),
    Comma(char, usize),
    Dot(char, usize),
    Minus(char, usize),
    Plus(char, usize),
    Semicolon(char, usize),
    Slash(char, usize),
    Star(char, usize),
    // One or two character tokens.
    Bang(char, usize),
    BangEqual(String, usize),
    Equal(char, usize),
    EqualEqual(String, usize),
    Greater(char, usize),
    GreaterEqual(String, usize),
    Less(char, usize),
    LessEqual(String, usize),
    // Literals.
    Identifier,
    String(String),
    Number(String),
    Comment,
    // Keywords.
    And,
    Class,
    Else,
    False,
    Fun,
    For,
    If,
    Nil,
    Or,
    Print,
    Return,
    Super,
    This,
    True,
    Var,
    While,
    Eof,
    Invalid(char, usize),
    Skip,
}

/// A decoded literal value.
#[derive(Debug, PartialEq)]
pub enum Literal {
    Identifier(String),
    Str(String),
    Number(String),
}

impl Token {
    /// The character offset at which the token starts, for the kinds that
    /// record one.
    pub open spec fn position(self) -> Option<int> {
        match self {
            Token::LeftParen(_, p) => Some(p as int),
            Token::RightParen(_, p) => Some(p as int),
            Token::LeftBrace(_, p) => Some(p as int),
            Token::RightBrace(_, p) => Some(p as int),
            Token::Comma(_, p) => Some(p as int),
            Token::Dot(_, p) => Some(p as int),
            Token::Minus(_, p) => Some(p as int),
            Token::Plus(_, p) => Some(p as int),
            Token::Semicolon(_, p) => Some(p as int),
            Token::Slash(_, p) => Some(p as int),
            Token::Star(_, p) => Some(p as int),
            Token::Bang(_, p) => Some(p as int),
            Token::BangEqual(_, p) => Some(p as int),
            Token::Equal(_, p) => Some(p as int),
            Token::EqualEqual(_, p) => Some(p as int),
            Token::Greater(_, p) => Some(p as int),
            Token::GreaterEqual(_, p) => Some(p as int),
            Token::Less(_, p) => Some(p as int),
            Token::LessEqual(_, p) => Some(p as int),
            Token::Invalid(_, p) => Some(p as int),
            _ => None,
        }
    }
}

} // verus!
