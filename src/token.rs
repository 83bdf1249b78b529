use vstd::prelude::*;

verus! {

/// A data type representing the tokens that come out of the lexer.
#[derive(Debug, PartialEq, Eq, Clone)]
pub enum Token {
    // Identifiers and literals
    Ident(String),
    Int(String),
    // Operators
    Plus,
    Minus,
    Asterisk,
    Slash,
    Assign,
    Bang,
    LessThan,
    GreaterThan,
    LessOrEqual,
    GreaterOrEqual,
    Equal,
    NotEqual,
    // Delimiters
    Comma,
    Semicolon,
    Hash,
    LParen,
    RParen,
    // Keywords
    Let,
    True,
    False,
    If,
    Then,
    Else,
    Return,
}

/// The mathematical value of a `Token`: the same variants, with text as `Seq<char>`.
pub enum TokenModel {
    Ident(Seq<char>),
    Int(Seq<char>),
    Plus,
    Minus,
    Asterisk,
    Slash,
    Assign,
    Bang,
    LessThan,
    GreaterThan,
    LessOrEqual,
    GreaterOrEqual,
    Equal,
    NotEqual,
    Comma,
    Semicolon,
    Hash,
    LParen,
    RParen,
    Let,
    True,
    False,
    If,
    Then,
    Else,
    Return,
}

impl View for Token {
    type V = TokenModel;

    open spec fn view(&self) -> TokenModel {
        match self {
            Token::Ident(s) => TokenModel::Ident(s@),
            Token::Int(s) => TokenModel::Int(s@),
            Token::Plus => TokenModel::Plus,
            Token::Minus => TokenModel::Minus,
            Token::Asterisk => TokenModel::Asterisk,
            Token::Slash => TokenModel::Slash,
            Token::Assign => TokenModel::Assign,
            Token::Bang => TokenModel::Bang,
            Token::LessThan => TokenModel::LessThan,
            Token::GreaterThan => TokenModel::GreaterThan,
            Token::LessOrEqual => TokenModel::LessOrEqual,
            Token::GreaterOrEqual => TokenModel::GreaterOrEqual,
            Token::Equal => TokenModel::Equal,
            Token::NotEqual => TokenModel::NotEqual,
            Token::Comma => TokenModel::Comma,
            Token::Semicolon => TokenModel::Semicolon,
            Token::Hash => TokenModel::Hash,
            Token::LParen => TokenModel::LParen,
            Token::RParen => TokenModel::RParen,
            Token::Let => TokenModel::Let,
            Token::True => TokenModel::True,
            Token::False => TokenModel::False,
            Token::If => TokenModel::If,
            Token::Then => TokenModel::Then,
            Token::Else => TokenModel::Else,
            Token::Return => TokenModel::Return,
        }
    }
}

/// The model of an optional token, as held in a lookahead slot.
pub open spec fn opt_token_view(t: Option<Token>) -> Option<TokenModel> {
    match t {
        Some(tok) => Some(tok@),
        None => None,
    }
}

} // verus!
