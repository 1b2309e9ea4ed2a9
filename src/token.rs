use vstd::prelude::*;

verus! {

/// The payload-free tag of a [`Token`], used to state which token is expected.
#[derive(Debug, Clone, Copy, PartialEq, Eq, Structural)]
pub enum TokenKind {
    OpenParen,
    CloseParen,
    OpenBrace,
    CloseBrace,
    OpenBracket,
    CloseBracket,
    Equals,
    BinaryOperator,
    Number,
    Identifier,
    Let,
    Const,
    Eof,
    Semicolon,
    Colon,
    Comma,
    Dot,
}

#[derive(Debug, Clone, PartialEq, Eq)]
pub enum Token {
    OpenParen,
    CloseParen,
    OpenBrace,
    CloseBrace,
    OpenBracket,
    CloseBracket,
    Equals,
    BinaryOperator(char),
    Number(isize),
    Identifier(String),
    Let,
    Const,
    Eof,
    Semicolon,
    Colon,
    Comma,
    Dot,
}

/// The tag of a token: its variant with the payload dropped.
pub open spec fn kind_of(t: Token) -> TokenKind {
    match t {
        Token::OpenParen => TokenKind::OpenParen,
        Token::CloseParen => TokenKind::CloseParen,
        Token::OpenBrace => TokenKind::OpenBrace,
        Token::CloseBrace => TokenKind::CloseBrace,
        Token::OpenBracket => TokenKind::OpenBracket,
        Token::CloseBracket => TokenKind::CloseBracket,
        Token::Equals => TokenKind::Equals,
        Token::BinaryOperator(_) => TokenKind::BinaryOperator,
        Token::Number(_) => TokenKind::Number,
        Token::Identifier(_) => TokenKind::Identifier,
        Token::Let => TokenKind::Let,
        Token::Const => TokenKind::Const,
        Token::Eof => TokenKind::Eof,
        Token::Semicolon => TokenKind::Semicolon,
        Token::Colon => TokenKind::Colon,
        Token::Comma => TokenKind::Comma,
        Token::Dot => TokenKind::Dot,
    }
}

impl Token {
    /// A copy of the token, equal to it.
    pub fn duplicate(&self) -> (r: Token)
        ensures
            r == *self,
    {
        match self {
            Token::OpenParen => Token::OpenParen,
            Token::CloseParen => Token::CloseParen,
            Token::OpenBrace => Token::OpenBrace,
            Token::CloseBrace => Token::CloseBrace,
            Token::OpenBracket => Token::OpenBracket,
            Token::CloseBracket => Token::CloseBracket,
            Token::Equals => Token::Equals,
            Token::BinaryOperator(c) => Token::BinaryOperator(*c),
            Token::Number(n) => Token::Number(*n),
            Token::Identifier(s) => Token::Identifier(s.clone()),
            Token::Let => Token::Let,
            Token::Const => Token::Const,
            Token::Eof => Token::Eof,
            Token::Semicolon => Token::Semicolon,
            Token::Colon => Token::Colon,
            Token::Comma => Token::Comma,
            Token::Dot => Token::Dot,
        }
    }

    pub fn kind(&self) -> (r: TokenKind)
        ensures
            r == kind_of(*self),
    {
        match self {
            Token::OpenParen => TokenKind::OpenParen,
            Token::CloseParen => TokenKind::CloseParen,
            Token::OpenBrace => TokenKind::OpenBrace,
            Token::CloseBrace => TokenKind::CloseBrace,
            Token::OpenBracket => TokenKind::OpenBracket,
            Token::CloseBracket => TokenKind::CloseBracket,
            Token::Equals => TokenKind::Equals,
            Token::BinaryOperator(_) => TokenKind::BinaryOperator,
            Token::Number(_) => TokenKind::Number,
            Token::Identifier(_) => TokenKind::Identifier,
            Token::Let => TokenKind::Let,
            Token::Const => TokenKind::Const,
            Token::Eof => TokenKind::Eof,
            Token::Semicolon => TokenKind::Semicolon,
            Token::Colon => TokenKind::Colon,
            Token::Comma => TokenKind::Comma,
            Token::Dot => TokenKind::Dot,
        }
    }
}

} // verus!
