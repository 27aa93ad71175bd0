//! Tokens: what the lexer hands to the parser.

use vstd::prelude::*;

verus! {

/// The kind of a token.
#[derive(Debug, Clone, PartialEq, Eq, Copy, Structural)]
pub enum TokenType {
    // Special
    EOF,
    // Literals
    NUMBER,
    IDENTIFIER,
    KEYWORD,
    // Blocks
    LBRACE,
    RBRACE,
    LPAREN,
    RPAREN,
    LBRACKET,
    RBRACKET,
    COMMA,
    SEMICOLON,
    // Operators
    PLUS,
    MINUS,
    ASTERISK,
    SLASH,
    EQ,
    NEQ,
    LT,
    LTE,
    GT,
    GTE,
    ASSIGN,
}

impl TokenType {
    /// The name of the kind, as diagnostics show it.
    pub open spec fn name_text(self) -> Seq<char> {
        match self {
            TokenType::EOF => "EOF"@,
            TokenType::NUMBER => "NUMBER"@,
            TokenType::IDENTIFIER => "IDENTIFIER"@,
            TokenType::KEYWORD => "KEYWORD"@,
            TokenType::LBRACE => "LBRACE"@,
            TokenType::RBRACE => "RBRACE"@,
            TokenType::LPAREN => "LPAREN"@,
            TokenType::RPAREN => "RPAREN"@,
            TokenType::LBRACKET => "LBRACKET"@,
            TokenType::RBRACKET => "RBRACKET"@,
            TokenType::COMMA => "COMMA"@,
            TokenType::SEMICOLON => "SEMICOLON"@,
            TokenType::PLUS => "PLUS"@,
            TokenType::MINUS => "MINUS"@,
            TokenType::ASTERISK => "ASTERISK"@,
            TokenType::SLASH => "SLASH"@,
            TokenType::EQ => "EQ"@,
            TokenType::NEQ => "NEQ"@,
            TokenType::LT => "LT"@,
            TokenType::LTE => "LTE"@,
            TokenType::GT => "GT"@,
            TokenType::GTE => "GTE"@,
            TokenType::ASSIGN => "ASSIGN"@,
        }
    }

    /// The name of the kind, as diagnostics show it.
    pub fn name(&self) -> (text: &'static str)
        ensures
            text@ == self.name_text(),
    {
        match self {
            TokenType::EOF => "EOF",
            TokenType::NUMBER => "NUMBER",
            TokenType::IDENTIFIER => "IDENTIFIER",
            TokenType::KEYWORD => "KEYWORD",
            TokenType::LBRACE => "LBRACE",
            TokenType::RBRACE => "RBRACE",
            TokenType::LPAREN => "LPAREN",
            TokenType::RPAREN => "RPAREN",
            TokenType::LBRACKET => "LBRACKET",
            TokenType::RBRACKET => "RBRACKET",
            TokenType::COMMA => "COMMA",
            TokenType::SEMICOLON => "SEMICOLON",
            TokenType::PLUS => "PLUS",
            TokenType::MINUS => "MINUS",
            TokenType::ASTERISK => "ASTERISK",
            TokenType::SLASH => "SLASH",
            TokenType::EQ => "EQ",
            TokenType::NEQ => "NEQ",
            TokenType::LT => "LT",
            TokenType::LTE => "LTE",
            TokenType::GT => "GT",
            TokenType::GTE => "GTE",
            TokenType::ASSIGN => "ASSIGN",
        }
    }
}

/// A reserved word.
#[derive(Debug, Clone, Copy, PartialEq, Eq, Structural)]
pub enum Keyword {
    LET,
    IF,
    WHILE,
}

/// What a token carries besides its kind.
#[derive(Debug, PartialEq, Eq)]
pub enum TokenValue {
    Empty,
    Number(i32),
    Identifier(String),
    Keyword(Keyword),
}

/// A token, with the byte offset at which it starts in the source that it
/// was read from.
#[derive(Debug, PartialEq, Eq)]
pub struct Token {
    pub token_type: TokenType,
    pub value: TokenValue,
    pub position: usize,
    pub source_id: usize,
}

/// What a token carries, as plain data.
pub enum ValueView {
    Empty,
    Number(i32),
    Identifier(Seq<char>),
    Keyword(Keyword),
}

/// A token as plain data.
pub struct TokenView {
    pub token_type: TokenType,
    pub value: ValueView,
    pub position: usize,
    pub source_id: usize,
}

impl View for TokenValue {
    type V = ValueView;

    open spec fn view(&self) -> ValueView {
        match *self {
            TokenValue::Empty => ValueView::Empty,
            TokenValue::Number(n) => ValueView::Number(n),
            TokenValue::Identifier(name) => ValueView::Identifier(name@),
            TokenValue::Keyword(keyword) => ValueView::Keyword(keyword),
        }
    }
}

impl View for Token {
    type V = TokenView;

    open spec fn view(&self) -> TokenView {
        TokenView {
            token_type: self.token_type,
            value: self.value@,
            position: self.position,
            source_id: self.source_id,
        }
    }
}

impl Clone for TokenValue {
    fn clone(&self) -> (copy: Self)
        ensures
            copy == *self,
    {
        match self {
            TokenValue::Empty => TokenValue::Empty,
            TokenValue::Number(n) => TokenValue::Number(*n),
            TokenValue::Identifier(name) => TokenValue::Identifier(name.clone()),
            TokenValue::Keyword(keyword) => TokenValue::Keyword(*keyword),
        }
    }
}

impl Clone for Token {
    fn clone(&self) -> (copy: Self)
        ensures
            copy == *self,
    {
        Token {
            token_type: self.token_type,
            value: self.value.clone(),
            position: self.position,
            source_id: self.source_id,
        }
    }
}

} // verus!
