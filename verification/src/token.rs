//! The lexical units of Kyber source: the lexer produces them, the parser
//! consumes them.

use vstd::prelude::*;

verus! {

/// A token. A float literal keeps its decimal text (digits, a point, digits),
/// exactly as written; its binary value is computed when it is evaluated.
#[derive(Debug, Clone)]
pub enum Token {
    // Literals
    Int(i64),
    Float(String),
    True,
    False,
    Identifier(String),
    // Arithmetic operators
    Plus,
    Minus,
    Star,
    Slash,
    Modulo,
    PlusEqual,
    MinusEqual,
    StarEqual,
    SlashEqual,
    ModuloEqual,
    // Comparison operators
    Less,
    Greater,
    LessEqual,
    GreaterEqual,
    EqualEqual,
    NotEqual,
    // Logical operators
    Not,
    // Keywords
    Let,
    Const,
    If,
    Else,
    While,
    For,
    In,
    By,
    Def,
    Return,
    Print,
    // Type keywords
    IntType,
    FloatType,
    BoolType,
    VoidType,
    // Punctuation and delimiters
    LeftParen,
    RightParen,
    Equals,
    Semicolon,
    LeftBrace,
    RightBrace,
    DotDot,
    DotDotEqual,
    Arrow,
    Comma,
    // End of input, appended by the lexer so the parser always has a current token
    Eof,
}

/// The mathematical counterpart of a [`Token`], with text as a sequence of characters.
pub enum TokenV {
    Int(i64),
    Float(Seq<char>),
    True,
    False,
    Identifier(Seq<char>),
    Plus,
    Minus,
    Star,
    Slash,
    Modulo,
    PlusEqual,
    MinusEqual,
    StarEqual,
    SlashEqual,
    ModuloEqual,
    Less,
    Greater,
    LessEqual,
    GreaterEqual,
    EqualEqual,
    NotEqual,
    Not,
    Let,
    Const,
    If,
    Else,
    While,
    For,
    In,
    By,
    Def,
    Return,
    Print,
    IntType,
    FloatType,
    BoolType,
    VoidType,
    LeftParen,
    RightParen,
    Equals,
    Semicolon,
    LeftBrace,
    RightBrace,
    DotDot,
    DotDotEqual,
    Arrow,
    Comma,
    Eof,
}

impl View for Token {
    type V = TokenV;

    open spec fn view(&self) -> TokenV {
        match self {
            Token::Int(n) => TokenV::Int(*n),
            Token::Float(s) => TokenV::Float(s@),
            Token::True => TokenV::True,
            Token::False => TokenV::False,
            Token::Identifier(s) => TokenV::Identifier(s@),
            Token::Plus => TokenV::Plus,
            Token::Minus => TokenV::Minus,
            Token::Star => TokenV::Star,
            Token::Slash => TokenV::Slash,
            Token::Modulo => TokenV::Modulo,
            Token::PlusEqual => TokenV::PlusEqual,
            Token::MinusEqual => TokenV::MinusEqual,
            Token::StarEqual => TokenV::StarEqual,
            Token::SlashEqual => TokenV::SlashEqual,
            Token::ModuloEqual => TokenV::ModuloEqual,
            Token::Less => TokenV::Less,
            Token::Greater => TokenV::Greater,
            Token::LessEqual => TokenV::LessEqual,
            Token::GreaterEqual => TokenV::GreaterEqual,
            Token::EqualEqual => TokenV::EqualEqual,
            Token::NotEqual => TokenV::NotEqual,
            Token::Not => TokenV::Not,
            Token::Let => TokenV::Let,
            Token::Const => TokenV::Const,
            Token::If => TokenV::If,
            Token::Else => TokenV::Else,
            Token::While => TokenV::While,
            Token::For => TokenV::For,
            Token::In => TokenV::In,
            Token::By => TokenV::By,
            Token::Def => TokenV::Def,
            Token::Return => TokenV::Return,
            Token::Print => TokenV::Print,
            Token::IntType => TokenV::IntType,
            Token::FloatType => TokenV::FloatType,
            Token::BoolType => TokenV::BoolType,
            Token::VoidType => TokenV::VoidType,
            Token::LeftParen => TokenV::LeftParen,
            Token::RightParen => TokenV::RightParen,
            Token::Equals => TokenV::Equals,
            Token::Semicolon => TokenV::Semicolon,
            Token::LeftBrace => TokenV::LeftBrace,
            Token::RightBrace => TokenV::RightBrace,
            Token::DotDot => TokenV::DotDot,
            Token::DotDotEqual => TokenV::DotDotEqual,
            Token::Arrow => TokenV::Arrow,
            Token::Comma => TokenV::Comma,
            Token::Eof => TokenV::Eof,
        }
    }
}

impl PartialEq for Token {
    fn eq(&self, other: &Token) -> (r: bool) {
        match self {
            Token::Int(a) => match other {
                Token::Int(b) => *a == *b,
                _ => false,
            },
            Token::Float(a) => match other {
                Token::Float(b) => *a == *b,
                _ => false,
            },
            Token::True => matches!(other, Token::True),
            Token::False => matches!(other, Token::False),
            Token::Identifier(a) => match other {
                Token::Identifier(b) => *a == *b,
                _ => false,
            },
            Token::Plus => matches!(other, Token::Plus),
            Token::Minus => matches!(other, Token::Minus),
            Token::Star => matches!(other, Token::Star),
            Token::Slash => matches!(other, Token::Slash),
            Token::Modulo => matches!(other, Token::Modulo),
            Token::PlusEqual => matches!(other, Token::PlusEqual),
            Token::MinusEqual => matches!(other, Token::MinusEqual),
            Token::StarEqual => matches!(other, Token::StarEqual),
            Token::SlashEqual => matches!(other, Token::SlashEqual),
            Token::ModuloEqual => matches!(other, Token::ModuloEqual),
            Token::Less => matches!(other, Token::Less),
            Token::Greater => matches!(other, Token::Greater),
            Token::LessEqual => matches!(other, Token::LessEqual),
            Token::GreaterEqual => matches!(other, Token::GreaterEqual),
            Token::EqualEqual => matches!(other, Token::EqualEqual),
            Token::NotEqual => matches!(other, Token::NotEqual),
            Token::Not => matches!(other, Token::Not),
            Token::Let => matches!(other, Token::Let),
            Token::Const => matches!(other, Token::Const),
            Token::If => matches!(other, Token::If),
            Token::Else => matches!(other, Token::Else),
            Token::While => matches!(other, Token::While),
            Token::For => matches!(other, Token::For),
            Token::In => matches!(other, Token::In),
            Token::By => matches!(other, Token::By),
            Token::Def => matches!(other, Token::Def),
            Token::Return => matches!(other, Token::Return),
            Token::Print => matches!(other, Token::Print),
            Token::IntType => matches!(other, Token::IntType),
            Token::FloatType => matches!(other, Token::FloatType),
            Token::BoolType => matches!(other, Token::BoolType),
            Token::VoidType => matches!(other, Token::VoidType),
            Token::LeftParen => matches!(other, Token::LeftParen),
            Token::RightParen => matches!(other, Token::RightParen),
            Token::Equals => matches!(other, Token::Equals),
            Token::Semicolon => matches!(other, Token::Semicolon),
            Token::LeftBrace => matches!(other, Token::LeftBrace),
            Token::RightBrace => matches!(other, Token::RightBrace),
            Token::DotDot => matches!(other, Token::DotDot),
            Token::DotDotEqual => matches!(other, Token::DotDotEqual),
            Token::Arrow => matches!(other, Token::Arrow),
            Token::Comma => matches!(other, Token::Comma),
            Token::Eof => matches!(other, Token::Eof),
        }
    }
}

impl vstd::std_specs::cmp::PartialEqSpecImpl for Token {
    open spec fn obeys_eq_spec() -> bool {
        true
    }

    open spec fn eq_spec(&self, other: &Token) -> bool {
        self@ == other@
    }
}

impl Token {
    /// A copy of this token.
    pub fn duplicate(&self) -> (r: Token)
        ensures
            r@ == self@,
    {
        match self {
            Token::Int(n) => Token::Int(*n),
            Token::Float(t) => Token::Float(t.clone()),
            Token::True => Token::True,
            Token::False => Token::False,
            Token::Identifier(t) => Token::Identifier(t.clone()),
            Token::Plus => Token::Plus,
            Token::Minus => Token::Minus,
            Token::Star => Token::Star,
            Token::Slash => Token::Slash,
            Token::Modulo => Token::Modulo,
            Token::PlusEqual => Token::PlusEqual,
            Token::MinusEqual => Token::MinusEqual,
            Token::StarEqual => Token::StarEqual,
            Token::SlashEqual => Token::SlashEqual,
            Token::ModuloEqual => Token::ModuloEqual,
            Token::Less => Token::Less,
            Token::Greater => Token::Greater,
            Token::LessEqual => Token::LessEqual,
            Token::GreaterEqual => Token::GreaterEqual,
            Token::EqualEqual => Token::EqualEqual,
            Token::NotEqual => Token::NotEqual,
            Token::Not => Token::Not,
            Token::Let => Token::Let,
            Token::Const => Token::Const,
            Token::If => Token::If,
            Token::Else => Token::Else,
            Token::While => Token::While,
            Token::For => Token::For,
            Token::In => Token::In,
            Token::By => Token::By,
            Token::Def => Token::Def,
            Token::Return => Token::Return,
            Token::Print => Token::Print,
            Token::IntType => Token::IntType,
            Token::FloatType => Token::FloatType,
            Token::BoolType => Token::BoolType,
            Token::VoidType => Token::VoidType,
            Token::LeftParen => Token::LeftParen,
            Token::RightParen => Token::RightParen,
            Token::Equals => Token::Equals,
            Token::Semicolon => Token::Semicolon,
            Token::LeftBrace => Token::LeftBrace,
            Token::RightBrace => Token::RightBrace,
            Token::DotDot => Token::DotDot,
            Token::DotDotEqual => Token::DotDotEqual,
            Token::Arrow => Token::Arrow,
            Token::Comma => Token::Comma,
            Token::Eof => Token::Eof,
        }
    }
}

/// The views of a sequence of tokens.
pub open spec fn tokens_view(ts: Seq<Token>) -> Seq<TokenV> {
    ts.map_values(|t: Token| t@)
}

} // verus!
