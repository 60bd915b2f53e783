//! Lexical tokens: a discriminated kind, a decoded value where one applies,
//! and the source position at which the token was finished.

use vstd::prelude::*;

verus! {

/// The kind of a token, with its decoded value where one applies.
#[derive(PartialEq, Clone, Debug)]
#[allow(non_camel_case_types)]
pub enum TokenType {
    INT(u32),
    STR(String),
    IDENT(String),
    LPAREN,
    RPAREN,
    LBRACE,
    RBRACE,
    LBRACKET,
    RBRACKET,
    ADD,
    EOF,
    SUB,
    MUL,
    DIV,
    MOD,
    BAND,
    BOR,
    BXOR,
    LT,
    GT,
    LTOE,
    GTOE,
    EQ,
    NEQ,
    SLT,
    SGT,
    SLTOE,
    SGTOE,
    BNOT,
    AT,
    DAT,
    DEF,
    INVALID,
}

/// Mathematical counterpart of `TokenType`: string payloads abstracted to
/// character sequences. Contracts speak of this form.
pub enum TokenModel {
    Int(u32),
    Str(Seq<char>),
    Ident(Seq<char>),
    LParen,
    RParen,
    LBrace,
    RBrace,
    LBracket,
    RBracket,
    Plus,
    Eof,
    Minus,
    Times,
    Slash,
    Percent,
    BitAnd,
    BitOr,
    BitXor,
    Less,
    Greater,
    LessOrEqual,
    GreaterOrEqual,
    Equal,
    NotEqual,
    SignedLess,
    SignedGreater,
    SignedLessOrEqual,
    SignedGreaterOrEqual,
    BitNot,
    At,
    DoubleAt,
    Def,
    Invalid,
}

/// Abstraction of a token kind to its mathematical form.
pub open spec fn token_type_view(t: TokenType) -> TokenModel {
    match t {
        TokenType::INT(v) => TokenModel::Int(v),
        TokenType::STR(s) => TokenModel::Str(s@),
        TokenType::IDENT(s) => TokenModel::Ident(s@),
        TokenType::LPAREN => TokenModel::LParen,
        TokenType::RPAREN => TokenModel::RParen,
        TokenType::LBRACE => TokenModel::LBrace,
        TokenType::RBRACE => TokenModel::RBrace,
        TokenType::LBRACKET => TokenModel::LBracket,
        TokenType::RBRACKET => TokenModel::RBracket,
        TokenType::ADD => TokenModel::Plus,
        TokenType::EOF => TokenModel::Eof,
        TokenType::SUB => TokenModel::Minus,
        TokenType::MUL => TokenModel::Times,
        TokenType::DIV => TokenModel::Slash,
        TokenType::MOD => TokenModel::Percent,
        TokenType::BAND => TokenModel::BitAnd,
        TokenType::BOR => TokenModel::BitOr,
        TokenType::BXOR => TokenModel::BitXor,
        TokenType::LT => TokenModel::Less,
        TokenType::GT => TokenModel::Greater,
        TokenType::LTOE => TokenModel::LessOrEqual,
        TokenType::GTOE => TokenModel::GreaterOrEqual,
        TokenType::EQ => TokenModel::Equal,
        TokenType::NEQ => TokenModel::NotEqual,
        TokenType::SLT => TokenModel::SignedLess,
        TokenType::SGT => TokenModel::SignedGreater,
        TokenType::SLTOE => TokenModel::SignedLessOrEqual,
        TokenType::SGTOE => TokenModel::SignedGreaterOrEqual,
        TokenType::BNOT => TokenModel::BitNot,
        TokenType::AT => TokenModel::At,
        TokenType::DAT => TokenModel::DoubleAt,
        TokenType::DEF => TokenModel::Def,
        TokenType::INVALID => TokenModel::Invalid,
    }
}

/// A token together with the row and column at which it was finished.
#[derive(Clone, Debug)]
pub struct Token {
    pub token_type: TokenType,
    pub row: u32,
    pub col: u32,
}

impl Token {
    /// A token of the given kind at the given position.
    pub fn new(token_type: TokenType, row: u32, col: u32) -> (t: Token)
        ensures
            t.token_type == token_type,
            t.row == row,
            t.col == col,
    {
        Token { token_type, row, col }
    }
}

} // verus!
