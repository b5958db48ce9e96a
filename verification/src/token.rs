//! Token kinds of the KerML surface syntax.
use vstd::prelude::*;
use crate::span::Span;

verus! {

#[derive(Clone, Copy, Debug, PartialEq, Eq, Structural)]
pub enum TokenKind {
    // Keywords
    Package,
    Import,
    Type,
    Feature,
    Specializes,
    Conjugation,
    Conjugate,
    Conjugates,
    Chains,
    In,
    Out,
    InOut,
    Public,
    Private,
    Protected,
    Member,
    // Literals
    IntLiteral,
    StringLiteral,
    // Identifiers
    Ident,
    // Punctuation
    LBrace,
    RBrace,
    LBracket,
    RBracket,
    LParen,
    RParen,
    Semicolon,
    Colon,
    ColonColon,
    ColonGt,
    Dot,
    DotDot,
    Comma,
    Tilde,
    Star,
    Plus,
    Minus,
    Slash,
    Eq,
    // Special
    Comment,
    Whitespace,
    Eof,
    Error,
}

#[derive(Clone, Copy, Debug, PartialEq, Eq, Structural)]
pub struct Token {
    pub kind: TokenKind,
    pub span: Span,
}

} // verus!
