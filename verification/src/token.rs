//! The closed set of lexical categories emitted by the scanner.
//!
//! Tokens are generic in the payload type `S` so that callers may choose how
//! textual payloads are owned; the scanner emits `Token<String>`.  A float
//! literal's payload is the literal's decimal text with the underscore
//! separators removed; turning that text into a machine float is left to a
//! later compilation phase.

use vstd::prelude::*;

verus! {

/// A string-literal payload: either raw text or text still carrying its
/// escape sequences undecoded.
#[derive(Clone, PartialEq, Eq, Hash, Debug)]
pub enum StringLiteral<S> {
    Escaped(S),
    Raw(S),
}

/// Whether a comment was a line comment or a block comment.
#[derive(Clone, PartialEq, Eq, Hash, Debug)]
pub enum CommentType {
    Block,
    Line,
}

/// The trimmed inner text of a comment, with its kind.
#[derive(Clone, PartialEq, Eq, Hash, Debug)]
pub struct Comment<S> {
    pub typ: CommentType,
    pub content: S,
}

/// One lexical token.
#[derive(Clone, PartialEq, Eq, Hash, Debug)]
pub enum Token<S> {
    IntLiteral(i64),
    /// The literal's decimal text, underscores removed (e.g. `1234.56e-2`).
    FloatLiteral(S),
    BoolLiteral(bool),
    CharLiteral(char),
    StringDelimiter,
    String(StringLiteral<S>),
    /// The raw lines of a heredoc body, in order.
    HeredocString(Vec<S>),
    StringInterpolation,
    StringDirective,
    Comment(Comment<S>),
    DocComment(Comment<S>),
    // Operators
    LogicalNot,
    LogicalAnd,
    LogicalOr,
    BitwiseNot,
    BitwiseAnd,
    BitwiseOr,
    BitwiseXOr,
    BitwiseShiftLeft,
    BitwiseShiftRight,
    Multiplication,
    Division,
    Modulo,
    Addition,
    Subtraction,
    Equal,
    NotEqual,
    Less,
    LessOrEqual,
    Greater,
    GreaterOrEqual,
    Dot,
    DotDot,
    Assign,
    RArrow,
    Comma,
    LBrace,
    LBracket,
    LParen,
    RBrace,
    RBracket,
    RParen,
    // Keywords
    Resource,
    Data,
    Provider,
    Module,
    Let,
    If,
    Else,
    Forall,
    In,
    Do,
    Break,
    Continue,
    Match,
    Return,
    Identifier(S),
    EOF,
}

} // verus!
