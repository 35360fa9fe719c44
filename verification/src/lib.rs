//! Lexical scanner for the RDL configuration language.
//!
//! The scanner turns raw source text into a stream of positioned tokens
//! (or positioned diagnostics).  It is context sensitive: a pushdown stack
//! of scanning modes distinguishes plain code from the inside of a quoted
//! string, a heredoc body, or an interpolated expression.  Positions track
//! line, column and absolute byte offset across variable-width UTF-8
//! characters.

pub mod chars;
pub mod error;
pub mod heredoc;
pub mod lexer;
pub mod numeric;
pub mod parser_source;
pub mod pos;
pub mod token;
