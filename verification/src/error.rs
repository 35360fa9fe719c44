//! The closed taxonomy of lexical error kinds.
//!
//! Errors come in two tiers.  Recoverable errors are pushed to the scanner's
//! diagnostic list while a placeholder token of the expected shape is still
//! emitted, so scanning continues.  Fatal errors are returned in place of a
//! token; the cursor has already advanced past the offending input, so the
//! next pull resumes cleanly.

use crate::pos::Spanned;
use vstd::prelude::*;

verus! {

/// One kind of lexical error.
#[derive(Clone, Copy, PartialEq, Eq, Hash, Debug)]
pub enum Error {
    NonParseableInt,
    NonParseableFloat,
    LiteralIncomplete,
    HexLiteralOverflow,
    HexLiteralUnderflow,
    HexLiteralWrongPrefix,
    BinLiteralWrongPrefix,
    OctLiteralWrongPrefix,
    EmptyCharLiteral,
    UnterminatedCharLiteral,
    UnterminatedHeredocDelimiter,
    MissingHeredocDelimiter,
    UnexpectedChar(char),
    UnexpectedEof,
    UnterminatedStringLiteral,
    UnexpectedEscapeCode(char),
    EmptyUnicodeEscape,
    MalformedUnicodeEscape,
    InvalidUnicodeEscape,
}

impl Error {
    /// A short human-readable description of the error kind.
    pub fn message(&self) -> &'static str {
        match self {
            Error::NonParseableInt => "cannot parse integer",
            Error::NonParseableFloat => "cannot parse float",
            Error::LiteralIncomplete => "cannot parse literal, incomplete",
            Error::HexLiteralOverflow => "cannot parse hex literal, overflow",
            Error::HexLiteralUnderflow => "cannot parse hex literal, underflow",
            Error::HexLiteralWrongPrefix => "wrong hex literal prefix, should start as '0x' or '-0x'",
            Error::BinLiteralWrongPrefix => "wrong bin literal prefix, should start as '0b' or '-0b'",
            Error::OctLiteralWrongPrefix => "wrong oct literal prefix, should start as '0o' or '-0o'",
            Error::EmptyCharLiteral => "empty char literal",
            Error::UnterminatedCharLiteral => "unterminated character literal",
            Error::UnterminatedHeredocDelimiter => "unterminated heredoc delimiter",
            Error::MissingHeredocDelimiter => "missing heredoc delimiter",
            Error::UnexpectedChar(_) => "unexpected character",
            Error::UnexpectedEof => "unexpected end of file",
            Error::UnterminatedStringLiteral => "unterminated string literal",
            Error::UnexpectedEscapeCode(_) => "unexpected escape code",
            Error::EmptyUnicodeEscape => "a unicode escape must have at least 1 hex digit",
            Error::MalformedUnicodeEscape => "format of unicode escape sequences uses braces",
            Error::InvalidUnicodeEscape => "invalid character in unicode escape",
        }
    }
}

/// A lexical error together with the source region it covers.
pub type SpannedError = Spanned<Error>;

} // verus!
