//! What can go wrong while building canonical text or scanning source.
use vstd::prelude::*;

verus! {

/// The kinds of failure. Each aborts the call that met it.
#[derive(Clone, Copy, Debug, PartialEq, Eq, Structural)]
pub enum ErrorKind {
    /// The normalized text would not fit the 32-bit length field.
    InputTooLarge,
    /// The normalized text holds a NUL character, so it has no C-string view.
    ContainsNul,
    /// A radix prefix with no digit after it, or a literal beyond 64 bits.
    InvalidNumericLiteral,
    /// A string literal with no closing quote.
    UnterminatedString,
    /// A block comment whose openers are not all closed.
    UnterminatedComment,
    /// A character that starts no token.
    UnrecognizedCharacter,
    /// A numeral run straight into an identifier character.
    AmbiguousNumeralIdentifierAdjacency,
    /// A string literal prefix other than `c` or `C`.
    UnrecognizedStringPrefix,
    /// A backslash inside a string literal: escapes are not supported.
    UnsupportedEscape,
}

impl ErrorKind {
    /// A short description of the failure.
    pub fn describe(&self) -> &'static str {
        match self {
            ErrorKind::InputTooLarge => "text too large after normalization",
            ErrorKind::ContainsNul => "text contains a NUL character",
            ErrorKind::InvalidNumericLiteral => "invalid numeric literal",
            ErrorKind::UnterminatedString => "unterminated string literal",
            ErrorKind::UnterminatedComment => "unterminated block comment",
            ErrorKind::UnrecognizedCharacter => "unrecognized character",
            ErrorKind::AmbiguousNumeralIdentifierAdjacency => "numeral directly followed by an identifier character",
            ErrorKind::UnrecognizedStringPrefix => "unrecognized string literal prefix",
            ErrorKind::UnsupportedEscape => "escape sequences are not supported",
        }
    }
}

} // verus!

verus! {

/// A failure with the span of source characters, `start..end`, it concerns.
#[derive(Clone, Copy, Debug, PartialEq, Eq, Structural)]
pub struct LexError {
    pub kind: ErrorKind,
    pub start: usize,
    pub end: usize,
}

} // verus!
