//! Structured failures of the codec: a kind together with the character
//! offset at which the problem was detected.

use vstd::prelude::*;

verus! {

/// Everything that can go wrong while decoding, and the one failure the
/// encoder can report (a value nested deeper than the configured limit).
#[derive(Clone, Copy, Debug, PartialEq, Eq, Structural)]
pub enum ErrorKind {
    /// End of input inside a string literal.
    UnterminatedString,
    /// A backslash followed by a character outside the escape table.
    InvalidEscape,
    /// `\u` not followed by four hex digits, or a surrogate escape with no
    /// matching partner.
    InvalidUnicodeEscape,
    /// A numeric literal that deviates from the JSON number grammar.
    InvalidNumber,
    /// A bare identifier other than `true`, `false`, `null`, or a character
    /// that cannot begin any token.
    UnexpectedToken,
    /// A token that cannot begin a value where a value (or an object key)
    /// was required.
    ExpectedValue,
    /// Something other than `:` after an object key.
    ExpectedColon,
    /// Something other than `,` or a closing bracket after a member.
    ExpectedCommaOrClose,
    /// The input ended where more tokens were required.
    UnexpectedEndOfInput,
    /// Non-whitespace text after the single top-level value.
    TrailingContent,
    /// Nesting deeper than the configured limit.
    MaxDepthExceeded,
}

/// A decode or encode failure: what went wrong and where.
///
/// `offset` counts characters from the start of the input. For
/// [`ErrorKind::MaxDepthExceeded`] raised by the encoder, which has no input
/// text, the offset is zero.
#[derive(Clone, Copy, Debug, PartialEq, Eq, Structural)]
pub struct JsonError {
    pub kind: ErrorKind,
    pub offset: usize,
}

/// The human-readable description of an error kind.
pub open spec fn spec_message(kind: ErrorKind) -> Seq<char> {
    match kind {
        ErrorKind::UnterminatedString => "unterminated string literal"@,
        ErrorKind::InvalidEscape => "invalid escape sequence"@,
        ErrorKind::InvalidUnicodeEscape => "invalid unicode escape"@,
        ErrorKind::InvalidNumber => "invalid numeric literal"@,
        ErrorKind::UnexpectedToken => "unexpected token"@,
        ErrorKind::ExpectedValue => "expected a value"@,
        ErrorKind::ExpectedColon => "expected a colon"@,
        ErrorKind::ExpectedCommaOrClose => "expected a comma or a closing bracket"@,
        ErrorKind::UnexpectedEndOfInput => "unexpected end of input"@,
        ErrorKind::TrailingContent => "trailing content after the document"@,
        ErrorKind::MaxDepthExceeded => "nesting deeper than the configured limit"@,
    }
}

impl JsonError {
    /// The human-readable description of this error's kind.
    pub fn message(&self) -> (r: String)
        ensures
            r@ == spec_message(self.kind),
    {
        match self.kind {
            ErrorKind::UnterminatedString => "unterminated string literal".to_owned(),
            ErrorKind::InvalidEscape => "invalid escape sequence".to_owned(),
            ErrorKind::InvalidUnicodeEscape => "invalid unicode escape".to_owned(),
            ErrorKind::InvalidNumber => "invalid numeric literal".to_owned(),
            ErrorKind::UnexpectedToken => "unexpected token".to_owned(),
            ErrorKind::ExpectedValue => "expected a value".to_owned(),
            ErrorKind::ExpectedColon => "expected a colon".to_owned(),
            ErrorKind::ExpectedCommaOrClose => "expected a comma or a closing bracket".to_owned(),
            ErrorKind::UnexpectedEndOfInput => "unexpected end of input".to_owned(),
            ErrorKind::TrailingContent => "trailing content after the document".to_owned(),
            ErrorKind::MaxDepthExceeded => "nesting deeper than the configured limit".to_owned(),
        }
    }
}

} // verus!
