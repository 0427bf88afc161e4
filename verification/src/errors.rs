//! Parse failures: what went wrong, and where in the input.

use crate::text::{decimal, decimal_text};
use vstd::prelude::*;
use vstd::string::StringExecFns;

verus! {

/// The ways in which a text can fail to be a JSON document.
#[derive(Clone, Copy, Debug, PartialEq, Eq, Structural)]
pub enum ErrorKind {
    /// The input at this position starts no alternative of the grammar.
    UnexpectedToken,
    /// A quoted string has no closing quote before the input ends.
    UnterminatedString,
    /// A backslash is followed by a character outside the supported escapes.
    InvalidEscape,
    /// An array or object is not closed before the input ends.
    UnterminatedContainer,
    /// Something other than whitespace follows a complete top-level value.
    TrailingInput,
    /// Arrays and objects are nested more deeply than the parser allows.
    NestingTooDeep,
}

/// The mathematical content of a failure: its kind and the index of the
/// character at which it was detected.
pub struct Failure {
    pub kind: ErrorKind,
    pub at: int,
}

/// A parse failure as the executable parser reports it. Each variant carries
/// the index (in characters) at which the failure was detected.
#[derive(Clone, Copy, Debug, PartialEq, Eq, Structural)]
pub enum JsonError {
    UnexpectedToken(usize),
    UnterminatedString(usize),
    InvalidEscape(usize),
    UnterminatedContainer(usize),
    TrailingInput(usize),
    NestingTooDeep(usize),
}

/// The words for a kind of failure.
pub open spec fn kind_words(kind: ErrorKind) -> Seq<char> {
    match kind {
        ErrorKind::UnexpectedToken => "unexpected token"@,
        ErrorKind::UnterminatedString => "unterminated string"@,
        ErrorKind::InvalidEscape => "invalid escape"@,
        ErrorKind::UnterminatedContainer => "unterminated array or object"@,
        ErrorKind::TrailingInput => "trailing input"@,
        ErrorKind::NestingTooDeep => "nesting too deep"@,
    }
}

/// The message for a failure: the words for its kind, and its place.
pub open spec fn message(f: Failure) -> Seq<char> {
    kind_words(f.kind) + " at character "@ + decimal(f.at as nat)
}

impl View for JsonError {
    type V = Failure;

    open spec fn view(&self) -> Failure {
        Failure { kind: self.spec_kind(), at: self.spec_position() as int }
    }
}

impl JsonError {
    pub open spec fn spec_kind(&self) -> ErrorKind {
        match self {
            JsonError::UnexpectedToken(_) => ErrorKind::UnexpectedToken,
            JsonError::UnterminatedString(_) => ErrorKind::UnterminatedString,
            JsonError::InvalidEscape(_) => ErrorKind::InvalidEscape,
            JsonError::UnterminatedContainer(_) => ErrorKind::UnterminatedContainer,
            JsonError::TrailingInput(_) => ErrorKind::TrailingInput,
            JsonError::NestingTooDeep(_) => ErrorKind::NestingTooDeep,
        }
    }

    pub open spec fn spec_position(&self) -> usize {
        match self {
            JsonError::UnexpectedToken(p) => *p,
            JsonError::UnterminatedString(p) => *p,
            JsonError::InvalidEscape(p) => *p,
            JsonError::UnterminatedContainer(p) => *p,
            JsonError::TrailingInput(p) => *p,
            JsonError::NestingTooDeep(p) => *p,
        }
    }

    /// Builds the error of the given kind at the given position.
    pub fn new(kind: ErrorKind, position: usize) -> (e: JsonError)
        ensures
            e@ == (Failure { kind, at: position as int }),
    {
        match kind {
            ErrorKind::UnexpectedToken => JsonError::UnexpectedToken(position),
            ErrorKind::UnterminatedString => JsonError::UnterminatedString(position),
            ErrorKind::InvalidEscape => JsonError::InvalidEscape(position),
            ErrorKind::UnterminatedContainer => JsonError::UnterminatedContainer(position),
            ErrorKind::TrailingInput => JsonError::TrailingInput(position),
            ErrorKind::NestingTooDeep => JsonError::NestingTooDeep(position),
        }
    }

    /// The kind of this failure.
    #[verifier::when_used_as_spec(spec_kind)]
    pub fn kind(&self) -> (k: ErrorKind)
        ensures
            k == self.spec_kind(),
    {
        match self {
            JsonError::UnexpectedToken(_) => ErrorKind::UnexpectedToken,
            JsonError::UnterminatedString(_) => ErrorKind::UnterminatedString,
            JsonError::InvalidEscape(_) => ErrorKind::InvalidEscape,
            JsonError::UnterminatedContainer(_) => ErrorKind::UnterminatedContainer,
            JsonError::TrailingInput(_) => ErrorKind::TrailingInput,
            JsonError::NestingTooDeep(_) => ErrorKind::NestingTooDeep,
        }
    }

    /// The index of the character at which the failure was detected.
    #[verifier::when_used_as_spec(spec_position)]
    pub fn position(&self) -> (p: usize)
        ensures
            p == self.spec_position(),
    {
        match self {
            JsonError::UnexpectedToken(p) => *p,
            JsonError::UnterminatedString(p) => *p,
            JsonError::InvalidEscape(p) => *p,
            JsonError::UnterminatedContainer(p) => *p,
            JsonError::TrailingInput(p) => *p,
            JsonError::NestingTooDeep(p) => *p,
        }
    }

    /// A message for the reader: what went wrong, and at which character.
    pub fn description(&self) -> (text: String)
        ensures
            text@ == message(self@),
    {
        let words = match self {
            JsonError::UnexpectedToken(_) => "unexpected token",
            JsonError::UnterminatedString(_) => "unterminated string",
            JsonError::InvalidEscape(_) => "invalid escape",
            JsonError::UnterminatedContainer(_) => "unterminated array or object",
            JsonError::TrailingInput(_) => "trailing input",
            JsonError::NestingTooDeep(_) => "nesting too deep",
        };
        let mut text = words.to_owned();
        text.append(" at character ");
        let place = decimal_text(self.position());
        text.append(place.as_str());
        text
    }
}

} // verus!
