//! The closed error taxonomy of the codec. Each variant carries a 0-based
//! position: a character index for tokenizer errors, a token index for
//! parser errors.

use vstd::prelude::*;

use crate::text::{chars_to_string, dec_str, push_dec_chars, push_str_chars};

verus! {

/// A failure of tokenizing or parsing. Errors are terminal: no partial
/// result accompanies them.
#[derive(Debug, Clone, PartialEq)]
pub enum JsonError {
    UnexpectedToken { expected: String, found: String, position: usize },
    UnexpectedEndOfInput { expected: String, position: usize },
    InvalidNumber { value: String, position: usize },
    InvalidEscape { character: char, position: usize },
    InvalidUnicode { sequence: String, position: usize },
}

/// The mathematical shape of a `JsonError`: the same five variants over
/// character sequences and unbounded positions.
pub ghost enum ErrorModel {
    UnexpectedToken { expected: Seq<char>, found: Seq<char>, position: nat },
    UnexpectedEndOfInput { expected: Seq<char>, position: nat },
    InvalidNumber { value: Seq<char>, position: nat },
    InvalidEscape { character: char, position: nat },
    InvalidUnicode { sequence: Seq<char>, position: nat },
}

impl View for JsonError {
    type V = ErrorModel;

    open spec fn view(&self) -> ErrorModel {
        match self {
            JsonError::UnexpectedToken { expected, found, position } => ErrorModel::UnexpectedToken {
                expected: expected@,
                found: found@,
                position: *position as nat,
            },
            JsonError::UnexpectedEndOfInput { expected, position } => ErrorModel::UnexpectedEndOfInput {
                expected: expected@,
                position: *position as nat,
            },
            JsonError::InvalidNumber { value, position } => ErrorModel::InvalidNumber {
                value: value@,
                position: *position as nat,
            },
            JsonError::InvalidEscape { character, position } => ErrorModel::InvalidEscape {
                character: *character,
                position: *position as nat,
            },
            JsonError::InvalidUnicode { sequence, position } => ErrorModel::InvalidUnicode {
                sequence: sequence@,
                position: *position as nat,
            },
        }
    }
}

/// The human-readable message of an error, one fixed template per kind.
pub open spec fn error_message(e: ErrorModel) -> Seq<char> {
    match e {
        ErrorModel::UnexpectedToken { expected, found, position } => "Unexpected token at position "@
            + dec_str(position) + ": expected "@ + expected + ", found "@ + found,
        ErrorModel::UnexpectedEndOfInput { expected, position } => "Unexpected end of input at position "@
            + dec_str(position) + ": expected "@ + expected,
        ErrorModel::InvalidNumber { value, position } => "Invalid number at position "@ + dec_str(
            position,
        ) + ": value "@ + value,
        ErrorModel::InvalidEscape { character, position } => "Invalid escape sequence '"@ + seq![
            character,
        ] + "' at position "@ + dec_str(position),
        ErrorModel::InvalidUnicode { sequence, position } => "Invalid Unicode escape '\\u"@
            + sequence + "' at position "@ + dec_str(position),
    }
}

impl JsonError {
    /// Renders the error as the fixed per-kind message template filled in
    /// with the carried context and position.
    pub fn message(&self) -> (r: String)
        ensures
            r@ == error_message(self@),
    {
        let mut out: Vec<char> = Vec::new();
        match self {
            JsonError::UnexpectedToken { expected, found, position } => {
                push_str_chars(&mut out, "Unexpected token at position ");
                push_dec_chars(&mut out, *position);
                push_str_chars(&mut out, ": expected ");
                push_str_chars(&mut out, expected.as_str());
                push_str_chars(&mut out, ", found ");
                push_str_chars(&mut out, found.as_str());
            },
            JsonError::UnexpectedEndOfInput { expected, position } => {
                push_str_chars(&mut out, "Unexpected end of input at position ");
                push_dec_chars(&mut out, *position);
                push_str_chars(&mut out, ": expected ");
                push_str_chars(&mut out, expected.as_str());
            },
            JsonError::InvalidNumber { value, position } => {
                push_str_chars(&mut out, "Invalid number at position ");
                push_dec_chars(&mut out, *position);
                push_str_chars(&mut out, ": value ");
                push_str_chars(&mut out, value.as_str());
            },
            JsonError::InvalidEscape { character, position } => {
                push_str_chars(&mut out, "Invalid escape sequence '");
                out.push(*character);
                push_str_chars(&mut out, "' at position ");
                push_dec_chars(&mut out, *position);
            },
            JsonError::InvalidUnicode { sequence, position } => {
                push_str_chars(&mut out, "Invalid Unicode escape '\\u");
                push_str_chars(&mut out, sequence.as_str());
                push_str_chars(&mut out, "' at position ");
                push_dec_chars(&mut out, *position);
            },
        }
        proof {
            assert(out@ =~= error_message(self@));
        }
        chars_to_string(&out)
    }
}

} // verus!
