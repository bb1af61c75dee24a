use vstd::prelude::*;
use vstd::string::StringExecFns;
use crate::token::{Token, token_text};

verus! {

/// Every way in which lexing, parsing or evaluating a line can fail.
#[derive(Debug, Clone, Copy, PartialEq, Eq, Structural)]
pub enum CalcError {
    /// The right operand of `/` was zero.
    DivisionByZero,
    /// A required token (`expected`) was missing; `actual` stood in its place.
    UnexpectedToken(Token, Token),
    /// The lexer met a character that starts no token.
    InvalidInput(char),
    /// A token appeared where no grammar rule accepts it.
    IllegalToken(Token),
    /// A literal or an intermediate result left the range of `i64`.
    Overflow,
}

/// The text shown to a user for a failure.
pub open spec fn message_text(e: CalcError) -> Seq<char> {
    match e {
        CalcError::DivisionByZero => "DivisionByZero: This operation will panic at runtime"@,
        CalcError::UnexpectedToken(expected, actual) => "UnexpectedToken: Expected "@ + token_text(
            expected,
        ) + ", but got "@ + token_text(actual),
        CalcError::InvalidInput(c) => "Invalid input: "@.push(c),
        CalcError::IllegalToken(t) => "Illegal Token: "@ + token_text(t),
        CalcError::Overflow => "Overflow: the value does not fit in an i64"@,
    }
}

impl CalcError {
    /// The failure as it is shown to a user.
    pub fn message(&self) -> (r: String)
        ensures
            r@ == message_text(*self),
    {
        match *self {
            CalcError::DivisionByZero => String::from_str(
                "DivisionByZero: This operation will panic at runtime",
            ),
            CalcError::UnexpectedToken(expected, actual) => {
                let mut out = String::from_str("UnexpectedToken: Expected ");
                out.append(expected.text().as_str());
                out.append(", but got ");
                out.append(actual.text().as_str());
                out
            },
            CalcError::InvalidInput(c) => {
                let mut out = String::from_str("Invalid input: ");
                push_char(&mut out, c);
                out
            },
            CalcError::IllegalToken(t) => {
                let mut out = String::from_str("Illegal Token: ");
                out.append(t.text().as_str());
                out
            },
            CalcError::Overflow => String::from_str("Overflow: the value does not fit in an i64"),
        }
    }
}

/// Relies on `String::push`, which appends one character at the end.
#[verifier::external_body]
fn push_char(s: &mut String, c: char)
    ensures
        final(s)@ == old(s)@.push(c),
{
    s.push(c)
}

} // verus!
