//! Why a parser did not match.
use vstd::prelude::*;
use vstd::string::StringExecFns;

verus! {

/// The outcome of a parser that did not match its input.
#[derive(Debug, Clone, Copy, PartialEq, Eq, Structural)]
pub enum ParseError {
    /// The input does not match here; an enclosing choice may try another rule.
    Error,
    /// The input does not match and no other rule is to be tried: a committed
    /// rule failed.
    Failure,
}

impl ParseError {
    /// The message of the error, starting with `parse error:`. Where in the
    /// input the parse failed is not part of it.
    pub fn message(&self) -> (r: String)
        ensures
            r@ == (match self {
                ParseError::Error => "parse error: the input does not match the format"@,
                ParseError::Failure => "parse error: a required part is malformed"@,
            }),
    {
        match self {
            ParseError::Error => String::from_str("parse error: the input does not match the format"),
            ParseError::Failure => String::from_str("parse error: a required part is malformed"),
        }
    }
}

} // verus!
