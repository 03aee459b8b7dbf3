//! The failures of reading path data.

use vstd::prelude::*;
use vstd::string::StringExecFns;

verus! {

/// Why a path string could not be turned into segments. Each failure ends the
/// whole parse: no partial result is ever returned beside it.
#[derive(Debug, PartialEq, Eq)]
pub enum ParseError {
    /// A character of the input starts no token.
    InvalidToken(char),
    /// A token stands where a number is expected and is not a number.
    UnexpectedParameter(String),
    /// The input ends before the command has all its parameters.
    InsufficientParameters(char),
}

/// A `ParseError` with its token as a sequence of characters.
pub enum ParseErrorView {
    InvalidToken(char),
    UnexpectedParameter(Seq<char>),
    InsufficientParameters(char),
}

impl View for ParseError {
    type V = ParseErrorView;

    open spec fn view(&self) -> ParseErrorView {
        match *self {
            ParseError::InvalidToken(c) => ParseErrorView::InvalidToken(c),
            ParseError::UnexpectedParameter(s) => ParseErrorView::UnexpectedParameter(s@),
            ParseError::InsufficientParameters(c) => ParseErrorView::InsufficientParameters(c),
        }
    }
}

impl ParseErrorView {
    /// The sentence that reports the failure.
    pub open spec fn message(self) -> Seq<char> {
        match self {
            ParseErrorView::InvalidToken(c) => "Unexpected token: "@.push(c),
            ParseErrorView::UnexpectedParameter(s) => "Unexpected parameter: "@ + s,
            ParseErrorView::InsufficientParameters(c) => "Lack of parameter: "@.push(c),
        }
    }
}

impl ParseError {
    /// The sentence that reports the failure, ending in the offending
    /// character, token or command.
    pub fn message(&self) -> (r: String)
        ensures
            r@ == self@.message(),
    {
        match self {
            ParseError::InvalidToken(c) => {
                let mut m = "Unexpected token: ".to_owned();
                m.push(*c);
                m
            },
            ParseError::UnexpectedParameter(s) => {
                let mut m = "Unexpected parameter: ".to_owned();
                m.append(s.as_str());
                m
            },
            ParseError::InsufficientParameters(c) => {
                let mut m = "Lack of parameter: ".to_owned();
                m.push(*c);
                m
            },
        }
    }
}

} // verus!
