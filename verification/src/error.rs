//! The error that chart parsing reports.

use vstd::prelude::*;
use crate::text::{decimal, push_decimal};

verus! {

/// A parse failure: a message and, where known, the position at which it was
/// found.
#[derive(Debug, Clone, PartialEq)]
pub struct ParseError {
    pub message: String,
    /// Where the error was found, when known. The fragment parser gives a
    /// byte index into the fragment; [`crate::locate::chart_offset`] turns it
    /// into a character offset into the whole chart body.
    pub offset: Option<usize>,
}

/// The mathematical content of a [`ParseError`].
pub struct ErrorView {
    pub message: Seq<char>,
    pub offset: Option<usize>,
}

impl View for ParseError {
    type V = ErrorView;

    open spec fn view(&self) -> ErrorView {
        ErrorView { message: self.message@, offset: self.offset }
    }
}

/// An error with `message` and no position.
pub fn err<T>(message: String) -> (r: Result<T, ParseError>)
    ensures
        r matches Err(e) && e@ == (ErrorView { message: message@, offset: None }),
{
    Err(ParseError { message, offset: None })
}

/// The text of an error as it is shown to a user.
pub open spec fn display_text(e: ErrorView) -> Seq<char> {
    match e.offset {
        Some(o) => "Simai parse error at offset "@ + decimal(o as nat) + ": "@ + e.message,
        None => "Simai parse error: "@ + e.message,
    }
}

impl ParseError {
    /// The text of the error as it is shown to a user.
    pub fn to_display_string(&self) -> (s: String)
        ensures
            s@ == display_text(self@),
    {
        match self.offset {
            Some(o) => {
                let mut s = String::from_str("Simai parse error at offset ");
                push_decimal(&mut s, o as u64);
                s.append(": ");
                s.append(self.message.as_str());
                s
            },
            None => {
                let mut s = String::from_str("Simai parse error: ");
                s.append(self.message.as_str());
                s
            },
        }
    }
}

} // verus!
