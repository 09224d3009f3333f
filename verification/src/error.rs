//! The single error kind of the assembler.

use vstd::prelude::*;
use vstd::string::*;

use crate::text::{decimal_digits, push_decimal, push_str, to_string};

verus! {

/// What a [`ParseError`] stands for: a message and the 0-based number of the
/// source line that caused it.
pub struct ParseErrorView {
    pub message: Seq<char>,
    pub line_number: usize,
}

/// An assembly failure.
#[derive(Debug)]
pub struct ParseError {
    message: String,
    line_number: usize,
}

impl View for ParseError {
    type V = ParseErrorView;

    closed spec fn view(&self) -> ParseErrorView {
        ParseErrorView { message: self.message@, line_number: self.line_number }
    }
}

impl ParseError {
    /// The error with the given message for the given line.
    pub fn new(message: &str, line_number: usize) -> (e: Self)
        ensures
            e@ == (ParseErrorView { message: message@, line_number }),
    {
        ParseError { message: message.to_owned(), line_number }
    }

    /// The error with the given message for the given line, in a box.
    pub fn boxed(message: &str, line_number: usize) -> (e: Box<Self>)
        ensures
            e@ == (ParseErrorView { message: message@, line_number }),
    {
        Box::new(Self::new(message, line_number))
    }

    /// The message.
    pub fn message(&self) -> (m: &str)
        ensures
            m@ == self@.message,
    {
        self.message.as_str()
    }

    /// The 0-based source line the error is about.
    pub fn line_number(&self) -> (n: usize)
        ensures
            n == self@.line_number,
    {
        self.line_number
    }

    /// The text `ParseError [line N]: message`.
    pub open spec fn rendered(v: ParseErrorView) -> Seq<char> {
        "ParseError [line "@ + decimal_digits(v.line_number as nat) + "]: "@ + v.message
    }

    /// Renders the error for display.
    pub fn to_text(&self) -> (s: String)
        ensures
            s@ == Self::rendered(self@),
    {
        let mut out: Vec<char> = Vec::new();
        push_str(&mut out, "ParseError [line ");
        push_decimal(&mut out, self.line_number);
        push_str(&mut out, "]: ");
        push_str(&mut out, self.message.as_str());
        to_string(&out)
    }
}

} // verus!
