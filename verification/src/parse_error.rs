//! A parse error that carries a message.
use vstd::prelude::*;

verus! {

/// A parse error described by a message.
#[derive(Debug)]
pub struct ParseError {
    details: String,
}

impl ParseError {
    pub closed spec fn details_spec(&self) -> Seq<char> {
        self.details@
    }

    /// An error with the message `msg`.
    pub fn new(msg: &str) -> (e: ParseError)
        ensures
            e.details_spec() == msg@,
    {
        ParseError { details: msg.to_string() }
    }

    /// The message.
    pub fn description(&self) -> (s: &str)
        ensures
            s@ == self.details_spec(),
    {
        self.details.as_str()
    }
}

} // verus!
