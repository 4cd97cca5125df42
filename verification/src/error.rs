//! The error taxonomy of the pipeline.
//!
//! Every stage surfaces its own error to the caller; nothing is recovered
//! silently, and the first error aborts a run.

use vstd::prelude::*;

verus! {

/// One error kind per pipeline stage.
#[derive(Debug)]
pub enum Error {
    /// Malformed list or identifier reference in the token stream.
    Lex(String),
    /// Missing or unexpected token, or an invalid port number.
    Parse(String),
    /// Unparseable address, unknown protocol, or invalid builder state.
    InvalidInput(String),
    /// Inconsistent IP version between the parts of a rule.
    Build(String),
    /// The external C compiler failed.
    Compile(String),
    /// A kernel-level operation failed; carries the numeric code.
    System(i32),
    /// I/O or serialization failure inside the pipeline itself.
    Internal(String),
}

impl Error {
    /// A one-line description, in place of a `Display` implementation.
    pub fn message(&self) -> String {
        match self {
            Error::Lex(m) => String::from_str("lex error: ").concat(m.as_str()),
            Error::Parse(m) => String::from_str("parse error: ").concat(m.as_str()),
            Error::InvalidInput(m) => String::from_str("invalid input: ").concat(m.as_str()),
            Error::Build(m) => String::from_str("error when building: ").concat(m.as_str()),
            Error::Compile(m) => String::from_str("compile error: ").concat(m.as_str()),
            Error::System(_) => String::from_str("system error"),
            Error::Internal(m) => String::from_str("internal error: ").concat(m.as_str()),
        }
    }
}

} // verus!
