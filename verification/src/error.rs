//! Errors of the solver's entry points and the tagged envelope they are
//! reported in.

use vstd::prelude::*;

verus! {

/// An error of a solver entry point.
#[derive(Debug, Clone, PartialEq, Eq)]
pub enum Error {
    /// The input could not be read or written; the text says why.
    Input(String),
}

/// Tagged envelope of an error, borrowing its text: the wire form an
/// outside caller branches on.
#[derive(Debug)]
pub enum ErrorEnvelope<'a> {
    /// An input error with its reason.
    Input {
        /// Human-readable description of the input failure.
        reason: &'a str,
    },
}

/// The envelope reports the error's variant with the error's text.
pub open spec fn envelope_of(env: ErrorEnvelope, e: Error) -> bool {
    match (env, e) {
        (ErrorEnvelope::Input { reason }, Error::Input(msg)) => reason@ == msg@,
    }
}

impl<'a> From<&'a Error> for ErrorEnvelope<'a> {
    /// Wrap the error: an input error becomes an input envelope whose reason
    /// is the error's text.
    fn from(e: &'a Error) -> (r: ErrorEnvelope<'a>)
        ensures
            envelope_of(r, *e),
    {
        match e {
            Error::Input(msg) => ErrorEnvelope::Input { reason: msg.as_str() },
        }
    }
}

/// The envelope borrows the error's text, and equal texts need not be the
/// same borrowed value, so `from` is described by `envelope_of` on its own
/// result rather than by a value that `from_spec` could name.
impl<'a> vstd::std_specs::convert::FromSpecImpl<&'a Error> for ErrorEnvelope<'a> {
    open spec fn obeys_from_spec() -> bool {
        false
    }

    open spec fn from_spec(e: &'a Error) -> ErrorEnvelope<'a> {
        arbitrary()
    }
}

} // verus!
