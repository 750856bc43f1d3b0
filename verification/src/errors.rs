use vstd::prelude::*;

verus! {

/// A structured parse failure. Each variant carries the character offset into
/// the original input at which the failure was detected, so the caller can
/// point at the offending place in the line it supplied.
#[derive(Debug, Clone, Copy, PartialEq, Eq, Structural)]
pub enum Error {
    /// The input ended while a production still expected a token.
    UnexpectedEnd(usize),
    /// A numeric literal token is malformed (no digits at all).
    InvalidNumber(usize),
    /// A `(` was opened but no matching `)` followed the inner expression.
    UnclosedGroup(usize),
    /// A character that cannot begin any valid production was encountered.
    UnexpectedToken(usize),
}

impl Error {
    /// The character offset, into the original input, at which the failure
    /// was detected.
    pub open spec fn spec_offset(self) -> usize {
        match self {
            Error::UnexpectedEnd(off) => off,
            Error::InvalidNumber(off) => off,
            Error::UnclosedGroup(off) => off,
            Error::UnexpectedToken(off) => off,
        }
    }

    /// Returns the character offset carried by this error.
    pub fn offset(&self) -> (off: usize)
        ensures
            off == self.spec_offset(),
    {
        match self {
            Error::UnexpectedEnd(off) => *off,
            Error::InvalidNumber(off) => *off,
            Error::UnclosedGroup(off) => *off,
            Error::UnexpectedToken(off) => *off,
        }
    }
}

} // verus!
