use vstd::prelude::*;

verus! {

/// The error of a write that would put a date below a newer section.
#[derive(Clone, Copy, Debug, PartialEq, Eq, Structural)]
pub struct UnsupportedError;

impl UnsupportedError {
    /// The text shown to a user.
    pub fn message(&self) -> (r: &'static str)
        ensures
            r@ == "Unsupported"@,
    {
        "Unsupported"
    }
}

/// What can go wrong when the log is read or changed.
#[derive(Clone, Copy, Debug, PartialEq, Eq, Structural)]
pub enum LogError {
    /// The first line of a non-empty log is not a `## YYYY-MM-DD` header.
    MalformedHeader,
    /// A date string is not an ISO `YYYY-MM-DD` calendar date.
    InvalidDate,
    /// The target date is earlier than the log's newest section.
    OutOfOrderDate(UnsupportedError),
}

} // verus!
