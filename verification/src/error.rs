//! The ways an operation of the engine can fail.

use vstd::prelude::*;

verus! {

/// Why an operation did not succeed.
#[derive(Clone, Copy, Debug, PartialEq, Eq, Structural)]
pub enum Error {
    /// The driver reported that a file operation failed.
    Io,
    /// A record header claims an over-limit length, or the data ends in the
    /// middle of a record.
    Corrupt,
    /// A key or a value is longer than the maximum entry size.
    TooLarge,
    /// Every generation number has been handed out.
    Exhausted,
    /// An operation was started while another was in progress, or a reply did
    /// not answer the request that was pending.
    OutOfTurn,
}

impl Error {
    /// The text that describes each failure.
    pub open spec fn spec_message(self) -> Seq<char> {
        match self {
            Error::Io => "file operation failed"@,
            Error::Corrupt => "corrupt record"@,
            Error::TooLarge => "key or value too large"@,
            Error::Exhausted => "generation numbers exhausted"@,
            Error::OutOfTurn => "operation out of turn"@,
        }
    }

    /// A short description of the failure.
    pub fn message(&self) -> (text: &'static str)
        ensures
            text@ == self.spec_message(),
    {
        match self {
            Error::Io => "file operation failed",
            Error::Corrupt => "corrupt record",
            Error::TooLarge => "key or value too large",
            Error::Exhausted => "generation numbers exhausted",
            Error::OutOfTurn => "operation out of turn",
        }
    }
}

} // verus!
