//! The errors that the two queue operations report.

use vstd::prelude::*;

verus! {

/// Possible errors for submitting to a queue.
#[derive(Clone, Copy, Debug, PartialEq, Eq, PartialOrd, Ord, Structural)]
pub enum SubmissionError {
    /// An unknown error. No operation reports it yet.
    Unknown,
    /// The operation would have blocked, and non-blocking operation was specified.
    WouldBlock,
}

/// Possible errors for receiving from a queue.
#[derive(Clone, Copy, Debug, PartialEq, Eq, PartialOrd, Ord, Structural)]
pub enum ReceiveError {
    /// An unknown error. No operation reports it yet.
    Unknown,
    /// The operation would have blocked, and non-blocking operation was specified.
    WouldBlock,
}

} // verus!
