//! The ways in which a run can end early.

use vstd::prelude::*;

verus! {

/// Why a run stopped. Every one of them is final: nothing is retried, and no
/// file after the failing one is read or printed.
#[derive(Debug, Clone, Copy, PartialEq, Eq, Structural)]
pub enum Error {
    /// No file was named on the command line.
    Usage,
    /// The file at this position of the file list could not be opened.
    Open { index: usize },
    /// The size of the file at this position could not be determined.
    Metadata { index: usize },
    /// The ring could not be created.
    QueueSetup,
    /// A read could not be handed to the ring.
    Submission,
    /// Waiting for a completion failed.
    CompletionWait,
    /// What a read left in the buffers is not valid UTF-8.
    Decoding,
    /// The ring answered out of turn, or a completion carried the tag of
    /// another read.
    Protocol,
}

} // verus!
