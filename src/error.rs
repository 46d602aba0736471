use vstd::prelude::*;

verus! {

/// The errors that the store reports.
#[derive(Debug, Clone, PartialEq, Eq)]
pub enum KvsError {
    /// An underlying I/O operation failed; the text says how.
    Io(String),
    /// The bytes of a log segment or of a message do not form a record.
    CorruptRecord,
    /// The directory was first used with another engine.
    EngineMismatch,
    /// `remove` was asked for a key that the store does not hold.
    KeyNotFound,
    /// A `Remove` record was found where a `Put` record was expected.
    InvalidCommand,
    /// The store's own bookkeeping could not proceed (an offset past what
    /// the log can address, or a segment replayed out of order).
    Internal,
    /// The server answered a request with an error message.
    Server(String),
}

} // verus!
