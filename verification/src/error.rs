//! Protocol error codes as the cluster's wire format defines them.

use vstd::prelude::*;

verus! {

/// An error a node may return to a client, with the numeric code the wire
/// format assigns to it.
pub enum NodeError {
    /// The requested operation could not be completed within a timeout.
    Timeout,
    /// A client sent an RPC request to a node which does not exist.
    NodeNotFound,
    /// The requested operation is not supported by this implementation.
    NotSupported,
    /// The operation definitely cannot be performed right now (read-only
    /// state, uninitialised node, peers believed down, and so on).
    TemporarilyUnavailable,
    /// The request did not conform to the server's expectations and cannot
    /// have been processed.
    MalformedRequest,
    /// A general, indefinite error.
    Crash,
    /// A general, definite error: the requested operation certainly did not
    /// take place.
    Abort,
    /// The operation addressed a key which does not exist.
    KeyDoesNotExist,
    /// The operation would create a key which already exists.
    KeyAlreadyExists,
    /// A precondition of the operation (such as the expected current value of
    /// a compare-and-swap) did not hold.
    PreconditionFailed,
    /// The transaction was aborted because of a conflict with another one.
    TxnConflict,
    /// A custom error code, chosen by the caller.
    Custom(u64),
}

impl NodeError {
    /// The numeric code for this error on the wire.
    pub fn code(&self) -> (c: u64)
        ensures
            c == self.spec_code(),
    {
        match self {
            NodeError::Timeout => 0,
            NodeError::NodeNotFound => 1,
            NodeError::NotSupported => 10,
            NodeError::TemporarilyUnavailable => 11,
            NodeError::MalformedRequest => 12,
            NodeError::Crash => 13,
            NodeError::Abort => 14,
            NodeError::KeyDoesNotExist => 20,
            NodeError::KeyAlreadyExists => 21,
            NodeError::PreconditionFailed => 22,
            NodeError::TxnConflict => 23,
            NodeError::Custom(code) => *code,
        }
    }

    /// The code of each error variant.
    pub open spec fn spec_code(&self) -> u64 {
        match self {
            NodeError::Timeout => 0,
            NodeError::NodeNotFound => 1,
            NodeError::NotSupported => 10,
            NodeError::TemporarilyUnavailable => 11,
            NodeError::MalformedRequest => 12,
            NodeError::Crash => 13,
            NodeError::Abort => 14,
            NodeError::KeyDoesNotExist => 20,
            NodeError::KeyAlreadyExists => 21,
            NodeError::PreconditionFailed => 22,
            NodeError::TxnConflict => 23,
            NodeError::Custom(code) => *code,
        }
    }
}

} // verus!
