//! Request and response bodies for the cluster's linearizable key-value
//! service.

use vstd::prelude::*;

verus! {

/// One request to the key-value service, by kind.
pub enum SeqKVRequest {
    Read(SeqKVReadRequest),
    ReadInt(SeqKVReadIntRequest),
    CompareAndSwap(SeqKVCompareAndSwapRequest),
    Write(SeqKVWriteRequest),
}

/// Reads the value stored under `key`.
pub struct SeqKVReadRequest {
    pub in_reply_to: Option<u64>,
    pub msg_id: Option<u64>,
    pub key: String,
}

/// Reads the value stored under `key`, as an integer.
pub struct SeqKVReadIntRequest {
    pub in_reply_to: Option<u64>,
    pub msg_id: Option<u64>,
    pub key: String,
}

/// Replaces the value under `key` with `to` only if it currently reads
/// `from`; optionally creates the key.
pub struct SeqKVCompareAndSwapRequest {
    pub in_reply_to: Option<u64>,
    pub msg_id: Option<u64>,
    pub key: String,
    pub from: Option<u64>,
    pub to: Option<u64>,
    pub create_if_not_exists: bool,
}

/// Stores `value` under `key` unconditionally.
pub struct SeqKVWriteRequest {
    pub in_reply_to: Option<u64>,
    pub msg_id: Option<u64>,
    pub key: String,
    pub value: u64,
}

/// An error from the key-value service, with its numeric code.
pub struct SeqKVErrorResponse {
    pub in_reply_to: Option<u64>,
    pub msg_id: Option<u64>,
    pub code: u64,
    pub text: Option<String>,
}

/// A bare acknowledgment from the key-value service.
pub struct SeqKVNoDataResponse {
    pub in_reply_to: Option<u64>,
    pub msg_id: Option<u64>,
}

/// A successful read from the key-value service.
pub struct SeqKVReadResponse {
    pub in_reply_to: Option<u64>,
    pub msg_id: Option<u64>,
    pub value: u64,
}

} // verus!
