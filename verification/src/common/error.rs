//! Error codes and the error type shared by every component.

use vstd::prelude::*;

verus! {

/// Error codes, grouped by component: general (0xxx), RPC (1xxx), storage
/// (2xxx), transactions (3xxx) and raft (4xxx).
#[derive(Debug, Clone, Copy, PartialEq, Eq, Structural)]
pub enum ErrorCode {
    /// No error (numeric code 0).
    Success,
    Unknown,
    Internal,
    NotReady,
    Config,
    RpcTimeout,
    RpcUnavailable,
    RpcNetworkError,
    StorageIo,
    StorageCorruption,
    StorageFull,
    KeyNotFound,
    KeyExists,
    TxnConflict,
    TxnDeadlock,
    TxnTimeout,
    TxnAborted,
    RaftNotLeader,
    RaftProposalDropped,
    RaftLeadershipChanged,
}

/// The codes of transient failures, worth retrying.
pub open spec fn retryable_code(c: ErrorCode) -> bool {
    c == ErrorCode::RpcTimeout || c == ErrorCode::RpcUnavailable || c == ErrorCode::TxnConflict
        || c == ErrorCode::TxnDeadlock || c == ErrorCode::RaftNotLeader || c
        == ErrorCode::RaftLeadershipChanged
}

/// The numeric wire value of each code.
pub open spec fn code_number(c: ErrorCode) -> u16 {
    match c {
        ErrorCode::Success => 0,
        ErrorCode::Unknown => 1,
        ErrorCode::Internal => 2,
        ErrorCode::NotReady => 3,
        ErrorCode::Config => 4,
        ErrorCode::RpcTimeout => 1000,
        ErrorCode::RpcUnavailable => 1001,
        ErrorCode::RpcNetworkError => 1002,
        ErrorCode::StorageIo => 2000,
        ErrorCode::StorageCorruption => 2001,
        ErrorCode::StorageFull => 2002,
        ErrorCode::KeyNotFound => 2003,
        ErrorCode::KeyExists => 2004,
        ErrorCode::TxnConflict => 3000,
        ErrorCode::TxnDeadlock => 3001,
        ErrorCode::TxnTimeout => 3002,
        ErrorCode::TxnAborted => 3003,
        ErrorCode::RaftNotLeader => 4000,
        ErrorCode::RaftProposalDropped => 4001,
        ErrorCode::RaftLeadershipChanged => 4002,
    }
}

impl ErrorCode {
    /// Whether an operation that failed with this code may succeed if retried.
    pub fn is_retryable(self) -> (r: bool)
        ensures
            r == retryable_code(self),
    {
        match self {
            ErrorCode::RpcTimeout | ErrorCode::RpcUnavailable | ErrorCode::TxnConflict
            | ErrorCode::TxnDeadlock | ErrorCode::RaftNotLeader
            | ErrorCode::RaftLeadershipChanged => true,
            _ => false,
        }
    }

    /// The numeric value of the code.
    pub fn number(self) -> (n: u16)
        ensures
            n == code_number(self),
    {
        match self {
            ErrorCode::Success => 0,
            ErrorCode::Unknown => 1,
            ErrorCode::Internal => 2,
            ErrorCode::NotReady => 3,
            ErrorCode::Config => 4,
            ErrorCode::RpcTimeout => 1000,
            ErrorCode::RpcUnavailable => 1001,
            ErrorCode::RpcNetworkError => 1002,
            ErrorCode::StorageIo => 2000,
            ErrorCode::StorageCorruption => 2001,
            ErrorCode::StorageFull => 2002,
            ErrorCode::KeyNotFound => 2003,
            ErrorCode::KeyExists => 2004,
            ErrorCode::TxnConflict => 3000,
            ErrorCode::TxnDeadlock => 3001,
            ErrorCode::TxnTimeout => 3002,
            ErrorCode::TxnAborted => 3003,
            ErrorCode::RaftNotLeader => 4000,
            ErrorCode::RaftProposalDropped => 4001,
            ErrorCode::RaftLeadershipChanged => 4002,
        }
    }
}

/// An error with a known code and message, or any other error, kept as
/// its message (its code is `Unknown`).
#[derive(Debug)]
pub enum Error {
    Known { code: ErrorCode, message: String },
    Other(String),
}

/// The code an error reports.
pub open spec fn error_code(e: &Error) -> ErrorCode {
    match e {
        Error::Known { code, .. } => *code,
        Error::Other(_) => ErrorCode::Unknown,
    }
}

impl Error {
    pub fn code(&self) -> (c: ErrorCode)
        ensures
            c == error_code(self),
    {
        match self {
            Error::Known { code, .. } => *code,
            Error::Other(_) => ErrorCode::Unknown,
        }
    }

    pub fn is_retryable(&self) -> (r: bool)
        ensures
            r == retryable_code(error_code(self)),
    {
        self.code().is_retryable()
    }
}

pub type Result<T> = core::result::Result<T, Error>;

} // verus!
