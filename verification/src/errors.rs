//! Errors of the storage layer.

use vstd::prelude::*;

verus! {

#[verifier::external_type_specification]
#[verifier::external_body]
pub struct ExIoError(std::io::Error);

/// What went wrong in a storage operation.
#[derive(Debug)]
pub enum StorageError {
    InvalidKey(String),
    InvalidValue(String),
    InvalidConfig(String),
    RowEncodeError(String),
    TransactionConflict(String),
    NotFound(String),
    InternalError(String),
    IoError(std::io::Error),
    WalCorrupted(String),
}

pub type StorageResult<T> = Result<T, StorageError>;

} // verus!
