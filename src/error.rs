//! Errors of the store and the integer codes that embedders see.
use vstd::prelude::*;

verus! {

/// What can go wrong in a store operation.
#[derive(Clone, Copy, Debug, PartialEq, Eq, Structural)]
pub enum StreamDbError {
    /// The underlying file or mapping failed.
    Io,
    /// The path or document is absent.
    NotFound,
    /// A bad path, an oversized document, an invalid page id, or a full database.
    InvalidInput,
    /// A checksum mismatch or undecodable stored bytes.
    InvalidData,
    /// Sealing or opening an encrypted page failed.
    EncryptionError,
    /// A transaction was misused.
    TransactionError,
}

/// Code reported for success.
pub const SUCCESS: i32 = 0;

pub open spec fn code_of(e: StreamDbError) -> int {
    match e {
        StreamDbError::Io => -1,
        StreamDbError::NotFound => -2,
        StreamDbError::InvalidInput => -3,
        StreamDbError::TransactionError => -5,
        StreamDbError::InvalidData => -1,
        StreamDbError::EncryptionError => -1,
    }
}

impl StreamDbError {
    /// The integer code of this error at a foreign-function boundary.
    pub fn code(&self) -> (r: i32)
        ensures
            r as int == code_of(*self),
    {
        match self {
            StreamDbError::Io => -1,
            StreamDbError::NotFound => -2,
            StreamDbError::InvalidInput => -3,
            StreamDbError::TransactionError => -5,
            StreamDbError::InvalidData => -1,
            StreamDbError::EncryptionError => -1,
        }
    }
}

/// Code reported when a call panicked before it could return.
pub const PANIC_CODE: i32 = -4;

} // verus!
