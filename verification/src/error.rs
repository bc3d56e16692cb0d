//! The error kinds of the store: protocol grammar failures, storage
//! lookup failures, and fatal storage conditions.

use vstd::prelude::*;

verus! {

/// Errors surfaced by the key-value engine.
#[derive(Debug)]
pub enum DatabaseError {
    KeyNotFound,
    InternalError,
}

impl DatabaseError {
    /// The wire text of this error, as it appears in an error reply.
    pub fn description(&self) -> (r: &'static str)
        ensures
            self is KeyNotFound ==> r@ == "KeyNotFound"@,
            self is InternalError ==> r@ == "InternalError"@,
    {
        match self {
            DatabaseError::KeyNotFound => "KeyNotFound",
            DatabaseError::InternalError => "InternalError",
        }
    }
}

pub type DatabaseResult<T> = Result<T, DatabaseError>;

/// Errors raised while framing or parsing the wire protocol.
#[derive(Debug)]
pub enum ProtocolError {
    /// Malformed framing; the payload names the violated rule.
    GrammarCheckFailed(&'static str),
    /// The peer closed the connection.
    ConnectionClosed,
    /// A syntactically valid message named an unknown command.
    CommandNotSupport(Vec<u8>),
    /// A head line held something other than a decimal number, or a
    /// number too large to represent.
    ParseError,
}

pub type ProtocolResult<T> = Result<T, ProtocolError>;

/// Fatal storage conditions met while building or recovering a store.
#[derive(Debug)]
pub enum StorageError {
    /// The manifest log holds a record that no run of the store writes.
    ManifestLogFormatError,
    /// A log or table file does not decode as its record format.
    LogFormatError,
    /// A table id would leave the range the manifest record can hold.
    LevelCounterExhausted,
}

pub type StorageResult<T> = Result<T, StorageError>;

} // verus!
