//! The failures that the store, the codec and the server report.

use vstd::prelude::*;
use vstd::string::StringExecFns;

verus! {

/// What went wrong in the codec.
#[derive(Clone, Copy, Debug, PartialEq, Eq, Structural)]
pub enum CodecError {
    /// The value cannot be written as JSON that reads back as the same value.
    Unwritable,
    /// The payload is longer than a length prefix can say.
    TooLong,
    /// The bytes end before the length prefix or the payload is complete.
    Truncated,
    /// The bytes are not JSON of the expected shape.
    Malformed,
}

/// The failures of the key-value store.
#[derive(Clone, Debug, PartialEq, Eq)]
pub enum KvsError {
    /// A failure of the operating system, with its message.
    Io(String),
    /// A failure to write or read JSON.
    Codec(CodecError),
    /// The key to remove is not in the store.
    KeyNotFound,
    /// The directory belongs to another engine.
    WrongEngine,
    /// A failure of the embedded B-tree library, with its message.
    BackendError(String),
    /// The thread pool could not be built.
    ThreadPoolError,
    /// The server reported a failure that it does not describe.
    ServerError,
}

impl CodecError {
    /// What went wrong, in words.
    pub open spec fn spec_message(self) -> Seq<char> {
        match self {
            CodecError::Unwritable => "value cannot be written"@,
            CodecError::TooLong => "payload too long"@,
            CodecError::Truncated => "input truncated"@,
            CodecError::Malformed => "malformed input"@,
        }
    }

    /// What went wrong, in words.
    pub fn message(&self) -> (s: String)
        ensures
            s@ == self.spec_message(),
    {
        match self {
            CodecError::Unwritable => "value cannot be written".to_owned(),
            CodecError::TooLong => "payload too long".to_owned(),
            CodecError::Truncated => "input truncated".to_owned(),
            CodecError::Malformed => "malformed input".to_owned(),
        }
    }
}

impl KvsError {
    /// The failure, in words.
    pub open spec fn spec_message(self) -> Seq<char> {
        match self {
            KvsError::Io(inner) => "io error: "@ + inner@,
            KvsError::Codec(inner) => "serde_json error: "@ + inner.spec_message(),
            KvsError::KeyNotFound => "key not found"@,
            KvsError::WrongEngine => "wrong engine"@,
            KvsError::BackendError(inner) => "sled error: "@ + inner@,
            KvsError::ThreadPoolError => "thread pool error"@,
            KvsError::ServerError => "server error"@,
        }
    }

    /// The failure, in words.
    pub fn message(&self) -> (s: String)
        ensures
            s@ == self.spec_message(),
    {
        match self {
            KvsError::Io(inner) => "io error: ".to_owned().concat(inner.as_str()),
            KvsError::Codec(inner) => "serde_json error: ".to_owned().concat(
                inner.message().as_str(),
            ),
            KvsError::KeyNotFound => "key not found".to_owned(),
            KvsError::WrongEngine => "wrong engine".to_owned(),
            KvsError::BackendError(inner) => "sled error: ".to_owned().concat(inner.as_str()),
            KvsError::ThreadPoolError => "thread pool error".to_owned(),
            KvsError::ServerError => "server error".to_owned(),
        }
    }
}

pub type Result<T> = core::result::Result<T, KvsError>;

} // verus!
