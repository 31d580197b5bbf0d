use vstd::prelude::*;

verus! {

/// The ways an operation of the store can fail.
#[derive(Debug, Clone, Copy, PartialEq, Eq, Structural)]
pub enum KvStoreError {
    IoError,
    SerdeSerError,
    No,
    KeyNotFound,
    InvalidLogFileCommand,
    InvalidFile,
    BincodeError,
}

impl KvStoreError {
    /// The human-readable text of each error kind.
    pub open spec fn spec_message(self) -> Seq<char> {
        match self {
            KvStoreError::IoError => "Failed to read/write"@,
            KvStoreError::SerdeSerError => "Failed to serialize"@,
            KvStoreError::No => "No path"@,
            KvStoreError::KeyNotFound => "Key not found"@,
            KvStoreError::InvalidLogFileCommand => "Invalid log file command"@,
            KvStoreError::InvalidFile => "Invalid file"@,
            KvStoreError::BincodeError => "Failed to encode/decode"@,
        }
    }

    /// The message that reports this error to a user or a client.
    pub fn message(&self) -> (r: String)
        ensures
            r@ == self.spec_message(),
    {
        match self {
            KvStoreError::IoError => String::from_str("Failed to read/write"),
            KvStoreError::SerdeSerError => String::from_str("Failed to serialize"),
            KvStoreError::No => String::from_str("No path"),
            KvStoreError::KeyNotFound => String::from_str("Key not found"),
            KvStoreError::InvalidLogFileCommand => String::from_str("Invalid log file command"),
            KvStoreError::InvalidFile => String::from_str("Invalid file"),
            KvStoreError::BincodeError => String::from_str("Failed to encode/decode"),
        }
    }
}

} // verus!
