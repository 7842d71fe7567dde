//! The errors of the store.

use vstd::prelude::*;
use vstd::string::*;

verus! {

/// What can go wrong in the store.
#[derive(Debug, PartialEq, Eq)]
pub enum KvError {
    /// A log or snapshot file could not be opened, read, written or renamed.
    Io(String),
    /// A snapshot or a log record is malformed.
    Serialization(String),
    /// The key to remove was not in the store.
    KeyNotFound(String),
    /// The lock around the store is poisoned and cannot be used again.
    LockFailure(String),
}

impl KvError {
    /// The text shown to the operator for this error.
    pub open spec fn text(self) -> Seq<char> {
        match self {
            KvError::Io(detail) => detail@,
            KvError::Serialization(detail) => detail@,
            KvError::KeyNotFound(key) => "Key '"@ + key@ + "' not found"@,
            KvError::LockFailure(detail) => detail@,
        }
    }

    /// The text shown to the operator for this error.
    pub fn message(&self) -> (res: String)
        ensures
            res@ == self.text(),
    {
        match self {
            KvError::Io(detail) => detail.clone(),
            KvError::Serialization(detail) => detail.clone(),
            KvError::KeyNotFound(key) => {
                let mut text = String::from_str("Key '");
                text.append(key.as_str());
                text.append("' not found");
                text
            },
            KvError::LockFailure(detail) => detail.clone(),
        }
    }

}

impl Clone for KvError {
    fn clone(&self) -> (res: KvError)
        ensures
            res == *self,
    {
        match self {
            KvError::Io(detail) => KvError::Io(detail.clone()),
            KvError::Serialization(detail) => KvError::Serialization(detail.clone()),
            KvError::KeyNotFound(key) => KvError::KeyNotFound(key.clone()),
            KvError::LockFailure(detail) => KvError::LockFailure(detail.clone()),
        }
    }
}

} // verus!
