//! The ways an insertion can be turned down.

use vstd::prelude::*;

verus! {

/// Why a table refused an insertion. Both are ordinary results: the table is
/// left as it was and the caller may retry after making room or with another key.
#[derive(Clone, Copy, Debug, PartialEq, Eq, Structural)]
pub enum TableError {
    /// Every slot the probe may visit holds some other key.
    Full,
    /// The key is longer than a slot's key buffer.
    KeyTooLong,
}

impl TableError {
    /// The text that describes the error to a person.
    pub fn message(&self) -> (text: &'static str)
        ensures
            text@ == (match *self {
                TableError::Full => "Hash table is full"@,
                TableError::KeyTooLong => "Key length exceeds maximum allowed length"@,
            }),
    {
        match self {
            TableError::Full => "Hash table is full",
            TableError::KeyTooLong => "Key length exceeds maximum allowed length",
        }
    }
}

} // verus!
