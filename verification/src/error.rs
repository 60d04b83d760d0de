//! The errors of reading a client process.

use vstd::prelude::*;
use crate::text::concat_str;

verus! {

/// Why reading a client process failed.
#[derive(Debug, Clone)]
pub enum MemoryError {
    ProcessNotFound,
    ReadFailed(String),
    InvalidString,
}

/// The human-readable message of an error.
pub open spec fn spec_error_message(e: MemoryError) -> Seq<char> {
    match e {
        MemoryError::ProcessNotFound => "Process not found"@,
        MemoryError::ReadFailed(s) => "Read failed: "@ + s@,
        MemoryError::InvalidString => "Invalid string"@,
    }
}

impl MemoryError {
    /// The human-readable message: `Process not found`, `Read failed: <why>`
    /// or `Invalid string`.
    pub fn message(&self) -> (r: String)
        ensures
            r@ == spec_error_message(*self),
    {
        match self {
            MemoryError::ProcessNotFound => String::from_str("Process not found"),
            MemoryError::ReadFailed(s) => concat_str("Read failed: ", s.as_str()),
            MemoryError::InvalidString => String::from_str("Invalid string"),
        }
    }
}

} // verus!
