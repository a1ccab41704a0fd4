//! Error kinds shared across the scanner core.

use vstd::prelude::*;

verus! {

/// Error type for scanner operations. Each variant carries a short
/// human-readable message.
#[derive(Debug)]
pub enum ScanError {
    /// Database operation error
    Database(String),
    /// Network operation error
    Network(String),
    /// Configuration error
    Config(String),
    /// IO error
    Io(String),
    /// Parse error
    Parse(String),
    /// Other errors
    Other(String),
}

impl ScanError {
    /// The message carried by the error, without its kind.
    pub fn message(&self) -> (r: &String)
        ensures
            r@ == self.spec_message(),
    {
        match self {
            ScanError::Database(m) => m,
            ScanError::Network(m) => m,
            ScanError::Config(m) => m,
            ScanError::Io(m) => m,
            ScanError::Parse(m) => m,
            ScanError::Other(m) => m,
        }
    }

    pub open spec fn spec_message(&self) -> Seq<char> {
        match self {
            ScanError::Database(m) => m@,
            ScanError::Network(m) => m@,
            ScanError::Config(m) => m@,
            ScanError::Io(m) => m@,
            ScanError::Parse(m) => m@,
            ScanError::Other(m) => m@,
        }
    }
}

} // verus!
