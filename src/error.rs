//! Error kinds of the record store.

use vstd::prelude::*;
use vstd::string::*;

verus! {

/// Errors returned by the record store and its cache.
#[derive(Debug, Clone, PartialEq, Eq)]
pub enum Error {
    /// Failure of the underlying file or network I/O.
    Io(String),
    /// Bad magic, malformed file or malformed protocol data.
    Parse(String),
    /// A record larger than the 1 MiB limit (the payload is its size).
    ValueTooLarge(usize),
    /// An insert would grow the data file past 1 GiB (the payload is the current size).
    DatabaseFull(u64),
    /// Row id out of range or tombstoned.
    NotFound,
    /// Operation on a store that has been closed.
    Closed,
}

impl Error {
    /// A short description of the error.
    pub fn message(&self) -> (r: String)
        ensures
            self is NotFound ==> r@ == "Key not found"@,
            self is Closed ==> r@ == "Database is closed"@,
            self is ValueTooLarge ==> r@ == "Value too large (max 1 MB)"@,
            self is DatabaseFull ==> r@ == "Database full (max 1 GB)"@,
            self matches Error::Io(m) ==> r@ == "I/O error: "@ + m@,
            self matches Error::Parse(m) ==> r@ == "Parse error: "@ + m@,
    {
        match self {
            Error::Io(m) => {
                let mut s = String::from_str("I/O error: ");
                s.append(m.as_str());
                s
            },
            Error::Parse(m) => {
                let mut s = String::from_str("Parse error: ");
                s.append(m.as_str());
                s
            },
            Error::ValueTooLarge(_) => String::from_str("Value too large (max 1 MB)"),
            Error::DatabaseFull(_) => String::from_str("Database full (max 1 GB)"),
            Error::NotFound => String::from_str("Key not found"),
            Error::Closed => String::from_str("Database is closed"),
        }
    }
}

} // verus!
