//! The error taxonomy of the dictionary engine.  Every failure is
//! recoverable at the manager level: a directory that does not load as a
//! dictionary is skipped, not fatal.  Lookups themselves never error;
//! absence is an ordinary result.

use vstd::prelude::*;

verus! {

/// Why a dictionary failed to load.
#[derive(Clone, Copy, Debug, PartialEq, Eq, Structural)]
pub enum Error {
    /// One of the three required files is absent from the directory, or
    /// more than one payload candidate exists.
    MissingFile,
    /// A numeric metadata field or an index record is malformed.
    ParseError,
    /// The metadata names no supported format version.
    UnsupportedVersion,
    /// The payload cannot be decompressed or is not valid text.
    DecodeError,
    /// The underlying file data ended where a record still owed bytes.
    IoError,
}

impl Error {
    /// A short description of the failure.
    pub fn message(&self) -> &'static str {
        match self {
            Error::MissingFile => "a required dictionary file is missing or ambiguous",
            Error::ParseError => "a metadata field or index record is malformed",
            Error::UnsupportedVersion => "the dictionary format version is not supported",
            Error::DecodeError => "the payload could not be decoded",
            Error::IoError => "the file data ended inside a record",
        }
    }
}

} // verus!
