//! The error surface of the library: a tagged union over the four failure
//! kinds, so callers can branch on the kind of fault.

use vstd::prelude::*;

verus! {

/// Declares `std::path::PathBuf`, which vstd gives no specification, so that
/// `IOError` can carry the offending path. The value is opaque here.
#[verifier::external_type_specification]
#[verifier::external_body]
pub struct ExPathBuf(std::path::PathBuf);

/// Declares `std::io::Error`, which vstd gives no specification, so that
/// `IOError` can carry the underlying cause. The value is opaque here.
#[verifier::external_type_specification]
#[verifier::external_body]
pub struct ExIoError(std::io::Error);

/// A local file read, write or creation failed; carries the file and cause.
#[derive(Debug)]
pub struct IOError {
    file: std::path::PathBuf,
    source: std::io::Error,
}

impl IOError {
    /// The path of the file the failing operation was aimed at.
    pub closed spec fn spec_file(&self) -> std::path::PathBuf {
        self.file
    }

    /// The underlying cause.
    pub closed spec fn spec_source(&self) -> std::io::Error {
        self.source
    }

    pub fn new(file: std::path::PathBuf, source: std::io::Error) -> (r: Self)
        ensures
            r.spec_file() == file,
            r.spec_source() == source,
    {
        Self { file, source }
    }
}

/// What can go wrong while retrieving, caching or decoding season data.
#[derive(Debug)]
pub enum Error {
    /// The remote call failed or returned an unusable body; retried up to the
    /// bounded budget before being surfaced.
    Transport { detail: String },
    /// A local file operation failed; surfaced immediately, never retried.
    Storage(IOError),
    /// A cache file does not hold the expected shape; fatal, never retried.
    Decode { file: Option<String>, cause: DecodeError },
    /// A required credential or environment value is missing.
    Configuration { variable: String },
}

/// A text failed to decode as the expected canonical JSON shape.
#[derive(Debug)]
pub struct DecodeError {
    /// Character offset at which decoding gave up.
    pub offset: usize,
}

} // verus!
