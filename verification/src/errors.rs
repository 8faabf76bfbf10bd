//! Errors of the store.
//!
//! The variants that carry an error of std or of an outside crate carry it
//! unchanged; those values are opaque to the proofs, so contracts speak of
//! the variant only (see [`Fault`]).
use vstd::prelude::*;

verus! {

/// `std::io::Error`, carried by [`KvsError::Io`].
#[verifier::external_type_specification]
#[verifier::external_body]
pub struct ExIoError(std::io::Error);

/// `std::string::FromUtf8Error`, carried by [`KvsError::Utf8Error`].
#[verifier::external_type_specification]
#[verifier::external_body]
pub struct ExFromUtf8Error(std::string::FromUtf8Error);

/// `serde_json::Error`, carried by [`KvsError::SerdeJ`].
#[verifier::external_type_specification]
#[verifier::external_body]
pub struct ExSerdeJsonError(serde_json::Error);

/// `walkdir::Error`, carried by [`FileError::WalkError`].
#[verifier::external_type_specification]
#[verifier::external_body]
pub struct ExWalkdirError(walkdir::Error);

/// The result of an operation of the store.
pub type Result<T> = std::result::Result<T, KvsError>;

/// Every error that an operation of the store can return.
#[derive(Debug)]
pub enum KvsError {
    Io(std::io::Error),
    SerdeJ(serde_json::Error),
    EntryError(EntryError),
    KeyNotExit,
    FileEnd,
    Utf8Error(std::string::FromUtf8Error),
    File(FileError),
    UnKnownCommandError,
    AddrError,
    ErrorEngine,
}

/// An entry that cannot be written.
#[derive(Debug)]
pub enum EntryError {
    Illegal,
}

/// Errors about the files of the store's directory.
#[derive(Debug)]
pub enum FileError {
    PathIllegal,
    WalkError(walkdir::Error),
    OpenFileNumsError,
    IllegalOffset,
}

/// The kind of an error, as the contracts see it.
pub enum Fault {
    /// A file could not be found (`KvsError::Io`).
    Io,
    /// Bytes that should hold a string are not UTF-8 (`KvsError::Utf8Error`).
    Utf8,
    /// An entry whose key and value are both empty (`KvsError::EntryError`).
    Illegal,
    /// A read at or past the end of the active file (`KvsError::FileEnd`).
    FileEnd,
    /// A removal of a key that the index does not hold (`KvsError::KeyNotExit`).
    KeyNotExit,
    /// Any other variant.
    Other,
}

/// The kind of a [`KvsError`].
pub open spec fn fault(e: KvsError) -> Fault {
    match e {
        KvsError::Io(_) => Fault::Io,
        KvsError::Utf8Error(_) => Fault::Utf8,
        KvsError::EntryError(_) => Fault::Illegal,
        KvsError::FileEnd => Fault::FileEnd,
        KvsError::KeyNotExit => Fault::KeyNotExit,
        _ => Fault::Other,
    }
}

/// The kind of the error of a result, or `None` for `Ok`.
pub open spec fn fault_of<T>(r: std::result::Result<T, KvsError>) -> Option<Fault> {
    match r {
        Ok(_) => None,
        Err(e) => Some(fault(e)),
    }
}

impl vstd::std_specs::convert::FromSpecImpl<std::io::Error> for KvsError {
    open spec fn obeys_from_spec() -> bool {
        true
    }

    open spec fn from_spec(e: std::io::Error) -> Self {
        KvsError::Io(e)
    }
}

impl From<std::io::Error> for KvsError {
    fn from(e: std::io::Error) -> (r: Self) {
        KvsError::Io(e)
    }
}

impl vstd::std_specs::convert::FromSpecImpl<std::string::FromUtf8Error> for KvsError {
    open spec fn obeys_from_spec() -> bool {
        true
    }

    open spec fn from_spec(e: std::string::FromUtf8Error) -> Self {
        KvsError::Utf8Error(e)
    }
}

impl From<std::string::FromUtf8Error> for KvsError {
    fn from(e: std::string::FromUtf8Error) -> (r: Self) {
        KvsError::Utf8Error(e)
    }
}

impl vstd::std_specs::convert::FromSpecImpl<serde_json::Error> for KvsError {
    open spec fn obeys_from_spec() -> bool {
        true
    }

    open spec fn from_spec(e: serde_json::Error) -> Self {
        KvsError::SerdeJ(e)
    }
}

impl From<serde_json::Error> for KvsError {
    fn from(e: serde_json::Error) -> (r: Self) {
        KvsError::SerdeJ(e)
    }
}

impl vstd::std_specs::convert::FromSpecImpl<walkdir::Error> for KvsError {
    open spec fn obeys_from_spec() -> bool {
        true
    }

    open spec fn from_spec(e: walkdir::Error) -> Self {
        KvsError::File(FileError::WalkError(e))
    }
}

impl From<walkdir::Error> for KvsError {
    fn from(e: walkdir::Error) -> (r: Self) {
        KvsError::File(FileError::WalkError(e))
    }
}

/// A `std::io::Error` of kind `NotFound`, the error that opening or
/// removing a file that does not exist gives.
///
/// Calls `std::io::Error::from` on `std::io::ErrorKind::NotFound`; nothing is
/// stated of the value, which the proofs treat as opaque.
#[verifier::external_body]
pub(crate) fn not_found_error() -> (e: std::io::Error) {
    std::io::Error::from(std::io::ErrorKind::NotFound)
}

} // verus!
