//! The I/O error type that memory sources and the command-line front end report, and the classes of
//! it that decide an exit code.

use vstd::prelude::*;

verus! {

#[verifier::external_type_specification]
#[verifier::external_body]
pub struct ExIoError(std::io::Error);

/// `std::io::Error::from(std::io::ErrorKind::InvalidInput)`: an error of kind `InvalidInput`.
#[verifier::external_body]
pub(crate) fn invalid_input_error() -> (r: std::io::Error)
    ensures
        io_error_class(r) == IoClass::InvalidInput,
{
    std::io::Error::from(std::io::ErrorKind::InvalidInput)
}

/// The classes of I/O failure that decide an exit code.
#[derive(Debug, Clone, Copy, PartialEq, Eq, Structural)]
pub enum IoClass {
    PermissionDenied,
    Unsupported,
    NotFound,
    InvalidData,
    InvalidInput,
    Other,
}

/// The class of an error's `std::io::Error::kind`; a function of the error alone.
pub uninterp spec fn io_error_class(e: std::io::Error) -> IoClass;

/// `std::io::Error::kind`, sorted into the classes that decide an exit code: each of the five named
/// kinds maps to its class and every other kind to `Other`.
#[verifier::external_body]
pub(crate) fn io_class(e: &std::io::Error) -> (r: IoClass)
    ensures
        r == io_error_class(*e),
{
    match e.kind() {
        std::io::ErrorKind::PermissionDenied => IoClass::PermissionDenied,
        std::io::ErrorKind::Unsupported => IoClass::Unsupported,
        std::io::ErrorKind::NotFound => IoClass::NotFound,
        std::io::ErrorKind::InvalidData => IoClass::InvalidData,
        std::io::ErrorKind::InvalidInput => IoClass::InvalidInput,
        _ => IoClass::Other,
    }
}

/// The error's `Display` text (`ToString::to_string`). It comes from the operating system for OS
/// errors, so nothing is stated about it.
#[verifier::external_body]
pub(crate) fn io_error_text(e: &std::io::Error) -> String {
    e.to_string()
}

} // verus!
