//! The failures the devlog core and its callers distinguish.

use vstd::prelude::*;

verus! {

/// Declares the operating system's I/O error type so the library's error
/// enum can carry one through unchanged.  Relied on for the type alone;
/// nothing is assumed about its values.
#[verifier::external_type_specification]
#[verifier::external_body]
pub struct ExIoError(std::io::Error);

/// An error of the devlog tool.
#[derive(Debug)]
pub enum Error {
    /// A numeric argument was rejected, with the reason.
    InvalidArg(&'static str),
    /// The day already holds the largest sequence number a dated file name
    /// can carry, so no further file can be created for it.
    LogFileLimitExceeded,
    /// An I/O failure, passed through unchanged from the operating system.
    IOError(std::io::Error),
}

impl From<std::io::Error> for Error {
    fn from(err: std::io::Error) -> (r: Error) {
        Error::IOError(err)
    }
}

impl vstd::std_specs::convert::FromSpecImpl<std::io::Error> for Error {
    open spec fn obeys_from_spec() -> bool {
        true
    }

    open spec fn from_spec(err: std::io::Error) -> Error {
        Error::IOError(err)
    }
}

} // verus!
