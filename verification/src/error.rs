//! The errors of this library.

use vstd::prelude::*;

verus! {

/// Declares `std::io::Error`. The library carries such an error and never
/// looks inside it.
#[verifier::external_type_specification]
#[verifier::external_body]
pub struct ExIoError(std::io::Error);

/// What can go wrong around a brain.
#[derive(Debug)]
pub enum Error {
    /// An I/O failure, as the caller that met it reports it.
    Io(std::io::Error),
    /// A saved store that breaks the invariant of a store.
    InvalidStore,
}

/// The main `Result` type of this library.
pub type Result<T> = std::result::Result<T, Error>;

impl From<std::io::Error> for Error {
    fn from(e: std::io::Error) -> (r: Error) {
        Error::Io(e)
    }
}

impl vstd::std_specs::convert::FromSpecImpl<std::io::Error> for Error {
    open spec fn obeys_from_spec() -> bool {
        true
    }

    open spec fn from_spec(e: std::io::Error) -> Error {
        Error::Io(e)
    }
}

/// Formats an I/O error with its `Display` impl. Nothing is claimed of the
/// text.
#[verifier::external_body]
fn io_error_text(error: &std::io::Error) -> (r: String) {
    format!("{}", error)
}

impl Error {
    /// The error in words: for an I/O error, the words of that error.
    pub fn message(&self) -> (r: String)
        ensures
            self is InvalidStore ==> r@ == "the saved store is not a well-formed store"@,
    {
        match self {
            Error::Io(e) => io_error_text(e),
            Error::InvalidStore => "the saved store is not a well-formed store".to_owned(),
        }
    }

    /// The I/O error behind this error, if there is one.
    pub fn source(&self) -> (r: Option<&std::io::Error>)
        ensures
            r is Some == (self is Io),
            r matches Some(e) ==> self == Error::Io(*e),
    {
        match self {
            Error::Io(e) => Some(e),
            Error::InvalidStore => None,
        }
    }
}

} // verus!
