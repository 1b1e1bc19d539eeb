//! The error taxonomy of the library.
//!
//! Every failure while reading or parsing a request falls into one of three
//! kinds: a malformed request (`ParsingError`), bytes that are not valid
//! UTF-8 where text was expected (`Utf8Error`), and a failure of the
//! underlying stream (`IOError`).  No error is ever retried; each one aborts
//! the handling of its connection.

use vstd::prelude::*;

verus! {

/// Declares `std::io::Error` so that [`Error`] can carry the underlying
/// stream failure through unchanged.  The library never inspects a value of
/// this type; only the code driving the socket constructs one.
#[verifier::external_type_specification]
#[verifier::external_body]
pub struct ExIoError(std::io::Error);

/// Declares `std::string::FromUtf8Error` so that [`Error`] can carry the
/// failure returned by `String::from_utf8` through unchanged.  The library
/// never inspects a value of this type.
#[verifier::external_type_specification]
#[verifier::external_body]
pub struct ExFromUtf8Error(std::string::FromUtf8Error);

/// An error that terminates the handling of one connection.
pub enum Error {
    /// The request is malformed: a line without the `\r\n` terminator, a
    /// request line with fewer than three tokens, an unrecognized method or
    /// version token, a header line without a colon, or a query pair
    /// without an equals sign.
    ParsingError,
    /// The underlying stream failed while reading or writing.
    IOError(std::io::Error),
    /// A line of the request head is not valid UTF-8.
    Utf8Error(std::string::FromUtf8Error),
}

/// The kind of an [`Error`], as the contracts speak of it: the payloads of
/// `IOError` and `Utf8Error` are opaque, but the kind of failure is exact.
pub enum ErrorKind {
    Parsing,
    Io,
    Encoding,
}

impl Error {
    /// The kind of this error.
    pub open spec fn kind(&self) -> ErrorKind {
        match *self {
            Error::ParsingError => ErrorKind::Parsing,
            Error::IOError(_) => ErrorKind::Io,
            Error::Utf8Error(_) => ErrorKind::Encoding,
        }
    }
}

impl core::convert::From<std::io::Error> for Error {
    fn from(e: std::io::Error) -> (r: Error) {
        Error::IOError(e)
    }
}

impl vstd::std_specs::convert::FromSpecImpl<std::io::Error> for Error {
    open spec fn obeys_from_spec() -> bool {
        true
    }

    open spec fn from_spec(e: std::io::Error) -> Error {
        Error::IOError(e)
    }
}

impl core::convert::From<std::string::FromUtf8Error> for Error {
    fn from(e: std::string::FromUtf8Error) -> (r: Error) {
        Error::Utf8Error(e)
    }
}

impl vstd::std_specs::convert::FromSpecImpl<std::string::FromUtf8Error> for Error {
    open spec fn obeys_from_spec() -> bool {
        true
    }

    open spec fn from_spec(e: std::string::FromUtf8Error) -> Error {
        Error::Utf8Error(e)
    }
}

} // verus!
