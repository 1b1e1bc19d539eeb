//! Wire-level HTTP/1.1 request parsing and response serialization.
//!
//! The library turns the raw bytes of a request head (request line plus
//! header block, through the terminating blank line) into a typed
//! [`request::Request`], and serializes a [`response::Response`] back into
//! bytes.  All parsing and serialization logic is specified against
//! mathematical models of the byte and character sequences involved; the
//! socket I/O that feeds bytes in and writes bytes out lives outside the
//! library.

pub mod error;
pub mod laws;
pub mod request;
pub mod response;
pub mod scan;
pub mod strmap;
