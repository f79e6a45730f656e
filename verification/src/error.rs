//! Error variants shared by the routing, protocol and storage layers.

use vstd::prelude::*;

verus! {

/// The I/O error type carried inside `Error::ConnectionError`; it comes from
/// the standard library, so it is opaque to verification.
#[verifier::external_type_specification]
#[verifier::external_body]
pub struct ExIoError(std::io::Error);

/// Error variants that can occur while serving or routing requests.
#[derive(Debug)]
pub enum Error {
    /// Invalid request content.
    InvalidRequestContent,
    /// Failed to parse a message.
    ParseError,
    /// An I/O error occurred during connection handling.
    ConnectionError(Option<std::io::Error>),
    /// The received command is not recognized.
    UnknownCommand(String),
}

/// A specialized `Result` type for operations of this crate.
pub type AppResult<T> = Result<T, Error>;

} // verus!
