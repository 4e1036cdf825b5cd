use vstd::prelude::*;

verus! {

/// The failures that a direct submission can surface.
#[derive(PartialEq, Eq, Structural, Clone, Copy, Debug)]
pub enum DirectError {
    /// The signing credential is missing or malformed.
    CredentialError,
    /// A cluster query was unreachable or answered with a malformed response.
    QueryError,
    /// The requested validator is not in the directory.
    NotFoundError,
    /// The transport handshake could not complete.
    ConnectionError,
    /// The signer set cannot authorize the payer.
    SigningError,
    /// The write was rejected or the connection was closed.
    TransportWriteError,
}

} // verus!
