//! The error taxonomy: transport failures surfaced to the caller,
//! protocol failures fatal to the connection or session, and the
//! remote error a response may carry.

use vstd::prelude::*;
use crate::message::ErrorDescriptor;

verus! {

/// A failure of the medium. Always surfaced to the caller; the core
/// never retries on its own.
#[derive(Clone, Copy, Debug, PartialEq, Eq, Structural)]
pub enum TransportError {
    Unavailable,
    Disconnected,
    Timeout,
}

/// A failure of the protocol: fatal to the current connection or
/// session, not to the process.
#[derive(Clone, Copy, Debug, PartialEq, Eq, Structural)]
pub enum ProtocolError {
    VersionMismatch,
    NotInitialized,
    UnknownSession,
    MalformedMessage,
}

/// What resolving a request can fail with: a transport fault, a
/// protocol fault, or the error descriptor the remote peer returned.
#[derive(Debug, PartialEq, Eq)]
pub enum RpcError {
    Transport(TransportError),
    Protocol(ProtocolError),
    Remote(ErrorDescriptor),
}

} // verus!
