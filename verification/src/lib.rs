//! A minimal tool-invocation RPC protocol runtime: a message codec over
//! newline-delimited structured records, request/response correlation,
//! a capability-negotiating handshake, a tool registry with dispatch,
//! and server-side session management for streaming connections.

pub mod codec;
pub mod correlator;
pub mod errors;
pub mod frame;
pub mod message;
pub mod peer;
pub mod router;
pub mod session;
pub mod value;
