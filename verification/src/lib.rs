//! A length-prefixed echo protocol and the single-threaded reactor logic
//! that serves it: the frame codec, the per-connection buffered state
//! machine, and the registry of live connections.
//!
//! Everything here is pure: sockets and readiness polling belong to the
//! caller, which performs the I/O the state machine asks for and reports
//! the outcome back.

pub mod codec;
pub mod stream;
pub mod connection;
pub mod registry;
pub mod client;
