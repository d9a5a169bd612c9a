//! A WebSocket server core without sockets: the frame codec, the opening
//! handshake, the per-connection protocol state machine and the connection
//! registry of a single-threaded, readiness-driven server.
//!
//! Nothing here performs I/O. The caller owns the sockets and the readiness
//! multiplexer; it reports what happened on them and carries out what the
//! returned actions ask for.

pub mod bytes;
pub mod frame;
pub mod stream;
pub mod handshake;
pub mod client;
pub mod server;
