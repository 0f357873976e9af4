//! Session and pagination engine for a remote diagnostic log viewer.
//!
//! The library builds and parses the wire representation of log-retrieval
//! requests, and drives a cursor-based pagination state machine over an
//! append-only buffer of received log records. All socket I/O is left to the
//! embedding application, which feeds transport events in and performs the
//! send actions the session hands back.

pub mod codec;
pub mod laws;
pub mod session;

pub use codec::{DecodeError, Layers, LogEvent, LogGet, Verbosity};
pub use session::{ConnState, Session, SessionState, SocketManager, WireEvent};
