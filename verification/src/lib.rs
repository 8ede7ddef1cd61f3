//! A responder for a small length-prefixed game protocol: the variable-length
//! integer codec, the packet framer built on it, and the per-connection state
//! machine that answers status queries, echoes pings and records login
//! attempts.
//!
//! Everything here works on bytes held in memory. A connection is described by
//! all the bytes that its peer sends; `protocol::process_stream` says what is
//! written back and what is recorded. Sockets, threads and printing belong to
//! the program that links this library.

pub mod error;
pub mod packet;
pub mod protocol;
pub mod status;
pub mod stream;
pub mod text;
pub mod varint;
