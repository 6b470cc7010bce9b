//! WebTransport stream bookkeeping for a QUIC server built on quiche's HTTP/3 layer.
//!
//! quiche's HTTP/3 layer classifies the WebTransport stream type prefixes
//! (0x41, 0x54) as unknown streams. This crate reads those prefixes itself,
//! before the HTTP/3 layer sees the stream, and keeps the routing from
//! WebTransport data streams to their sessions.
//!
//! - `varint`: QUIC variable-length integers (RFC 9000, section 16).
//! - `headers`: HTTP/3 header fields and the Extended CONNECT checks on them.
//! - `event`: what the server reports, and what it asks its driver to do.
//! - `model`: the server's abstract state, the effect of each operation on
//!   it, and the consistency that every operation keeps.
//! - `server`: the server state and every decision it makes.
//! - `poll`: one poll of the server as a sequence of steps, each saying what
//!   outside work comes next.
//! - `laws`: properties that span operations and sequences of operations.
//!
//! The server never touches the QUIC connection itself: its driver reads
//! and writes the streams and hands the outcome of each read to the poll,
//! which says what to do next.

pub mod event;
pub mod headers;
pub mod laws;
pub mod model;
pub mod poll;
pub mod server;
pub mod varint;
