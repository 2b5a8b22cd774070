//! Protocol-framing and session core of a line-oriented chat client.
//!
//! The crate turns raw bytes arriving from a non-blocking transport into
//! line-delimited frames, parses each frame into a structured message, and
//! drives the registration / keep-alive state machine of one connection.
//! All socket, TLS and reactor plumbing lives outside this crate; the
//! embedder reports what the platform observed as plain events and performs
//! the writes this crate asks for.

pub mod frame;
pub mod msg;
pub mod stream;
pub mod comms;
