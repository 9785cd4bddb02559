//! The receiving side of a GELF server: how bind strings are read, how a TCP
//! byte stream is cut into frames, how sessions are pooled and timed out, and
//! what the event loop does with each thing that reaches it.
//!
//! Sockets, timers and the runtime live with the embedder. This crate holds
//! the rules they are driven by, each with a contract that Verus proves.

pub mod buffer;
pub mod metrics;
pub mod server;
