//! A small line-delimited JSON-RPC tool server.
//!
//! The crate models the wire format (a JSON value per line), the JSON-RPC
//! request/response envelopes, and the method/tool dispatch rules, and
//! verifies each against a mathematical model.  I/O and the network-backed
//! search operation live outside the library and drive it through plain
//! values.

pub mod error;
pub mod json;
pub mod protocol;
pub mod server;
pub mod tools;
pub mod transport;
