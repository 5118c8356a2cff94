//! A small Redis-style server: the RESP wire format, a key-value store with
//! expiring keys, and the answers to `PING`, `ECHO`, `GET` and `SET`, each
//! proved against its contract.
pub mod error;
pub mod laws;
pub mod parse;
pub mod server;
pub mod store;
pub mod stream;
pub mod text;
pub mod value;
