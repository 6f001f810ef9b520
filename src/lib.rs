//! The protocol core of a small key-value server: the value model and its
//! wire form, a streaming frame decoder, the per-connection frame buffer, the
//! command dispatcher and the in-memory store.

pub mod command;
pub mod connection;
pub mod decode;
pub mod store;
pub mod value;
