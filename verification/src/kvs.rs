//! A key/value store on an append-only log with an index in memory.

pub mod client;
pub mod codec;
pub mod engines;
pub mod error;
pub mod json;
pub mod log;
pub mod requests;
pub mod server;
pub mod store;
