//! What the client asks and what the server answers.

use vstd::prelude::*;

verus! {

/// A request of the client.
#[derive(Debug)]
pub enum Request {
    /// Asks whether the server is there.
    Ping,
    /// Asks for the value of a key.
    Get { key: String },
    /// Sets a key to a value.
    Put { key: String, value: String },
    /// Removes a key.
    Remove { key: String },
}

/// An answer of the server.
#[derive(Debug)]
pub enum Response {
    Success,
    Error(String),
    Value(Option<String>),
    Pong,
}

} // verus!
