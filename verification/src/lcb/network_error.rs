//! The errors of the network side.

use crate::lcb::text::{append_decimal, decimal_text};
use vstd::prelude::*;
use vstd::string::StringExecFns;

verus! {

/// What can go wrong between nodes.
#[derive(Debug)]
pub enum NetworkError {
    /// Sending or receiving failed; the message says how.
    Io(String),
    /// A payload names a node that the hosts do not list.
    UndefinedNodeID(u32),
    /// Bytes that are no text.
    EncodingError(String),
    /// A payload could not be written to bytes or read from them.
    SerializationError(String),
    /// A queue between two tasks is closed.
    ChannelError,
}

impl NetworkError {
    /// The text shown for the error.
    pub open spec fn message_text(&self) -> Seq<char> {
        match self {
            NetworkError::Io(m) => m@,
            NetworkError::UndefinedNodeID(id) => "Undefined node ID: "@ + decimal_text(*id as nat),
            NetworkError::EncodingError(m) => m@,
            NetworkError::SerializationError(m) => m@,
            NetworkError::ChannelError => "Channel error"@,
        }
    }

    /// The text shown for the error.
    pub fn message(&self) -> (r: String)
        ensures
            r@ == self.message_text(),
    {
        match self {
            NetworkError::Io(m) => m.clone(),
            NetworkError::UndefinedNodeID(id) => {
                let mut text = "Undefined node ID: ".to_owned();
                append_decimal(&mut text, *id);
                text
            },
            NetworkError::EncodingError(m) => m.clone(),
            NetworkError::SerializationError(m) => m.clone(),
            NetworkError::ChannelError => "Channel error".to_owned(),
        }
    }
}

} // verus!
