//! The client's side of a connection: what to make of each answer.

use crate::kvs::requests::Response;
use vstd::prelude::*;

verus! {

/// What the client does after an answer.
#[derive(Debug)]
pub enum Reply {
    /// Nothing to show; the command succeeded.
    Done,
    /// A line for standard output; the command succeeded.
    Print(String),
    /// A line for standard error; the command failed.
    Fail(String),
}

/// The line shown for an answer that does not belong to the request.
pub open spec fn unexpected_text() -> Seq<char> {
    "Unexpected response"@
}

/// The line shown for a key that the store does not hold.
pub open spec fn key_not_found_text() -> Seq<char> {
    "Key not found"@
}

/// What the client does after the answer to a `Ping`.
pub fn read_ping(response: Response) -> (reply: Reply)
    ensures
        match response {
            Response::Pong => reply is Done,
            Response::Error(text) => reply == Reply::Fail(text),
            _ => reply matches Reply::Fail(text) && text@ == unexpected_text(),
        },
{
    match response {
        Response::Pong => Reply::Done,
        Response::Error(text) => Reply::Fail(text),
        _ => Reply::Fail("Unexpected response".to_owned()),
    }
}

/// What the client does after the answer to a `Get`.
pub fn read_get(response: Response) -> (reply: Reply)
    ensures
        match response {
            Response::Value(Some(value)) => reply == Reply::Print(value),
            Response::Value(None) => reply matches Reply::Print(text) && text@
                == key_not_found_text(),
            Response::Error(text) => reply == Reply::Fail(text),
            _ => reply matches Reply::Fail(text) && text@ == unexpected_text(),
        },
{
    match response {
        Response::Value(Some(value)) => Reply::Print(value),
        Response::Value(None) => Reply::Print("Key not found".to_owned()),
        Response::Error(text) => Reply::Fail(text),
        _ => Reply::Fail("Unexpected response".to_owned()),
    }
}

/// What the client does after the answer to a `Put` or a `Remove`.
pub fn read_change(response: Response) -> (reply: Reply)
    ensures
        match response {
            Response::Success => reply is Done,
            Response::Error(text) => reply == Reply::Fail(text),
            _ => reply matches Reply::Fail(text) && text@ == unexpected_text(),
        },
{
    match response {
        Response::Success => Reply::Done,
        Response::Error(text) => Reply::Fail(text),
        _ => Reply::Fail("Unexpected response".to_owned()),
    }
}

} // verus!
