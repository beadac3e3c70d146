//! The server's side of a connection: one answer for each request.

use crate::kvs::codec::record_written;
use crate::kvs::engines::KvsEngine;
use crate::kvs::error::ErrorKind;
use crate::kvs::log::tombstone_text;
use crate::kvs::requests::{Request, Response};
use crate::kvs::store::{remove_done, remove_missed, set_done, KvStore};
use vstd::prelude::*;

verus! {

/// The answer to a `Get`, given what the engine found.
pub fn answer_get(found: Result<Option<String>, ErrorKind>) -> (response: Response)
    ensures
        match found {
            Ok(value) => response == Response::Value(value),
            Err(e) => response matches Response::Error(text) && text@ == e.message_text(),
        },
{
    match found {
        Ok(value) => Response::Value(value),
        Err(e) => Response::Error(e.message()),
    }
}

/// The answer to a `Put` or a `Remove`, given how the engine fared.
pub fn answer_change(outcome: Result<(), ErrorKind>) -> (response: Response)
    ensures
        match outcome {
            Ok(()) => response is Success,
            Err(e) => response matches Response::Error(text) && text@ == e.message_text(),
        },
{
    match outcome {
        Ok(()) => Response::Success,
        Err(e) => Response::Error(e.message()),
    }
}

/// Carries out `request` on any engine and gives the answer to send back:
/// `Pong` for a `Ping`, and for the rest what `answer_get` and
/// `answer_change` make of the engine's outcome.
pub fn serve<E: KvsEngine>(engine: &mut E, request: Request) -> (response: Response)
    requires
        request matches Request::Put { key, value } ==> value@ != tombstone_text(),
    ensures
        match request {
            Request::Ping => response is Pong,
            Request::Get { key } => response is Value || response is Error,
            Request::Put { key, value } => response is Success || response is Error,
            Request::Remove { key } => response is Success || response is Error,
        },
{
    match request {
        Request::Ping => Response::Pong,
        Request::Get { key } => answer_get(engine.get(key)),
        Request::Put { key, value } => answer_change(engine.set(key, value)),
        Request::Remove { key } => answer_change(engine.remove(key)),
    }
}

/// The server of the key/value store, on its engine.
pub struct KvsServer {
    engine: KvStore,
}

impl View for KvsServer {
    type V = Map<Seq<char>, Seq<char>>;

    /// What the engine holds.
    open spec fn view(&self) -> Map<Seq<char>, Seq<char>> {
        self.store()@
    }
}

impl KvsServer {
    /// The engine behind the server.
    pub closed spec fn store(&self) -> KvStore {
        self.engine
    }

    /// The bytes of the engine's log.
    pub open spec fn log_view(&self) -> Seq<u8> {
        self.store().log_view()
    }

    /// A server on `engine`.
    pub fn new(engine: KvStore) -> (r: Self)
        ensures
            r.store() == engine,
    {
        KvsServer { engine }
    }

    /// The engine behind the server.
    pub fn engine(&self) -> (r: &KvStore)
        ensures
            *r == self.store(),
    {
        &self.engine
    }

    /// Carries out `request` on the engine and gives the answer to send
    /// back. A `Ping` is answered by `Pong`. A `Get` is answered by the
    /// value of the key, or by no value. A `Put` is answered by `Success`
    /// and done where its record can be written. A `Remove` whose tombstone
    /// can be written is answered by `Success` and done for a key that the
    /// engine holds, and by the error `Key not found` for one that it does
    /// not hold. Where the record cannot be written, the answer is the
    /// error with the writer's message, and nothing changes.
    pub fn handle_request(&mut self, request: Request) -> (response: Response)
        requires
            request matches Request::Put { key, value } ==> value@ != tombstone_text(),
        ensures
            match request {
                Request::Ping => {
                    &&& response is Pong
                    &&& final(self).store().state() == old(self).store().state()
                },
                Request::Get { key } => {
                    &&& final(self).store().state() == old(self).store().state()
                    &&& response matches Response::Value(found)
                    &&& match found {
                        Some(value) => old(self)@.contains_key(key@) && old(self)@[key@] == value@,
                        None => !old(self)@.contains_key(key@),
                    }
                },
                Request::Put { key, value } => match record_written(key@, value@) {
                    Ok(record) => response is Success && set_done(
                        old(self).store().state(),
                        final(self).store().state(),
                        key@,
                        value@,
                        record,
                    ),
                    Err(why) => {
                        &&& response matches Response::Error(text) && text@ == why
                        &&& final(self).store().state() == old(self).store().state()
                    },
                },
                Request::Remove { key } => match record_written(key@, tombstone_text()) {
                    Ok(record) => if old(self)@.contains_key(key@) {
                        response is Success && remove_done(
                            old(self).store().state(),
                            final(self).store().state(),
                            key@,
                            record,
                        )
                    } else {
                        &&& response matches Response::Error(text) && text@ == "Key not found"@
                        &&& remove_missed(
                            old(self).store().state(),
                            final(self).store().state(),
                            record,
                        )
                    },
                    Err(why) => {
                        &&& response matches Response::Error(text) && text@ == why
                        &&& final(self).store().state() == old(self).store().state()
                    },
                },
            },
    {
        match request {
            Request::Ping => Response::Pong,
            Request::Get { key } => answer_get(self.engine.get(key)),
            Request::Put { key, value } => answer_change(self.engine.set(key, value)),
            Request::Remove { key } => answer_change(self.engine.remove(key)),
        }
    }
}

} // verus!
