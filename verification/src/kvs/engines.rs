//! The engines that can stand behind the server, and the rule that keeps a
//! directory with the engine it was first used with.

use crate::kvs::error::ErrorKind;
use crate::kvs::log::tombstone_text;
use crate::kvs::codec::{record_bytes, record_written};
use crate::kvs::store::{remove_done, remove_missed, set_done, KvStore};
use vstd::prelude::*;

verus! {

/// The engine of the key/value store.
#[derive(Copy, Clone, PartialEq, Eq, PartialOrd, Ord, Debug, Structural)]
#[allow(non_camel_case_types)]
pub enum Engine {
    /// The log-structured store of this library.
    kvs,
    /// The sled embedded database.
    sled,
}

impl Engine {
    /// The name under which the engine is chosen and remembered.
    pub open spec fn name_text(self) -> Seq<char> {
        match self {
            Engine::kvs => "kvs"@,
            Engine::sled => "sled"@,
        }
    }

    /// The engine that `text` names, if it names one.
    pub open spec fn named(text: Seq<char>) -> Option<Engine> {
        if text == "kvs"@ {
            Some(Engine::kvs)
        } else if text == "sled"@ {
            Some(Engine::sled)
        } else {
            None
        }
    }

    /// The name under which the engine is chosen and remembered.
    pub fn name(self) -> (r: String)
        ensures
            r@ == self.name_text(),
    {
        match self {
            Engine::kvs => "kvs".to_owned(),
            Engine::sled => "sled".to_owned(),
        }
    }

    /// The engine that `text` names, if it names one.
    pub fn from_name(text: &str) -> (r: Option<Engine>)
        ensures
            r == Engine::named(text@),
    {
        let given = text.to_owned();
        if given == "kvs".to_owned() {
            Some(Engine::kvs)
        } else if given == "sled".to_owned() {
            Some(Engine::sled)
        } else {
            None
        }
    }
}

/// Each engine has its own name.
pub proof fn law_engine_names(engine: Engine)
    ensures
        Engine::named(engine.name_text()) == Some(engine),
{
    reveal_strlit("kvs");
    reveal_strlit("sled");
    assert("kvs"@.len() != "sled"@.len());
}

/// Whether a directory that remembers `used` may be opened with
/// `requested`: a directory that remembers no engine takes any, and one
/// that remembers an engine takes only that one.
pub fn check_engine(used: Option<Engine>, requested: Engine) -> (r: Result<(), ErrorKind>)
    ensures
        match used {
            None => r is Ok,
            Some(engine) => if engine == requested {
                r is Ok
            } else {
                r == Err::<(), ErrorKind>(ErrorKind::WrongEngineUsed)
            },
        },
{
    match used {
        None => Ok(()),
        Some(engine) => {
            if engine == requested {
                Ok(())
            } else {
                Err(ErrorKind::WrongEngineUsed)
            }
        },
    }
}

/// Storage interface for a key/value store.
pub trait KvsEngine {
    /// Sets the value of a string key to a string.
    fn set(&mut self, key: String, value: String) -> (r: Result<(), ErrorKind>)
        requires
            value@ != tombstone_text(),
    ;

    /// Gets the string value of a string key, or `None` for a key that is
    /// not there.
    fn get(&mut self, key: String) -> (r: Result<Option<String>, ErrorKind>);

    /// Removes a given string key.
    fn remove(&mut self, key: String) -> (r: Result<(), ErrorKind>);

    /// Which engine this is.
    fn as_type(&self) -> Engine;
}

impl KvsEngine for KvStore {
    /// Sets `key` to `value` as `KvStore::set` does: it succeeds exactly
    /// where the record can be written, and then the store is as
    /// `set_done` says. Where the record cannot be written, nothing changes
    /// and the error carries the writer's message.
    fn set(&mut self, key: String, value: String) -> (r: Result<(), ErrorKind>)
        ensures
            match r {
                Ok(()) => record_written(key@, value@) is Ok && set_done(
                    old(self).state(),
                    final(self).state(),
                    key@,
                    value@,
                    record_bytes(key@, value@),
                ),
                Err(e) => {
                    &&& e matches ErrorKind::Serialization(why) && record_written(key@, value@)
                        == Err::<Seq<u8>, Seq<char>>(why@)
                    &&& final(self).state() == old(self).state()
                },
            },
    {
        KvStore::set(self, key, value)
    }

    fn get(&mut self, key: String) -> (r: Result<Option<String>, ErrorKind>)
        ensures
            final(self).state() == old(self).state(),
            r matches Ok(found) && match found {
                Some(value) => old(self)@.contains_key(key@) && old(self)@[key@] == value@,
                None => !old(self)@.contains_key(key@),
            },
    {
        KvStore::get(self, key)
    }

    /// Removes `key` as `KvStore::remove` does: where the tombstone can be
    /// written it is added to the log, and the call succeeds exactly if the
    /// store held the key, which then leaves it; for a key that the store
    /// did not hold the error is `KeyNotFound`. Where the tombstone cannot
    /// be written, nothing changes and the error carries the writer's
    /// message.
    fn remove(&mut self, key: String) -> (r: Result<(), ErrorKind>)
        ensures
            match r {
                Ok(()) => {
                    &&& record_written(key@, tombstone_text()) is Ok
                    &&& old(self)@.contains_key(key@)
                    &&& remove_done(
                        old(self).state(),
                        final(self).state(),
                        key@,
                        record_bytes(key@, tombstone_text()),
                    )
                },
                Err(ErrorKind::KeyNotFound) => {
                    &&& record_written(key@, tombstone_text()) is Ok
                    &&& !old(self)@.contains_key(key@)
                    &&& remove_missed(
                        old(self).state(),
                        final(self).state(),
                        record_bytes(key@, tombstone_text()),
                    )
                },
                Err(ErrorKind::Serialization(why)) => {
                    &&& record_written(key@, tombstone_text()) == Err::<Seq<u8>, Seq<char>>(why@)
                    &&& final(self).state() == old(self).state()
                },
                Err(_) => false,
            },
    {
        KvStore::remove(self, key)
    }

    fn as_type(&self) -> (r: Engine)
        ensures
            r == Engine::kvs,
    {
        Engine::kvs
    }
}

} // verus!
