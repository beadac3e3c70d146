//! The entries of the log.

use vstd::prelude::*;

verus! {

/// The value that marks a key as removed.
pub open spec fn tombstone_text() -> Seq<char> {
    "__tombstone__"@
}

/// The value that marks a key as removed.
pub fn tombstone() -> (r: String)
    ensures
        r@ == tombstone_text(),
{
    "__tombstone__".to_owned()
}

/// One record of the log: a key set to a value, or a key removed.
#[derive(Debug)]
pub struct LogEntry {
    pub key: String,
    pub value: String,
}

impl LogEntry {
    /// The record that sets `key` to `value`.
    pub fn add(key: String, value: String) -> (r: Self)
        requires
            value@ != tombstone_text(),
        ensures
            r.key == key,
            r.value == value,
    {
        LogEntry { key, value }
    }

    /// The record that removes `key`.
    pub fn remove(key: String) -> (r: Self)
        ensures
            r.key == key,
            r.value@ == tombstone_text(),
    {
        LogEntry { key, value: tombstone() }
    }

    /// Whether the record removes its key.
    pub fn is_tombstone(&self) -> (r: bool)
        ensures
            r == (self.value@ == tombstone_text()),
    {
        let mark = tombstone();
        self.value == mark
    }
}

} // verus!
