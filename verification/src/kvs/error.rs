//! The errors of the store.

use vstd::prelude::*;
use vstd::string::StringExecFns;

verus! {

/// What can go wrong in the store and around it.
#[derive(Debug)]
pub enum ErrorKind {
    /// Reading or writing failed; the message says how.
    Io(String),
    /// A record could not be written or read; the message says why.
    Serialization(String),
    /// Bytes that are no text.
    ConversionError(String),
    /// The key to remove is not in the store.
    KeyNotFound,
    /// The other storage engine failed; the message says how.
    DatabaseEngine(String),
    /// The directory was last used with another engine.
    WrongEngineUsed,
}

impl ErrorKind {
    /// The text shown for the error.
    pub open spec fn message_text(&self) -> Seq<char> {
        match self {
            ErrorKind::Io(m) => m@,
            ErrorKind::Serialization(m) => m@,
            ErrorKind::ConversionError(m) => "ConversionError: "@ + m@,
            ErrorKind::KeyNotFound => "Key not found"@,
            ErrorKind::DatabaseEngine(m) => m@,
            ErrorKind::WrongEngineUsed => "Wrong engine used"@,
        }
    }

    /// The text shown for the error.
    pub fn message(&self) -> (r: String)
        ensures
            r@ == self.message_text(),
    {
        match self {
            ErrorKind::Io(m) => m.clone(),
            ErrorKind::Serialization(m) => m.clone(),
            ErrorKind::ConversionError(m) => {
                let mut text = "ConversionError: ".to_owned();
                text.append(m.as_str());
                text
            },
            ErrorKind::KeyNotFound => "Key not found".to_owned(),
            ErrorKind::DatabaseEngine(m) => m.clone(),
            ErrorKind::WrongEngineUsed => "Wrong engine used".to_owned(),
        }
    }
}

} // verus!
