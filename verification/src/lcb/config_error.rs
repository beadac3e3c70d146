//! The errors of starting a node.

use crate::lcb::text::{append_decimal, decimal_text, IntErrorKind};
use vstd::prelude::*;
use vstd::std_specs::convert::FromSpecImpl;
use vstd::string::StringExecFns;

verus! {

/// What can go wrong while a node reads what it is started with.
#[derive(Debug)]
pub enum ConfigError {
    /// A file could not be read; the message says how.
    Io(String),
    /// The settings file has no line.
    EmptyFile,
    /// The settings file does not say how many messages to send.
    NoMessageCount,
    /// The settings file does not say who receives.
    NoReceiverID,
    /// The command line does not have the eight arguments it needs.
    WrongArgsNumber,
    /// A word that should be a number is none.
    ParseInt(IntErrorKind),
    /// The node's own id is not among the hosts.
    UndefinedNodeID(u32),
    /// A line of the hosts file lacks a word.
    InvalidHostsFile,
}

/// What went wrong, without the words of a message.
pub enum Fault {
    /// A line is no text.
    Io,
    EmptyFile,
    NoMessageCount,
    NoReceiverID,
    WrongArgsNumber,
    ParseInt(IntErrorKind),
    UndefinedNodeID(u32),
    InvalidHostsFile,
}

/// The message for a line that is no text.
pub open spec fn bad_text_text() -> Seq<char> {
    "stream did not contain valid UTF-8"@
}

/// The text shown for a word that is no number.
pub open spec fn int_error_text(why: IntErrorKind) -> Seq<char> {
    match why {
        IntErrorKind::Empty => "cannot parse integer from empty string"@,
        IntErrorKind::InvalidDigit => "invalid digit found in string"@,
        IntErrorKind::PosOverflow => "number too large to fit in target type"@,
    }
}

impl ConfigError {
    /// What went wrong.
    pub open spec fn fault(&self) -> Fault {
        match self {
            ConfigError::Io(_) => Fault::Io,
            ConfigError::EmptyFile => Fault::EmptyFile,
            ConfigError::NoMessageCount => Fault::NoMessageCount,
            ConfigError::NoReceiverID => Fault::NoReceiverID,
            ConfigError::WrongArgsNumber => Fault::WrongArgsNumber,
            ConfigError::ParseInt(why) => Fault::ParseInt(*why),
            ConfigError::UndefinedNodeID(id) => Fault::UndefinedNodeID(*id),
            ConfigError::InvalidHostsFile => Fault::InvalidHostsFile,
        }
    }

    /// Whether the error is `fault`, and carries the message for a line
    /// that is no text where that is the fault.
    pub open spec fn is_fault(&self, fault: Fault) -> bool {
        &&& self.fault() == fault
        &&& self matches ConfigError::Io(m) ==> m@ == bad_text_text()
    }

    /// The error for a line that is no text.
    pub fn bad_text() -> (e: ConfigError)
        ensures
            e.is_fault(Fault::Io),
    {
        ConfigError::Io("stream did not contain valid UTF-8".to_owned())
    }

    /// The text shown for the error.
    pub open spec fn message_text(&self) -> Seq<char> {
        match self {
            ConfigError::Io(m) => m@,
            ConfigError::EmptyFile => "Config file is empty"@,
            ConfigError::NoMessageCount => "No message count in config file"@,
            ConfigError::NoReceiverID => "No receiver ID in config file"@,
            ConfigError::ParseInt(why) => int_error_text(*why),
            ConfigError::WrongArgsNumber => "Wrong number of arguments"@,
            ConfigError::UndefinedNodeID(id) => "Undefined node ID: "@ + decimal_text(*id as nat),
            ConfigError::InvalidHostsFile => "Invalid hosts file"@,
        }
    }

    /// The text shown for the error.
    pub fn message(&self) -> (r: String)
        ensures
            r@ == self.message_text(),
    {
        match self {
            ConfigError::Io(m) => m.clone(),
            ConfigError::EmptyFile => "Config file is empty".to_owned(),
            ConfigError::NoMessageCount => "No message count in config file".to_owned(),
            ConfigError::NoReceiverID => "No receiver ID in config file".to_owned(),
            ConfigError::ParseInt(why) => match why {
                IntErrorKind::Empty => "cannot parse integer from empty string".to_owned(),
                IntErrorKind::InvalidDigit => "invalid digit found in string".to_owned(),
                IntErrorKind::PosOverflow => "number too large to fit in target type".to_owned(),
            },
            ConfigError::WrongArgsNumber => "Wrong number of arguments".to_owned(),
            ConfigError::UndefinedNodeID(id) => {
                let mut text = "Undefined node ID: ".to_owned();
                append_decimal(&mut text, *id);
                text
            },
            ConfigError::InvalidHostsFile => "Invalid hosts file".to_owned(),
        }
    }
}

impl From<IntErrorKind> for ConfigError {
    fn from(why: IntErrorKind) -> (r: ConfigError) {
        ConfigError::ParseInt(why)
    }
}

impl FromSpecImpl<IntErrorKind> for ConfigError {
    open spec fn obeys_from_spec() -> bool {
        true
    }

    open spec fn from_spec(why: IntErrorKind) -> ConfigError {
        ConfigError::ParseInt(why)
    }
}

} // verus!
