//! The bytes of a record: a JSON object with the members `key` and
//! `value`, in that order, both strings.

use crate::kvs::json::{
    json_first_text, json_text, json_written, read_text, text_stable, write_text,
};
use crate::kvs::log::LogEntry;
use vstd::prelude::*;
use vstd::slice::slice_subrange;

verus! {

/// `{`
pub const OPEN: u8 = 123;

/// `}`
pub const CLOSE: u8 = 125;

/// `:`
pub const COLON: u8 = 58;

/// `,`
pub const COMMA: u8 = 44;

/// The four texts of a record between its braces, colons and comma.
pub open spec fn frame(name: Seq<u8>, key: Seq<u8>, label: Seq<u8>, value: Seq<u8>) -> Seq<u8> {
    seq![OPEN] + name + seq![COLON] + key + seq![COMMA] + label + seq![COLON] + value + seq![CLOSE]
}

/// The bytes of the record that holds `key` and `value`.
pub open spec fn record_bytes(key: Seq<char>, value: Seq<char>) -> Seq<u8> {
    frame(json_text("key"@), json_text(key), json_text("value"@), json_text(value))
}

/// What writing the record of `key` and `value` comes to: its bytes where
/// all four of its texts are written, else the message of the first of
/// them that is refused, in the order name, key, label, value.
pub open spec fn record_written(key: Seq<char>, value: Seq<char>) -> Result<Seq<u8>, Seq<char>> {
    match json_written("key"@) {
        Err(why) => Err(why),
        Ok(name) => match json_written(key) {
            Err(why) => Err(why),
            Ok(key_text) => match json_written("value"@) {
                Err(why) => Err(why),
                Ok(label) => match json_written(value) {
                    Err(why) => Err(why),
                    Ok(value_text) => Ok(frame(name, key_text, label, value_text)),
                },
            },
        },
    }
}

/// Where a record is written, its bytes are `record_bytes`.
pub proof fn lemma_written_bytes(key: Seq<char>, value: Seq<char>)
    ensures
        record_written(key, value) matches Ok(bytes) ==> bytes == record_bytes(key, value),
{
}

/// What the front of a byte stream holds.
pub enum Parsed {
    /// Nothing: the stream is at its end.
    End,
    /// Bytes that are no record.
    Broken,
    /// A record of `len` bytes.
    Entry { key: Seq<char>, value: Seq<char>, len: int },
}

/// The string read at `pos`, with the position after it.
pub open spec fn text_at(bytes: Seq<u8>, pos: int) -> Option<(Seq<char>, int)> {
    if 0 <= pos <= bytes.len() {
        match json_first_text(bytes.skip(pos)) {
            Some(Some((s, n))) => if 0 <= n && pos + n <= bytes.len() {
                Some((s, pos + n))
            } else {
                None
            },
            _ => None,
        }
    } else {
        None
    }
}

/// Whether `bytes` holds `byte` at `pos`.
pub open spec fn byte_at(bytes: Seq<u8>, pos: int, byte: u8) -> bool {
    0 <= pos < bytes.len() && bytes[pos] == byte
}

/// What stands at the front of `bytes`.
pub open spec fn parse_record(bytes: Seq<u8>) -> Parsed {
    if bytes.len() == 0 {
        Parsed::End
    } else if bytes[0] != OPEN {
        Parsed::Broken
    } else {
        match text_at(bytes, 1) {
            None => Parsed::Broken,
            Some((name, end_name)) => if name != "key"@ || !byte_at(bytes, end_name, COLON) {
                Parsed::Broken
            } else {
                match text_at(bytes, end_name + 1) {
                    None => Parsed::Broken,
                    Some((key, end_key)) => if !byte_at(bytes, end_key, COMMA) {
                        Parsed::Broken
                    } else {
                        match text_at(bytes, end_key + 1) {
                            None => Parsed::Broken,
                            Some((label, end_label)) => if label != "value"@ || !byte_at(
                                bytes,
                                end_label,
                                COLON,
                            ) {
                                Parsed::Broken
                            } else {
                                match text_at(bytes, end_label + 1) {
                                    None => Parsed::Broken,
                                    Some((value, end_value)) => if !byte_at(bytes, end_value, CLOSE) {
                                        Parsed::Broken
                                    } else {
                                        Parsed::Entry { key, value, len: end_value + 1 }
                                    },
                                }
                            },
                        }
                    },
                }
            },
        }
    }
}

/// `bytes` is one whole record of `key` and `value`, and reads as that
/// record whatever follows it.
pub open spec fn stable_record(bytes: Seq<u8>, key: Seq<char>, value: Seq<char>) -> bool {
    forall|rest: Seq<u8>| #[trigger]
        parse_record(bytes + rest) == (Parsed::Entry { key, value, len: bytes.len() as int })
}

/// A string read at `pos` where a stable text stands.
proof fn lemma_text_at(bytes: Seq<u8>, pos: int, text: Seq<u8>, s: Seq<char>)
    requires
        text_stable(text, s),
        0 <= pos,
        pos + text.len() <= bytes.len(),
        bytes.subrange(pos, pos + text.len()) == text,
    ensures
        text_at(bytes, pos) == Some((s, pos + text.len())),
{
    let rest = bytes.skip(pos + text.len());
    assert(bytes.skip(pos) =~= text + rest);
}

/// Four stable texts in a frame make a stable record.
pub proof fn lemma_frame_stable(
    name: Seq<u8>,
    key_text: Seq<u8>,
    label: Seq<u8>,
    value_text: Seq<u8>,
    key: Seq<char>,
    value: Seq<char>,
)
    requires
        text_stable(name, "key"@),
        text_stable(key_text, key),
        text_stable(label, "value"@),
        text_stable(value_text, value),
    ensures
        stable_record(frame(name, key_text, label, value_text), key, value),
{
    let record = frame(name, key_text, label, value_text);
    assert forall|rest: Seq<u8>| #[trigger]
        parse_record(record + rest) == (Parsed::Entry { key, value, len: record.len() as int }) by {
        let bytes = record + rest;
        let end_name: int = 1 + name.len() as int;
        let end_key: int = end_name + 1 + key_text.len();
        let end_label: int = end_key + 1 + label.len();
        let end_value: int = end_label + 1 + value_text.len();
        assert(bytes.subrange(1, end_name) =~= name);
        assert(bytes.subrange(end_name + 1, end_key) =~= key_text);
        assert(bytes.subrange(end_key + 1, end_label) =~= label);
        assert(bytes.subrange(end_label + 1, end_value) =~= value_text);
        lemma_text_at(bytes, 1, name, "key"@);
        lemma_text_at(bytes, end_name + 1, key_text, key);
        lemma_text_at(bytes, end_key + 1, label, "value"@);
        lemma_text_at(bytes, end_label + 1, value_text, value);
        assert(bytes[0] == OPEN);
        assert(bytes[end_name] == COLON);
        assert(bytes[end_key] == COMMA);
        assert(bytes[end_label] == COLON);
        assert(bytes[end_value] == CLOSE);
    }
}

/// A stable record is not empty and reads as itself.
pub proof fn lemma_stable_reads(bytes: Seq<u8>, key: Seq<char>, value: Seq<char>)
    requires
        stable_record(bytes, key, value),
    ensures
        bytes.len() > 0,
        parse_record(bytes) == (Parsed::Entry { key, value, len: bytes.len() as int }),
{
    assert(bytes + Seq::<u8>::empty() =~= bytes);
    assert(parse_record(bytes + Seq::<u8>::empty()) == (Parsed::Entry {
        key,
        value,
        len: bytes.len() as int,
    }));
}

/// What `decode_record` found at the front of its bytes.
#[derive(Debug)]
pub enum Decoded {
    /// Nothing: the bytes are at their end.
    End,
    /// Bytes that are no record, with the reason.
    Broken(String),
    /// A record of `len` bytes.
    Entry { entry: LogEntry, len: usize },
}

impl Decoded {
    /// Whether this is what `parsed` says.
    pub open spec fn matches_parsed(self, parsed: Parsed) -> bool {
        match self {
            Decoded::End => parsed == Parsed::End,
            Decoded::Broken(_) => parsed == Parsed::Broken,
            Decoded::Entry { entry, len } => parsed == (Parsed::Entry {
                key: entry.key@,
                value: entry.value@,
                len: len as int,
            }),
        }
    }
}

/// Writes the record of `entry` given the outcome of writing its four
/// texts.
pub fn frame_texts(
    name: Vec<u8>,
    key: Vec<u8>,
    label: Vec<u8>,
    value: Vec<u8>,
) -> (r: Vec<u8>)
    ensures
        r@ == frame(name@, key@, label@, value@),
{
    let ghost texts = (name@, key@, label@, value@);
    let mut out: Vec<u8> = Vec::new();
    out.push(OPEN);
    let mut name = name;
    out.append(&mut name);
    out.push(COLON);
    let mut key = key;
    out.append(&mut key);
    out.push(COMMA);
    let mut label = label;
    out.append(&mut label);
    out.push(COLON);
    let mut value = value;
    out.append(&mut value);
    out.push(CLOSE);
    assert(out@ =~= frame(texts.0, texts.1, texts.2, texts.3));
    out
}

/// The bytes of the record of `entry`, or the message of the first of its
/// four texts that could not be written. What comes back on success is a
/// stable record.
pub fn encode_record(entry: &LogEntry) -> (r: Result<Vec<u8>, String>)
    ensures
        match r {
            Ok(bytes) => {
                &&& record_written(entry.key@, entry.value@) == Ok::<Seq<u8>, Seq<char>>(bytes@)
                &&& bytes@ == record_bytes(entry.key@, entry.value@)
                &&& stable_record(bytes@, entry.key@, entry.value@)
            },
            Err(why) => record_written(entry.key@, entry.value@) == Err::<Seq<u8>, Seq<char>>(
                why@,
            ),
        },
{
    let name = match write_text("key") {
        Ok(text) => text,
        Err(why) => {
            return Err(why);
        },
    };
    let key = match write_text(entry.key.as_str()) {
        Ok(text) => text,
        Err(why) => {
            return Err(why);
        },
    };
    let label = match write_text("value") {
        Ok(text) => text,
        Err(why) => {
            return Err(why);
        },
    };
    let value = match write_text(entry.value.as_str()) {
        Ok(text) => text,
        Err(why) => {
            return Err(why);
        },
    };
    proof {
        lemma_frame_stable(name@, key@, label@, value@, entry.key@, entry.value@);
    }
    Ok(frame_texts(name, key, label, value))
}

/// Reads the string at `pos`.
fn decode_text(bytes: &[u8], pos: usize) -> (r: Result<(String, usize), String>)
    requires
        pos <= bytes@.len(),
    ensures
        match r {
            Ok((s, end)) => {
                &&& text_at(bytes@, pos as int) == Some((s@, end as int))
                &&& pos <= end <= bytes@.len()
                &&& text_stable(bytes@.subrange(pos as int, end as int), s@)
            },
            Err(_) => text_at(bytes@, pos as int) == None::<(Seq<char>, int)>,
        },
{
    let rest = slice_subrange(bytes, pos, bytes.len());
    assert(rest@ =~= bytes@.skip(pos as int));
    match read_text(rest) {
        None => Err("unexpected end of record".to_owned()),
        Some(Err(why)) => Err(why),
        Some(Ok((s, n))) => {
            assert(rest@.take(n as int) =~= bytes@.subrange(pos as int, pos + n));
            Ok((s, pos + n))
        },
    }
}

/// Whether `bytes` holds `byte` at `pos`.
fn has_byte(bytes: &[u8], pos: usize, byte: u8) -> (r: bool)
    ensures
        r == byte_at(bytes@, pos as int, byte),
{
    pos < bytes.len() && bytes[pos] == byte
}

/// Reads what stands at the front of `bytes`. A record that is found is
/// stable: its bytes read as the same record whatever follows them.
pub fn decode_record(bytes: &[u8]) -> (r: Decoded)
    ensures
        r.matches_parsed(parse_record(bytes@)),
        r matches Decoded::Entry { entry, len } ==> {
            &&& 0 < len <= bytes@.len()
            &&& stable_record(bytes@.take(len as int), entry.key@, entry.value@)
        },
{
    if bytes.len() == 0 {
        return Decoded::End;
    }
    if bytes[0] != OPEN {
        return Decoded::Broken("expected the start of a record".to_owned());
    }
    let (name, end_name) = match decode_text(bytes, 1) {
        Ok(found) => found,
        Err(why) => {
            return Decoded::Broken(why);
        },
    };
    let key_name = "key".to_owned();
    if !(name == key_name) || !has_byte(bytes, end_name, COLON) {
        return Decoded::Broken("expected the member `key`".to_owned());
    }
    let (key, end_key) = match decode_text(bytes, end_name + 1) {
        Ok(found) => found,
        Err(why) => {
            return Decoded::Broken(why);
        },
    };
    if !has_byte(bytes, end_key, COMMA) {
        return Decoded::Broken("expected a second member".to_owned());
    }
    let (label, end_label) = match decode_text(bytes, end_key + 1) {
        Ok(found) => found,
        Err(why) => {
            return Decoded::Broken(why);
        },
    };
    let value_name = "value".to_owned();
    if !(label == value_name) || !has_byte(bytes, end_label, COLON) {
        return Decoded::Broken("expected the member `value`".to_owned());
    }
    let (value, end_value) = match decode_text(bytes, end_label + 1) {
        Ok(found) => found,
        Err(why) => {
            return Decoded::Broken(why);
        },
    };
    if !has_byte(bytes, end_value, CLOSE) {
        return Decoded::Broken("expected the end of a record".to_owned());
    }
    proof {
        let b = bytes@;
        lemma_frame_stable(
            b.subrange(1, end_name as int),
            b.subrange(end_name + 1, end_key as int),
            b.subrange(end_key + 1, end_label as int),
            b.subrange(end_label + 1, end_value as int),
            key@,
            value@,
        );
        assert(b.take(end_value + 1) =~= frame(
            b.subrange(1, end_name as int),
            b.subrange(end_name + 1, end_key as int),
            b.subrange(end_key + 1, end_label as int),
            b.subrange(end_label + 1, end_value as int),
        ));
    }
    Decoded::Entry { entry: LogEntry { key, value }, len: end_value + 1 }
}

} // verus!
