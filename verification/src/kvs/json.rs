//! JSON strings, written and read by `serde_json`.

use vstd::prelude::*;

verus! {

/// What `serde_json` makes of writing a string: the bytes that it writes,
/// or the message of the error by which it refuses.
pub uninterp spec fn json_written(s: Seq<char>) -> Result<Seq<u8>, Seq<char>>;

/// The JSON text of a string: the bytes that `serde_json` writes for it.
pub open spec fn json_text(s: Seq<char>) -> Seq<u8> {
    match json_written(s) {
        Ok(bytes) => bytes,
        Err(_) => Seq::empty(),
    }
}

/// What `serde_json` reads as the first string of a byte stream: `None` at
/// the end of the stream, `Some(None)` where no string can be read, else
/// the string and the number of bytes read.
pub uninterp spec fn json_first_text(bytes: Seq<u8>) -> Option<Option<(Seq<char>, int)>>;

/// `text` reads as the string `s` and nothing more, whatever follows it.
pub open spec fn text_stable(text: Seq<u8>, s: Seq<char>) -> bool {
    forall|rest: Seq<u8>| #[trigger]
        json_first_text(text + rest) == Some(Some((s, text.len() as int)))
}

/// Calls `serde_json::to_vec` on a string. Believed, not proved: the
/// outcome is a function of the string alone; and where bytes come back,
/// `serde_json` reads them back as the same string, stopping at its closing
/// quote whatever bytes follow. An error comes back as its message.
#[verifier::external_body]
pub(crate) fn write_text(s: &str) -> (r: Result<Vec<u8>, String>)
    ensures
        match r {
            Ok(bytes) => json_written(s@) == Ok::<Seq<u8>, Seq<char>>(bytes@) && text_stable(
                bytes@,
                s@,
            ),
            Err(why) => json_written(s@) == Err::<Seq<u8>, Seq<char>>(why@),
        },
{
    match serde_json::to_vec(s) {
        Ok(bytes) => Ok(bytes),
        Err(e) => Err(e.to_string()),
    }
}

/// Reads the first value of `serde_json`'s stream deserializer for strings
/// over `bytes`, with the deserializer's byte offset after it. Believed,
/// not proved: the outcome is a function of the bytes; the offset lies
/// within them; and the bytes up to the offset read as the same string
/// whatever follows them. An error comes back as its message.
#[verifier::external_body]
pub(crate) fn read_text(bytes: &[u8]) -> (r: Option<Result<(String, usize), String>>)
    ensures
        match r {
            None => json_first_text(bytes@) == None::<Option<(Seq<char>, int)>>,
            Some(Err(_)) => json_first_text(bytes@) == Some(None::<(Seq<char>, int)>),
            Some(Ok((s, n))) => {
                &&& json_first_text(bytes@) == Some(Some((s@, n as int)))
                &&& n <= bytes@.len()
                &&& text_stable(bytes@.take(n as int), s@)
            },
        },
{
    let mut stream = serde_json::Deserializer::from_slice(bytes).into_iter::<String>();
    match stream.next() {
        None => None,
        Some(Ok(s)) => Some(Ok((s, stream.byte_offset()))),
        Some(Err(e)) => Some(Err(e.to_string())),
    }
}

} // verus!
