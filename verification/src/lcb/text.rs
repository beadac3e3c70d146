//! Reading the bytes of the hosts and settings files: lines, the words of
//! a line, and numbers.

use vstd::prelude::*;
use vstd::string::StringExecFns;
use vstd::utf8::{encode_utf8, valid_utf8};

verus! {

/// Why a word is no number.
#[derive(Debug, Clone, Copy, PartialEq, Eq, Structural)]
pub enum IntErrorKind {
    /// The word is empty.
    Empty,
    /// The word holds a byte that is no digit, or is a lone sign.
    InvalidDigit,
    /// The number does not fit in 32 bits.
    PosOverflow,
}

/// The bytes that are white space on their own: the space and the control
/// bytes from the tab to the carriage return.
pub open spec fn is_space(b: u8) -> bool {
    b == 32 || (9 <= b && b <= 13)
}

/// The pairs of bytes that are white space in UTF-8: the next-line mark and
/// the no-break space.
pub open spec fn is_space_pair(a: u8, b: u8) -> bool {
    a == 0xC2 && (b == 0x85 || b == 0xA0)
}

/// The triples of bytes that are white space in UTF-8: the ogham space
/// mark, the spaces from the en quad to the hair space, the line and the
/// paragraph separator, the narrow no-break space, the medium mathematical
/// space and the ideographic space.
pub open spec fn is_space_triple(a: u8, b: u8, c: u8) -> bool {
    ||| a == 0xE1 && b == 0x9A && c == 0x80
    ||| a == 0xE2 && b == 0x80 && ((0x80 <= c && c <= 0x8A) || c == 0xA8 || c == 0xA9 || c == 0xAF)
    ||| a == 0xE2 && b == 0x81 && c == 0x9F
    ||| a == 0xE3 && b == 0x80 && c == 0x80
}

/// The number of bytes of the white space that `bytes` ends with, or 0 if
/// it ends with none.
pub open spec fn space_tail(bytes: Seq<u8>) -> nat {
    let n = bytes.len() as int;
    if n >= 1 && is_space(bytes[n - 1]) {
        1
    } else if n >= 2 && is_space_pair(bytes[n - 2], bytes[n - 1]) {
        2
    } else if n >= 3 && is_space_triple(bytes[n - 3], bytes[n - 2], bytes[n - 1]) {
        3
    } else {
        0
    }
}

/// A line without the carriage return at its end, if it has one.
pub open spec fn strip_cr(line: Seq<u8>) -> Seq<u8> {
    if line.len() > 0 && line.last() == 13 {
        line.drop_last()
    } else {
        line
    }
}

/// The lines that end within `bytes`, and the bytes behind the last line
/// end.
pub open spec fn scan_lines(bytes: Seq<u8>) -> (Seq<Seq<u8>>, Seq<u8>)
    decreases bytes.len(),
{
    if bytes.len() == 0 {
        (Seq::empty(), Seq::empty())
    } else {
        let (done, current) = scan_lines(bytes.drop_last());
        if bytes.last() == 10 {
            (done.push(strip_cr(current)), Seq::empty())
        } else {
            (done, current.push(bytes.last()))
        }
    }
}

/// The lines of `bytes`. A line ends at a line feed, and a carriage return
/// before the line feed is no part of it. Bytes behind the last line feed
/// are a line of their own.
pub open spec fn lines_of(bytes: Seq<u8>) -> Seq<Seq<u8>> {
    let (done, current) = scan_lines(bytes);
    if current.len() > 0 {
        done.push(current)
    } else {
        done
    }
}

/// The words that end within `line`, and the bytes of the word that is
/// still open at its end.
pub open spec fn scan_words(line: Seq<u8>) -> (Seq<Seq<u8>>, Seq<u8>)
    decreases line.len(),
{
    if line.len() == 0 {
        (Seq::empty(), Seq::empty())
    } else {
        let (done, current) = scan_words(line.drop_last());
        let grown = current.push(line.last());
        let tail = space_tail(grown);
        if tail > 0 {
            let word = grown.take(grown.len() - tail);
            if word.len() > 0 {
                (done.push(word), Seq::empty())
            } else {
                (done, Seq::empty())
            }
        } else {
            (done, grown)
        }
    }
}

/// The words of `line`: its longest stretches without white space, where
/// white space is what Unicode calls so, in UTF-8.
pub open spec fn words_of(line: Seq<u8>) -> Seq<Seq<u8>> {
    let (done, current) = scan_words(line);
    if current.len() > 0 {
        done.push(current)
    } else {
        done
    }
}

/// The number that the digits spell, or the first thing, read from the
/// left, that keeps them from spelling one.
pub open spec fn digits_value(digits: Seq<u8>) -> Result<u32, IntErrorKind>
    decreases digits.len(),
{
    if digits.len() == 0 {
        Ok(0)
    } else {
        match digits_value(digits.drop_last()) {
            Err(why) => Err(why),
            Ok(before) => {
                let d = digits.last();
                if d < 48 || d > 57 {
                    Err(IntErrorKind::InvalidDigit)
                } else if before * 10 + (d - 48) > u32::MAX {
                    Err(IntErrorKind::PosOverflow)
                } else {
                    Ok((before * 10 + (d - 48)) as u32)
                }
            },
        }
    }
}

/// The number that `word` spells: decimal digits, with or without a plus
/// sign before them.
pub open spec fn number_of(word: Seq<u8>) -> Result<u32, IntErrorKind> {
    if word.len() == 0 {
        Err(IntErrorKind::Empty)
    } else if word.len() == 1 && (word[0] == 43 || word[0] == 45) {
        Err(IntErrorKind::InvalidDigit)
    } else if word[0] == 43 {
        digits_value(word.skip(1))
    } else {
        digits_value(word)
    }
}

/// The contents of a list of byte strings.
pub open spec fn byte_views(list: Seq<Vec<u8>>) -> Seq<Seq<u8>> {
    list.map_values(|v: Vec<u8>| v@)
}

/// Whether `b` is white space on its own.
pub fn parts_words(b: u8) -> (r: bool)
    ensures
        r == is_space(b),
{
    b == 32 || (9 <= b && b <= 13)
}

/// The number of bytes of the white space that `bytes` ends with.
pub fn ends_with_space(bytes: &Vec<u8>) -> (r: usize)
    ensures
        r == space_tail(bytes@),
{
    let n = bytes.len();
    if n >= 1 && parts_words(bytes[n - 1]) {
        return 1;
    }
    if n >= 2 {
        let a = bytes[n - 2];
        let b = bytes[n - 1];
        if a == 0xC2 && (b == 0x85 || b == 0xA0) {
            return 2;
        }
    }
    if n >= 3 {
        let a = bytes[n - 3];
        let b = bytes[n - 2];
        let c = bytes[n - 1];
        if (a == 0xE1 && b == 0x9A && c == 0x80) || (a == 0xE2 && b == 0x80 && ((0x80 <= c && c
            <= 0x8A) || c == 0xA8 || c == 0xA9 || c == 0xAF)) || (a == 0xE2 && b == 0x81 && c
            == 0x9F) || (a == 0xE3 && b == 0x80 && c == 0x80) {
            return 3;
        }
    }
    0
}

/// Whether `bytes` are text: UTF-8.
pub fn is_text(bytes: &Vec<u8>) -> (r: bool)
    ensures
        r == valid_utf8(bytes@),
{
    let copy = bytes.clone();
    assert(copy@ =~= bytes@);
    match text_from_bytes(copy) {
        Some(text) => {
            proof {
                vstd::utf8::encode_utf8_valid_utf8(text@);
            }
            true
        },
        None => false,
    }
}

/// The lines of `bytes`.
pub fn split_lines(bytes: &[u8]) -> (r: Vec<Vec<u8>>)
    ensures
        byte_views(r@) == lines_of(bytes@),
{
    let mut done: Vec<Vec<u8>> = Vec::new();
    let mut current: Vec<u8> = Vec::new();
    let mut i: usize = 0;
    assert(byte_views(done@) =~= Seq::<Seq<u8>>::empty());
    assert(bytes@.take(0) =~= Seq::<u8>::empty());
    while i < bytes.len()
        invariant
            i <= bytes.len(),
            (byte_views(done@), current@) == scan_lines(bytes@.take(i as int)),
        decreases bytes.len() - i,
    {
        let b = bytes[i];
        let ghost shown = byte_views(done@);
        assert(bytes@.take(i + 1).drop_last() =~= bytes@.take(i as int));
        if b == 10 {
            if current.len() > 0 && current[current.len() - 1] == 13 {
                let ghost whole = current@;
                current.pop();
                assert(current@ =~= strip_cr(whole));
            }
            let ghost line = current@;
            done.push(current);
            current = Vec::new();
            assert(byte_views(done@) =~= shown.push(line));
            assert(current@ =~= Seq::<u8>::empty());
        } else {
            current.push(b);
        }
        i = i + 1;
    }
    assert(bytes@.take(i as int) =~= bytes@);
    if current.len() > 0 {
        let ghost shown = byte_views(done@);
        let ghost line = current@;
        done.push(current);
        assert(byte_views(done@) =~= shown.push(line));
    }
    done
}

/// The words of `line`.
pub fn split_words(line: &[u8]) -> (r: Vec<Vec<u8>>)
    ensures
        byte_views(r@) == words_of(line@),
{
    let mut done: Vec<Vec<u8>> = Vec::new();
    let mut current: Vec<u8> = Vec::new();
    let mut i: usize = 0;
    assert(byte_views(done@) =~= Seq::<Seq<u8>>::empty());
    assert(line@.take(0) =~= Seq::<u8>::empty());
    while i < line.len()
        invariant
            i <= line.len(),
            (byte_views(done@), current@) == scan_words(line@.take(i as int)),
        decreases line.len() - i,
    {
        let ghost shown = byte_views(done@);
        assert(line@.take(i + 1).drop_last() =~= line@.take(i as int));
        current.push(line[i]);
        let tail = ends_with_space(&current);
        if tail > 0 {
            let ghost grown = current@;
            current.truncate(current.len() - tail);
            assert(current@ =~= grown.take(grown.len() - tail));
            if current.len() > 0 {
                let ghost word = current@;
                done.push(current);
                current = Vec::new();
                assert(byte_views(done@) =~= shown.push(word));
            }
            assert(current@ =~= Seq::<u8>::empty());
        }
        i = i + 1;
    }
    assert(line@.take(i as int) =~= line@);
    if current.len() > 0 {
        let ghost shown = byte_views(done@);
        let ghost word = current@;
        done.push(current);
        assert(byte_views(done@) =~= shown.push(word));
    }
    done
}

/// The number that the digits of `word` from `start` on spell.
fn parse_digits(word: &[u8], start: usize) -> (r: Result<u32, IntErrorKind>)
    requires
        start <= word@.len(),
    ensures
        r == digits_value(word@.skip(start as int)),
{
    let ghost digits = word@.skip(start as int);
    let mut value: u32 = 0;
    let mut i: usize = start;
    assert(digits.take(0) =~= Seq::<u8>::empty());
    while i < word.len()
        invariant
            start <= i <= word.len(),
            digits == word@.skip(start as int),
            digits_value(digits.take(i - start)) == Ok::<u32, IntErrorKind>(value),
        decreases word.len() - i,
    {
        let d = word[i];
        assert(digits.take(i + 1 - start).drop_last() =~= digits.take(i - start));
        assert(digits.take(i + 1 - start).last() == d);
        if d < 48 || d > 57 {
            proof {
                lemma_error_stays(digits, i + 1 - start);
            }
            return Err(IntErrorKind::InvalidDigit);
        }
        let wide: u64 = (value as u64) * 10 + ((d - 48) as u64);
        if wide > u32::MAX as u64 {
            proof {
                lemma_error_stays(digits, i + 1 - start);
            }
            return Err(IntErrorKind::PosOverflow);
        }
        value = wide as u32;
        i = i + 1;
    }
    assert(digits.take(i - start) =~= digits);
    Ok(value)
}

/// Once a prefix of the digits spells no number, neither do the digits,
/// and for the same reason.
proof fn lemma_error_stays(digits: Seq<u8>, n: int)
    requires
        0 <= n <= digits.len(),
        digits_value(digits.take(n)) is Err,
    ensures
        digits_value(digits) == digits_value(digits.take(n)),
    decreases digits.len() - n,
{
    if n == digits.len() {
        assert(digits.take(n) =~= digits);
    } else {
        assert(digits.take(n + 1).drop_last() =~= digits.take(n));
        lemma_error_stays(digits, n + 1);
    }
}

/// The number that `word` spells.
pub fn parse_number(word: &[u8]) -> (r: Result<u32, IntErrorKind>)
    ensures
        r == number_of(word@),
{
    if word.len() == 0 {
        return Err(IntErrorKind::Empty);
    }
    if word.len() == 1 && (word[0] == 43 || word[0] == 45) {
        return Err(IntErrorKind::InvalidDigit);
    }
    if word[0] == 43 {
        parse_digits(word, 1)
    } else {
        assert(word@.skip(0) =~= word@);
        parse_digits(word, 0)
    }
}

/// Calls `String::from_utf8`. Believed, not proved: bytes that are UTF-8
/// come back as the text with just those bytes, and bytes that are not
/// come back as nothing.
#[verifier::external_body]
pub(crate) fn text_from_bytes(bytes: Vec<u8>) -> (r: Option<String>)
    ensures
        match r {
            Some(text) => encode_utf8(text@) == bytes@,
            None => !valid_utf8(bytes@),
        },
{
    String::from_utf8(bytes).ok()
}

/// The digit `d` as a character.
pub open spec fn digit_char(d: nat) -> char {
    if d % 10 == 0 {
        '0'
    } else if d % 10 == 1 {
        '1'
    } else if d % 10 == 2 {
        '2'
    } else if d % 10 == 3 {
        '3'
    } else if d % 10 == 4 {
        '4'
    } else if d % 10 == 5 {
        '5'
    } else if d % 10 == 6 {
        '6'
    } else if d % 10 == 7 {
        '7'
    } else if d % 10 == 8 {
        '8'
    } else {
        '9'
    }
}

/// The decimal digits of `n`, as text.
pub open spec fn decimal_text(n: nat) -> Seq<char>
    decreases n,
{
    if n < 10 {
        seq![digit_char(n)]
    } else {
        decimal_text(n / 10).push(digit_char(n % 10))
    }
}

/// The digit `d` as text.
fn digit_text(d: u32) -> (r: &'static str)
    requires
        d < 10,
    ensures
        r@ == seq![digit_char(d as nat)],
{
    proof {
        reveal_strlit("0");
        reveal_strlit("1");
        reveal_strlit("2");
        reveal_strlit("3");
        reveal_strlit("4");
        reveal_strlit("5");
        reveal_strlit("6");
        reveal_strlit("7");
        reveal_strlit("8");
        reveal_strlit("9");
    }
    let r = if d == 0 {
        "0"
    } else if d == 1 {
        "1"
    } else if d == 2 {
        "2"
    } else if d == 3 {
        "3"
    } else if d == 4 {
        "4"
    } else if d == 5 {
        "5"
    } else if d == 6 {
        "6"
    } else if d == 7 {
        "7"
    } else if d == 8 {
        "8"
    } else {
        "9"
    };
    assert(r@ =~= seq![digit_char(d as nat)]);
    r
}

/// Puts the decimal digits of `n` at the end of `out`.
pub fn append_decimal(out: &mut String, n: u32)
    ensures
        final(out)@ == old(out)@ + decimal_text(n as nat),
    decreases n,
{
    let ghost before = out@;
    if n >= 10 {
        append_decimal(out, n / 10);
    }
    out.append(digit_text(n % 10));
    assert(out@ =~= before + decimal_text(n as nat));
}

} // verus!
