//! Turning the bytes of a file into text.
//!
//! Two readings are tried, in a fixed order: that of the legacy decoder
//! first, UTF-8 second. The order matters, since some byte sequences are
//! valid under both. The legacy decoder reads Shift-JIS; a buffer that
//! begins with a byte-order mark it reads as the mark says, as UTF-8 or
//! UTF-16.

use std::string::FromUtf8Error;
use vstd::prelude::*;
use vstd::utf8::{decode_utf8, valid_utf8};

verus! {

/// What `encoding_rs::SHIFT_JIS.decode` gives for `bytes`: the decoded text,
/// and whether a malformed sequence was met on the way.
pub uninterp spec fn shift_jis_decoding(bytes: Seq<u8>) -> (Seq<char>, bool);

/// A buffer of `n` bytes is short enough for the decoder to size its output.
/// The decoder makes room for three bytes of output for each byte of input,
/// and may ask for as much again; both together must fit in half a `usize`.
pub open spec fn decodable_len(n: nat) -> bool {
    6 * (n + 2) <= usize::MAX / 2
}

/// Tells whether a buffer of `n` bytes is short enough to be decoded.
pub fn is_decodable_len(n: usize) -> (fits: bool)
    ensures
        fits == decodable_len(n as nat),
{
    n <= usize::MAX / 2 / 6 - 2
}

/// Calls `encoding_rs::SHIFT_JIS.decode` on the whole buffer; the call
/// looks for a byte-order mark first and reads what follows one as the
/// mark says. The contract
/// claims no more than that the call is a function of the bytes: the text and
/// the flag it returns are those named by `shift_jis_decoding`. The decoder
/// panics when the size of its output buffer overflows, which the bound on
/// the length excludes.
#[verifier::external_body]
fn shift_jis_decode(data: &[u8]) -> (r: (String, bool))
    requires
        decodable_len(data@.len()),
    ensures
        (r.0@, r.1) == shift_jis_decoding(data@),
{
    let (text, _, malformed) = encoding_rs::SHIFT_JIS.decode(data);
    (text.into_owned(), malformed)
}

/// `std::string::FromUtf8Error`, which the library hands on and never
/// looks into.
#[verifier::external_type_specification]
#[verifier::external_body]
pub struct ExFromUtf8Error(FromUtf8Error);

/// `String::from_utf8` succeeds exactly on well-formed UTF-8, and the string
/// it returns is the text that the bytes encode.
pub assume_specification[ String::from_utf8 ](vec: Vec<u8>) -> (r: Result<String, FromUtf8Error>)
    ensures
        r is Ok <==> valid_utf8(vec@),
        r matches Ok(s) ==> s@ == decode_utf8(vec@),
;

/// The description that a `FromUtf8Error` displays. Nothing is claimed of it.
#[verifier::external_body]
fn utf8_error_text(e: &FromUtf8Error) -> String {
    e.to_string()
}

/// The stage of decoding at which a buffer was turned down.
#[derive(Debug, Clone, Copy, PartialEq, Eq, Structural)]
pub enum StringDecodeErrorKind {
    /// The legacy decoder met a malformed sequence.
    FromSjis,
}

/// Why the legacy decoder could not read a buffer.
#[derive(Debug)]
pub struct StringDecodeError {
    pub kind: StringDecodeErrorKind,
    pub msg: String,
}

impl StringDecodeError {
    /// An error of the given kind with the given message.
    pub fn new(kind: StringDecodeErrorKind, msg: &str) -> (e: Self)
        ensures
            e.kind == kind,
            e.msg@ == msg@,
    {
        StringDecodeError { kind: kind, msg: msg.to_owned() }
    }

    /// The message of the error, as it is shown to a reader.
    pub fn message(&self) -> (r: String)
        ensures
            r@ == self.msg@,
    {
        self.msg.clone()
    }
}

/// The legacy decoder met a malformed sequence in the bytes, and they are
/// not well-formed UTF-8 either.
#[derive(Debug)]
pub struct DecodeError {
    /// What the UTF-8 decoder said of the bytes.
    pub reason: String,
}

/// What the legacy decoder reads in `bytes`, if it reads them without a
/// malformed sequence: Shift-JIS, or UTF-8 or UTF-16 behind a byte-order
/// mark.
pub open spec fn legacy_text(bytes: Seq<u8>) -> Option<Seq<char>> {
    if shift_jis_decoding(bytes).1 {
        None
    } else {
        Some(shift_jis_decoding(bytes).0)
    }
}

/// The text of `bytes`: what the legacy decoder reads where it reads them
/// without a malformed sequence, else their text as UTF-8 where they are
/// well-formed UTF-8, else none.
pub open spec fn decoded_text(bytes: Seq<u8>) -> Option<Seq<char>> {
    match legacy_text(bytes) {
        Some(text) => Some(text),
        None => if valid_utf8(bytes) {
            Some(decode_utf8(bytes))
        } else {
            None
        },
    }
}

/// Judges what the legacy decoder returned: the text stands if no
/// malformed sequence was met, and is dropped for an error otherwise.
pub fn legacy_outcome(text: String, malformed: bool) -> (r: Result<String, StringDecodeError>)
    ensures
        !malformed ==> r == Ok::<String, StringDecodeError>(text),
        malformed ==> (r matches Err(e) && e.kind == StringDecodeErrorKind::FromSjis && e.msg@
            == "SJISではありません。"@),
{
    if malformed {
        return Err(StringDecodeError::new(StringDecodeErrorKind::FromSjis, "SJISではありません。"));
    }
    Ok(text)
}

/// Reads `data` with the legacy decoder, and fails if it meets a malformed
/// sequence.
pub fn fallback_charcode(data: &Vec<u8>) -> (r: Result<String, StringDecodeError>)
    requires
        decodable_len(data@.len()),
    ensures
        match legacy_text(data@) {
            Some(text) => r matches Ok(s) && s@ == text,
            None => r matches Err(e) && e.kind == StringDecodeErrorKind::FromSjis && e.msg@
                == "SJISではありません。"@,
        },
{
    let (text, malformed) = shift_jis_decode(data.as_slice());
    legacy_outcome(text, malformed)
}

/// Settles the text of `bytes` once the legacy reading is known: a
/// successful reading stands; after a failed one the bytes are read as UTF-8.
pub fn resolve_text(legacy: Result<String, StringDecodeError>, bytes: Vec<u8>) -> (r: Result<
    String,
    DecodeError,
>)
    ensures
        match legacy {
            Ok(text) => r matches Ok(s) && s == text,
            Err(_) => if valid_utf8(bytes@) {
                r matches Ok(s) && s@ == decode_utf8(bytes@)
            } else {
                r is Err
            },
        },
{
    match legacy {
        Ok(text) => Ok(text),
        Err(_) => match String::from_utf8(bytes) {
            Ok(text) => Ok(text),
            Err(e) => Err(DecodeError { reason: utf8_error_text(&e) }),
        },
    }
}

/// The text of `bytes`: the legacy decoder is tried first, UTF-8 second; if
/// neither reads the bytes without error, there is no text.
pub fn decode(bytes: Vec<u8>) -> (r: Result<String, DecodeError>)
    requires
        decodable_len(bytes@.len()),
    ensures
        match decoded_text(bytes@) {
            Some(text) => r matches Ok(s) && s@ == text,
            None => r is Err,
        },
{
    let legacy = fallback_charcode(&bytes);
    resolve_text(legacy, bytes)
}

} // verus!
