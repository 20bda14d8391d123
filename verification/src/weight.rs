//! The weight of a leaf: the bytes that it takes in minified JSON.
use crate::json::{Json, JsonTree};
use vstd::prelude::*;
use vstd::utf8::encode_utf8;

verus! {

/// The bytes that one byte of a string takes inside a JSON string literal:
/// two for a quote, a backslash and the control characters that have a short
/// escape, six for the other control characters, one for the rest.
pub open spec fn escaped_len(byte: u8) -> nat {
    if byte == 0x22 || byte == 0x5c || byte == 0x08 || byte == 0x09 || byte == 0x0a || byte == 0x0c
        || byte == 0x0d {
        2
    } else if byte < 0x20 {
        6
    } else {
        1
    }
}

/// The bytes that `bytes` take inside a JSON string literal.
pub open spec fn escaped_bytes_len(bytes: Seq<u8>) -> nat
    decreases bytes.len(),
{
    if bytes.len() == 0 {
        0
    } else {
        escaped_bytes_len(bytes.drop_last()) + escaped_len(bytes.last())
    }
}

/// The bytes of the JSON string literal that spells `s`: its UTF-8 encoding
/// with the escapes of JSON, between two quotes.
pub open spec fn string_weight(s: Seq<char>) -> nat {
    2 + escaped_bytes_len(encode_utf8(s))
}

impl JsonTree {
    /// The bytes of the minified serialization of a value without children.
    /// An array or an object is no leaf and has no weight of its own.
    pub open spec fn weight(self) -> nat {
        match self {
            JsonTree::Null => 4,
            JsonTree::Bool(b) => if b {
                4
            } else {
                5
            },
            JsonTree::Number(text) => encode_utf8(text).len(),
            JsonTree::String(s) => string_weight(s),
            _ => 0,
        }
    }
}

/// A writer that keeps nothing but the number of bytes written to it.
pub struct CountWriter {
    bytes: usize,
}

impl View for CountWriter {
    type V = nat;

    closed spec fn view(&self) -> nat {
        self.bytes as nat
    }
}

#[verifier::external_type_specification]
#[verifier::external_body]
pub struct ExIoError(std::io::Error);

/// `std::io::Error::new`, for the error of a count that no longer fits. Its
/// kind is `Other`, so that a caller of `write` does not try again.
#[verifier::external_body]
fn count_overflow() -> std::io::Error {
    std::io::Error::new(std::io::ErrorKind::Other, "the byte count does not fit in usize")
}

impl CountWriter {
    /// A writer that has counted nothing yet.
    pub fn new() -> (w: Self)
        ensures
            w@ == 0,
    {
        Self { bytes: 0 }
    }

    /// The number of bytes written so far.
    pub fn bytes(&self) -> (n: usize)
        ensures
            n == self@,
    {
        self.bytes
    }
}

impl std::io::Write for CountWriter {
    /// Counts all of `buf`. Fails, and counts nothing, where the count would
    /// no longer fit in `usize`.
    fn write(&mut self, buf: &[u8]) -> (r: Result<usize, std::io::Error>)
        ensures
            r is Ok <==> old(self)@ + buf@.len() <= usize::MAX,
            r matches Ok(n) ==> n == buf@.len() && final(self)@ == old(self)@ + buf@.len(),
            r is Err ==> final(self)@ == old(self)@,
    {
        if buf.len() <= usize::MAX - self.bytes {
            self.bytes += buf.len();
            Ok(buf.len())
        } else {
            Err(count_overflow())
        }
    }

    /// Does nothing: there is no buffer to empty.
    fn flush(&mut self) -> (r: Result<(), std::io::Error>)
        ensures
            r is Ok,
            final(self)@ == old(self)@,
    {
        Ok(())
    }
}

/// `serde_json::to_writer` on a string: writes the JSON string literal that
/// spells `s` to `w`, in pieces. The pieces add up to `string_weight(s)`
/// bytes, and the call succeeds where `w` took them all, that is where the
/// count still fits.
#[verifier::external_body]
fn write_json_string(w: &mut CountWriter, s: &str) -> (done: bool)
    ensures
        done <==> old(w)@ + string_weight(s@) <= usize::MAX,
        done ==> final(w)@ == old(w)@ + string_weight(s@),
{
    serde_json::to_writer(w, s).is_ok()
}

/// The number of bytes that the leaf `v` takes when serialized as minified
/// JSON, or `None` where that number does not fit in `usize`.
pub fn encoded_len(v: &Json) -> (len: Option<usize>)
    requires
        v@.is_scalar(),
    ensures
        len == if v@.weight() <= usize::MAX {
            Some(v@.weight() as usize)
        } else {
            None
        },
{
    match v {
        Json::Null => Some(4),
        Json::Bool(b) => Some(
            if *b {
                4
            } else {
                5
            },
        ),
        Json::Number(text) => Some(text.as_str().as_bytes().len()),
        Json::String(s) => {
            let mut w = CountWriter::new();
            if write_json_string(&mut w, s.as_str()) {
                Some(w.bytes())
            } else {
                None
            }
        },
        _ => Some(0),
    }
}

} // verus!
