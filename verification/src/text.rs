//! Text to bytes and back: what is sent is the UTF-8 encoding of a string.

use vstd::prelude::*;
use vstd::slice::slice_to_vec;
use vstd::utf8::{
    decode_utf8, encode_utf8, encode_utf8_decode_utf8, encode_utf8_valid_utf8, valid_utf8,
};

verus! {

/// The text that `String::from_utf8_lossy` makes of a byte sequence: the
/// decoded text where the bytes are valid UTF-8, and otherwise a text in which
/// each ill-formed stretch is replaced by U+FFFD.
pub uninterp spec fn lossy_text(bytes: Seq<u8>) -> Seq<char>;

/// The text that a received byte sequence stands for.
pub open spec fn decoded_text(bytes: Seq<u8>) -> Seq<char> {
    if valid_utf8(bytes) {
        decode_utf8(bytes)
    } else {
        lossy_text(bytes)
    }
}

/// Calls `String::from_utf8_lossy`. Trusted: the result is the lossy text of
/// the bytes, which for valid UTF-8 is the text they encode.
#[verifier::external_body]
fn from_utf8_lossy(data: &[u8]) -> (text: String)
    ensures
        text@ == lossy_text(data@),
        valid_utf8(data@) ==> text@ == decode_utf8(data@),
{
    String::from_utf8_lossy(data).into_owned()
}

/// To transmit a text, it is encoded to a byte array first.
pub fn encode(data: &str) -> (bytes: Vec<u8>)
    ensures
        bytes@ == encode_utf8(data@),
{
    slice_to_vec(data.as_bytes())
}

/// To receive a text, it is decoded from a byte array; bytes that are not
/// valid UTF-8 decode to replacement characters.
pub fn decode(data: &[u8]) -> (text: String)
    ensures
        text@ == decoded_text(data@),
{
    from_utf8_lossy(data)
}

/// Decoding the encoding of a text gives the text back.
pub proof fn lemma_decode_of_encode(text: Seq<char>)
    ensures
        valid_utf8(encode_utf8(text)),
        decoded_text(encode_utf8(text)) == text,
{
    encode_utf8_valid_utf8(text);
    encode_utf8_decode_utf8(text);
}

} // verus!
