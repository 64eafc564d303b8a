//! Text fields: UTF-8 decoding and message strings.

use crate::decimal::decimal_repr;
use crate::decimal::lemma_decimal_repr;
use crate::decimal::write_decimal;
use std::string::FromUtf8Error;
use vstd::prelude::*;
use vstd::string::StringExecFns;
use vstd::utf8::decode_utf8;
use vstd::utf8::encode_utf8;
use vstd::utf8::valid_utf8;

verus! {

/// `std::string::FromUtf8Error`, the error of `String::from_utf8`; carried
/// through as it is, with nothing known of its fields.
#[verifier::external_type_specification]
#[verifier::external_body]
pub struct ExFromUtf8Error(FromUtf8Error);

/// Calls `String::from_utf8`. Trusted: the call succeeds exactly on valid
/// UTF-8, and the string then holds the characters that the bytes encode.
#[verifier::external_body]
pub(crate) fn string_from_utf8(bytes: Vec<u8>) -> (r: Result<String, FromUtf8Error>)
    ensures
        r is Ok <==> valid_utf8(bytes@),
        r is Ok ==> r->Ok_0@ == decode_utf8(bytes@),
{
    String::from_utf8(bytes)
}

/// The characters of a string of ASCII bytes.
pub open spec fn ascii_text(bytes: Seq<u8>) -> Seq<char> {
    Seq::new(bytes.len(), |i: int| bytes[i] as char)
}

/// ASCII bytes are valid UTF-8 and decode to themselves.
pub proof fn lemma_ascii_is_utf8(bytes: Seq<u8>)
    requires
        forall|i: int| 0 <= i < bytes.len() ==> #[trigger] bytes[i] < 128,
    ensures
        valid_utf8(bytes),
        decode_utf8(bytes) == ascii_text(bytes),
{
    let chars = ascii_text(bytes);
    assert(vstd::utf8::is_ascii_chars(chars));
    vstd::utf8::is_ascii_chars_encode_utf8(chars);
    assert(encode_utf8(chars) =~= bytes) by {
        assert forall|i: int| 0 <= i < bytes.len() implies encode_utf8(chars)[i] == bytes[i] by {
            assert(chars[i] as u8 == encode_utf8(chars)[i]);
            assert(chars[i] == bytes[i] as char);
        }
    }
    vstd::utf8::encode_utf8_valid_utf8(chars);
    vstd::utf8::encode_utf8_decode_utf8(chars);
}

/// What is reported for a frame that is not well formed.
pub open spec fn invalid_format_message() -> Seq<char> {
    "protocol error; invalid frame format"@
}

/// What is reported for a frame that starts with the unknown type byte `b`:
/// the byte is given as a decimal number.
pub open spec fn invalid_type_message(b: u8) -> Seq<char> {
    "protocol error; invalid frame type byte `"@ + ascii_text(decimal_repr(b as int)) + "`"@
}

/// What is reported when the peer closes the stream inside a frame.
pub open spec fn reset_message() -> Seq<char> {
    "connection reset by peer"@
}

/// What is reported for an array that holds an array, which has no encoding.
pub open spec fn nested_array_message() -> Seq<char> {
    "protocol error; nested arrays cannot be encoded"@
}

/// Builds [`invalid_format_message`].
pub fn invalid_format_text() -> (s: String)
    ensures
        s@ == invalid_format_message(),
{
    String::from_str("protocol error; invalid frame format")
}

/// Builds [`reset_message`].
pub fn reset_text() -> (s: String)
    ensures
        s@ == reset_message(),
{
    String::from_str("connection reset by peer")
}

/// Builds [`nested_array_message`].
pub fn nested_array_text() -> (s: String)
    ensures
        s@ == nested_array_message(),
{
    String::from_str("protocol error; nested arrays cannot be encoded")
}

/// Builds [`invalid_type_message`] for `b`.
pub fn invalid_type_text(b: u8) -> (s: String)
    ensures
        s@ == invalid_type_message(b),
{
    let mut digits: Vec<u8> = Vec::new();
    write_decimal(&mut digits, b as i64);
    proof {
        lemma_decimal_repr(b as int);
        assert(digits@ =~= decimal_repr(b as int));
        lemma_ascii_is_utf8(digits@);
    }
    let mut s: String = String::from_str("protocol error; invalid frame type byte `");
    match string_from_utf8(digits) {
        Ok(number) => {
            s.append(number.as_str());
        },
        Err(_) => {},
    }
    s.append("`");
    s
}

} // verus!
