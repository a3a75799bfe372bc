//! UTF-8 checks at the byte/text boundary, and one fact about ASCII
//! byte strings that the codecs lean on.

use vstd::prelude::*;
use vstd::utf8::{valid_utf8, encode_utf8, is_ascii_chars, is_ascii_chars_encode_utf8,
    encode_utf8_valid_utf8};
use crate::error::StreamError;

verus! {

/// Relies on std::str::from_utf8: it accepts exactly valid UTF-8.
#[verifier::external_body]
pub fn is_utf8(v: &[u8]) -> (b: bool)
    ensures
        b == valid_utf8(v@),
{
    std::str::from_utf8(v).is_ok()
}

/// Relies on String::from_utf8: it accepts exactly valid UTF-8, and the
/// bytes of the returned string are the input bytes.
#[verifier::external_body]
pub fn string_from_utf8(v: Vec<u8>) -> (r: Result<String, StreamError>)
    ensures
        match r {
            Ok(s) => valid_utf8(v@) && encode_utf8(s@) == v@,
            Err(e) => !valid_utf8(v@) && e == StreamError::Utf8Error,
        },
{
    match String::from_utf8(v) {
        Ok(s) => Ok(s),
        Err(_) => Err(StreamError::Utf8Error),
    }
}

/// A byte string of ASCII bytes is valid UTF-8, and is the encoding of
/// its bytes read as characters.
pub proof fn lemma_ascii_bytes_utf8(b: Seq<u8>)
    requires
        forall|i: int| 0 <= i < b.len() ==> #[trigger] b[i] < 128,
    ensures
        valid_utf8(b),
        encode_utf8(b.map(|i: int, c: u8| c as char)) == b,
{
    let chars = b.map(|i: int, c: u8| c as char);
    assert(is_ascii_chars(chars)) by {
        assert forall|i: int| 0 <= i < chars.len() implies '\0' <= #[trigger] chars[i]
            <= '\u{7f}' by {
            assert(chars[i] == b[i] as char);
        }
    }
    is_ascii_chars_encode_utf8(chars);
    assert(encode_utf8(chars) =~= Seq::new(chars.len(), |i: int| chars.index(i) as u8));
    assert(encode_utf8(chars) =~= b);
    encode_utf8_valid_utf8(chars);
}

} // verus!
