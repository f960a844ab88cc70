//! Base64 text.

use vstd::prelude::*;
use vstd::string::*;
use base64::Engine;

verus! {

/// What the decoder of the standard alphabet's Base64, padded, makes of a text:
/// the bytes, or the message of its error.
pub uninterp spec fn decoded(text: Seq<char>) -> Result<Seq<u8>, Seq<char>>;

/// The bytes that a text encodes, where it is valid.
pub open spec fn decoded_bytes(text: Seq<char>) -> Option<Seq<u8>> {
    match decoded(text) {
        Ok(b) => Some(b),
        Err(_) => None,
    }
}

/// The standard alphabet's Base64 of bytes, padded.
pub uninterp spec fn encoded(bytes: Seq<u8>) -> Seq<char>;

/// `STANDARD.decode` of `base64`: the bytes, or the text of its error where the
/// text is not valid.
#[verifier::external_body]
pub(crate) fn decode(text: &str) -> (r: Result<Vec<u8>, String>)
    ensures
        match r {
            Ok(b) => decoded(text@) == Ok::<Seq<u8>, Seq<char>>(b@),
            Err(e) => decoded(text@) == Err::<Seq<u8>, Seq<char>>(e@),
        },
{
    match base64::engine::general_purpose::STANDARD.decode(text) {
        Ok(b) => Ok(b),
        Err(e) => Err(e.to_string()),
    }
}

/// `STANDARD.encode` of `base64`. What it returns decodes to the bytes.
#[verifier::external_body]
pub(crate) fn encode(bytes: &Vec<u8>) -> (r: String)
    ensures
        r@ == encoded(bytes@),
        decoded_bytes(r@) == Some(bytes@),
{
    base64::engine::general_purpose::STANDARD.encode(bytes)
}

} // verus!
