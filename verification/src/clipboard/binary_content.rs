//! Moving arbitrary bytes through a text-only clipboard.
//!
//! Binary data is carried as base64 text, so it survives clipboard
//! implementations that only transport text. This module holds the encoding
//! and decoding of that transport form; reading files and talking to the
//! clipboard happen outside the library.

use base64::Engine as _;
use vstd::prelude::*;

verus! {

/// What went wrong when turning clipboard text back into bytes.
#[derive(Debug, Clone, Copy, PartialEq, Eq, Structural)]
pub enum ClipboardError {
    /// The clipboard text was empty.
    Empty,
    /// The clipboard text was not valid base64.
    BadEncoding,
}

/// The base64 text (standard alphabet, padded) that stands for `data`.
pub uninterp spec fn b64_of(data: Seq<u8>) -> Seq<char>;

/// The bytes that base64's standard engine reads out of `text`, or `None`
/// when `text` is not valid base64.
pub uninterp spec fn bytes_of_b64(text: Seq<char>) -> Option<Seq<u8>>;

#[verifier::external_type_specification]
#[verifier::external_body]
pub struct ExDecodeError(base64::DecodeError);

/// What base64's `decode` hands back.
type DecodeResult = Result<Vec<u8>, base64::DecodeError>;

/// Relies on base64's standard engine `encode`: the output is a function of
/// the input bytes alone, four characters for every three-byte block.
#[verifier::external_body]
fn b64_encode(data: &[u8]) -> (r: String)
    requires
        data@.len() < 0x1000000000000000,
    ensures
        r@ == b64_of(data@),
        bytes_of_b64(r@) == Some(data@),
        r@.len() == 4 * ((data@.len() + 2) / 3),
{
    base64::engine::general_purpose::STANDARD.encode(data)
}

/// Relies on base64's standard engine `decode`: whether text decodes, and
/// to which bytes, depends on the text alone.
#[verifier::external_body]
fn b64_decode(text: &str) -> (r: DecodeResult)
    ensures
        (match bytes_of_b64(text@) {
            Some(b) => r matches Ok(v) && v@ == b,
            None => r is Err,
        }),
{
    base64::engine::general_purpose::STANDARD.decode(text)
}

/// The text to place on the clipboard for a file's bytes: their base64
/// form, from which `bytes_of_clipboard_text` recovers exactly the bytes.
pub fn clipboard_text_of_bytes(data: &Vec<u8>) -> (r: String)
    requires
        data@.len() < 0x1000000000000000,
    ensures
        r@ == b64_of(data@),
        bytes_of_b64(r@) == Some(data@),
        r@.len() == 4 * ((data@.len() + 2) / 3),
{
    b64_encode(data.as_slice())
}

/// The bytes that a clipboard text stands for. Empty text is rejected as
/// `Empty`; text that is not base64 is rejected as `BadEncoding`; any other
/// text yields exactly the bytes it decodes to, so text that
/// `clipboard_text_of_bytes` produced comes back as the original bytes.
pub fn bytes_of_clipboard_text(text: &str) -> (r: Result<Vec<u8>, ClipboardError>)
    ensures
        text@.len() == 0 ==> (r matches Err(e) && e == ClipboardError::Empty),
        text@.len() > 0 ==> (match bytes_of_b64(text@) {
            Some(b) => r matches Ok(v) && v@ == b,
            None => r matches Err(e) && e == ClipboardError::BadEncoding,
        }),
{
    if text.unicode_len() == 0 {
        return Err(ClipboardError::Empty);
    }
    match b64_decode(text) {
        Ok(v) => Ok(v),
        Err(_) => Err(ClipboardError::BadEncoding),
    }
}

} // verus!
