//! Bytes as UTF-8 text.
use vstd::prelude::*;
use vstd::utf8::{decode_utf8, valid_utf8};

verus! {

/// The text that `String::from_utf8_lossy` makes of the bytes.
pub uninterp spec fn lossy_text(bytes: Seq<u8>) -> Seq<char>;

/// Trusted: `std::str::from_utf8` succeeds exactly on valid UTF-8, and gives the
/// text that the bytes encode.
#[verifier::external_body]
pub(crate) fn utf8_text(bytes: &[u8]) -> (r: Option<&str>)
    ensures
        r is Some <==> valid_utf8(bytes@),
        r matches Some(s) ==> s@ == decode_utf8(bytes@),
{
    std::str::from_utf8(bytes).ok()
}

/// Trusted: `String::from_utf8_lossy` is a function of the bytes, and decodes them
/// where they are valid UTF-8. What it puts in the place of invalid bytes is not
/// stated.
#[verifier::external_body]
fn utf8_lossy(bytes: &[u8]) -> (r: String)
    ensures
        r@ == lossy_text(bytes@),
        valid_utf8(bytes@) ==> r@ == decode_utf8(bytes@),
{
    String::from_utf8_lossy(bytes).into_owned()
}

/// The text of the bytes: what they encode where they are valid UTF-8, and what
/// `String::from_utf8_lossy` makes of them where they are not.
pub open spec fn text_of(bytes: Seq<u8>) -> Seq<char> {
    if valid_utf8(bytes) {
        decode_utf8(bytes)
    } else {
        lossy_text(bytes)
    }
}

/// The text of the bytes. Bytes that are not valid UTF-8 are no error.
pub fn read_text(bytes: &[u8]) -> (r: String)
    ensures
        r@ == text_of(bytes@),
{
    utf8_lossy(bytes)
}

/// Law: [`read_text`] gives the text that valid UTF-8 encodes, of any length.
pub proof fn law_valid_bytes_are_decoded(bytes: &[u8], r: String)
    requires
        call_ensures(read_text, (bytes,), r),
        valid_utf8(bytes@),
    ensures
        r@ == decode_utf8(bytes@),
{
}

} // verus!
