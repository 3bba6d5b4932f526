//! Bytes as text.

use vstd::prelude::*;
use vstd::utf8::{decode_utf8, valid_utf8};

verus! {

/// What `String::from_utf8_lossy` makes of ill-formed bytes: their text, with
/// each ill-formed part replaced by U+FFFD.
pub uninterp spec fn mended_text(bytes: Seq<u8>) -> Seq<char>;

/// The text of bytes, with each ill-formed part replaced.
pub open spec fn utf8_lossy(bytes: Seq<u8>) -> Seq<char> {
    if valid_utf8(bytes) {
        decode_utf8(bytes)
    } else {
        mended_text(bytes)
    }
}

/// `String::from_utf8_lossy` gives the text of well-formed UTF-8 as it is; for
/// other bytes the result is only named here.
#[verifier::external_body]
pub(crate) fn lossy_text(bytes: &[u8]) -> (r: String)
    ensures
        r@ == (if valid_utf8(bytes@) {
            decode_utf8(bytes@)
        } else {
            mended_text(bytes@)
        }),
{
    String::from_utf8_lossy(bytes).into_owned()
}

/// What the error of `std::str::from_utf8` says of ill-formed bytes.
pub uninterp spec fn utf8_fault_text(bytes: Seq<u8>) -> Seq<char>;

/// `std::str::from_utf8` gives the text of well-formed UTF-8, and an error for
/// other bytes; the text of that error is only named here.
#[verifier::external_body]
pub(crate) fn checked_text(bytes: &[u8]) -> (r: Result<String, String>)
    ensures
        match r {
            Ok(text) => valid_utf8(bytes@) && text@ == decode_utf8(bytes@),
            Err(message) => !valid_utf8(bytes@) && message@ == utf8_fault_text(bytes@),
        },
{
    std::str::from_utf8(bytes).map(|s| s.to_owned()).map_err(|e| e.to_string())
}

} // verus!
