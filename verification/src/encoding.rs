//! Reading bytes as text: the standard library's UTF-8 checks.

use vstd::prelude::*;
use vstd::utf8::{decode_utf8, valid_utf8};

use crate::text::{truncate_detail, truncated};

verus! {

/// What `String::from_utf8_lossy` makes of bytes.
pub uninterp spec fn lossy_utf8(bytes: Seq<u8>) -> Seq<char>;

/// `String::from_utf8_lossy`: the text of valid UTF-8, and otherwise a text in
/// which every invalid part is replaced by U+FFFD. The result is a function of
/// the bytes.
#[verifier::external_body]
pub(crate) fn lossy_text(bytes: &[u8]) -> (text: String)
    ensures
        text@ == lossy_utf8(bytes@),
        valid_utf8(bytes@) ==> text@ == decode_utf8(bytes@),
{
    String::from_utf8_lossy(bytes).into_owned()
}

/// `std::str::from_utf8`: the text that the bytes encode, if they are valid
/// UTF-8.
#[verifier::external_body]
pub(crate) fn strict_text(bytes: &[u8]) -> (text: Option<String>)
    ensures
        text is Some == valid_utf8(bytes@),
        text matches Some(text) ==> text@ == decode_utf8(bytes@),
{
    std::str::from_utf8(bytes).ok().map(str::to_owned)
}

/// A short display text for bytes that are meant to be read.
pub open spec fn lossy_detail_of(bytes: Seq<u8>) -> Seq<char> {
    truncated(lossy_utf8(bytes))
}

/// A short display text for bytes that are meant to be read.
pub fn lossy_detail(value: &[u8]) -> (text: String)
    ensures
        text@ == lossy_detail_of(value@),
{
    truncate_detail(lossy_text(value).as_str())
}

} // verus!
