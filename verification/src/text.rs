//! Lossy UTF-8 decoding of raw wire bytes into text.

use vstd::prelude::*;

verus! {

/// The text that lossy UTF-8 decoding yields for a byte string: well-formed
/// sequences decode to their characters, ill-formed ones are substituted.
pub uninterp spec fn utf8_lossy(bytes: Seq<u8>) -> Seq<char>;

/// Relies on `String::from_utf8_lossy`: the decoded text is a function of
/// the input bytes alone (ill-formed sequences are replaced with the
/// substitution character, never an error), and empty input yields the
/// empty string.
#[verifier::external_body]
pub fn utf8_lossy_decode(bytes: &[u8]) -> (r: String)
    ensures
        r@ == utf8_lossy(bytes@),
        bytes@.len() == 0 ==> r@.len() == 0,
{
    String::from_utf8_lossy(bytes).into_owned()
}

} // verus!
