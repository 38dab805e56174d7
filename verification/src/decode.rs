//! Text from bytes.

use vstd::prelude::*;
use vstd::utf8::{decode_utf8, valid_utf8};

verus! {

/// What `String::from_utf8_lossy` makes of some bytes.
pub uninterp spec fn utf8_lossy(bytes: Seq<u8>) -> Seq<char>;

/// `String::from_utf8_lossy` decodes bytes as UTF-8. Its result depends on the bytes alone. Valid
/// UTF-8 comes out as the characters that it encodes. In other bytes each invalid sequence is
/// replaced by U+FFFD, so at least one stands in the result; where it stands is left to the name
/// `utf8_lossy`.
#[verifier::external_body]
pub(crate) fn decode_lossy(bytes: &[u8]) -> (text: String)
    ensures
        text@ == utf8_lossy(bytes@),
        valid_utf8(bytes@) ==> text@ == decode_utf8(bytes@),
        !valid_utf8(bytes@) ==> text@.contains('\u{fffd}'),
{
    String::from_utf8_lossy(bytes).into_owned()
}

} // verus!
