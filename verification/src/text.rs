//! Decoding stored key bytes to text.
//!
//! Keys live on disk as raw bytes, but the store addresses them by their
//! lossily-decoded text: invalid UTF-8 sequences are replaced rather than
//! rejected, so a log whose key bytes are malformed still opens, and its
//! records stay reachable under the replaced text.

use vstd::prelude::*;

verus! {

use vstd::utf8::decode_utf8;
use vstd::utf8::valid_utf8;

/// The text that `String::from_utf8_lossy` decodes from `bytes`: a pure
/// function of the bytes alone.  Valid UTF-8 decodes to itself (see
/// [`lossy_decode`]); what exactly replaces an invalid sequence is left
/// unstated.
pub uninterp spec fn lossy_of(bytes: Seq<u8>) -> Seq<char>;

/// Relies on `String::from_utf8_lossy`: the decoding depends on the bytes
/// alone, and on valid UTF-8 it is exactly the UTF-8 decoding — invalid
/// sequences are replaced with a substitute, valid ones pass through
/// unchanged.
#[verifier::external_body]
pub(crate) fn lossy_decode(bytes: &[u8]) -> (r: String)
    ensures
        r@ == lossy_of(bytes@),
        valid_utf8(bytes@) ==> r@ == decode_utf8(bytes@),
{
    String::from_utf8_lossy(bytes).into_owned()
}

} // verus!
