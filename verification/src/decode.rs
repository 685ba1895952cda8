//! Decoding of byte buffers into codepoint sequences for the byte-slice
//! entry points.

use vstd::prelude::*;
use bstr::ByteSlice;

verus! {

/// The codepoint sequence that lossy UTF-8 decoding yields for a byte
/// sequence.
pub uninterp spec fn utf8_chars_of(bytes: Seq<u8>) -> Seq<u32>;

/// Relies on bstr::ByteSlice::chars: lossy UTF-8 decoding of a byte slice,
/// determined by the bytes alone; invalid sequences decode to the
/// replacement character, and no bytes decode to no codepoints.
#[verifier::external_body]
pub fn utf8_to_codepoints(s: &[u8]) -> (r: Vec<u32>)
    ensures
        r@ == utf8_chars_of(s@),
        s@.len() == 0 ==> r@.len() == 0,
{
    s.chars().map(|c| c as u32).collect()
}

} // verus!
