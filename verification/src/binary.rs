//! The binary-content heuristic.

use vstd::prelude::*;
use vstd::utf8::{decode_utf8, valid_utf8};

verus! {

/// `std::str::from_utf8`: the text the bytes encode when they are valid
/// UTF-8, `None` otherwise.
#[verifier::external_body]
pub(crate) fn utf8_text(bytes: &[u8]) -> (r: Option<&str>)
    ensures
        r is Some <==> valid_utf8(bytes@),
        r matches Some(s) ==> s@ == decode_utf8(bytes@),
{
    std::str::from_utf8(bytes).ok()
}

/// A probe of the first bytes of a file looks binary: it holds a null byte,
/// or it is not valid UTF-8.
pub open spec fn binary_probe(chunk: Seq<u8>) -> bool {
    chunk.contains(0u8) || !valid_utf8(chunk)
}

/// Decides `binary_probe` for the bytes read from the start of a file (at
/// most the configured probe length).
pub fn looks_binary(chunk: &[u8]) -> (r: bool)
    ensures
        r == binary_probe(chunk@),
{
    let mut i: usize = 0;
    while i < chunk.len()
        invariant
            i <= chunk.len(),
            forall|j: int| 0 <= j < i ==> chunk@[j] != 0u8,
        decreases chunk.len() - i,
    {
        if chunk[i] == 0u8 {
            assert(chunk@[i as int] == 0u8);
            return true;
        }
        i = i + 1;
    }
    utf8_text(chunk).is_none()
}

}
