//! The calls into std and outside crates that Verus does not see into.
//! Each item's contract is believed, not proved; its doc comment says what
//! is claimed of the code it calls.
use vstd::prelude::*;
use vstd::utf8::*;
use bstr::ByteSlice;
use sha2::{Digest, Sha256};

verus! {

/// What `String::from_utf8_lossy` makes of a byte sequence that is not
/// valid UTF-8: the bytes decoded, each invalid sequence replaced by U+FFFD.
pub uninterp spec fn lossy_utf8(bytes: Seq<u8>) -> Seq<char>;

/// The text `String::from_utf8_lossy` makes of a byte sequence: valid UTF-8
/// decoded as it is, anything else as `lossy_utf8` names it.
pub open spec fn lossy_text(bytes: Seq<u8>) -> Seq<char> {
    if valid_utf8(bytes) {
        decode_utf8(bytes)
    } else {
        lossy_utf8(bytes)
    }
}

/// `String::from_utf8_lossy(bytes).into_owned()`.  Claimed, as the std
/// documentation says: valid UTF-8 is decoded unchanged; and the result
/// depends on the bytes alone.  What replacement characters an invalid
/// input yields is left unsaid.
#[verifier::external_body]
pub(crate) fn utf8_lossy(bytes: &[u8]) -> (text: String)
    ensures
        valid_utf8(bytes@) ==> text@ == decode_utf8(bytes@),
        !valid_utf8(bytes@) ==> text@ == lossy_utf8(bytes@),
{
    String::from_utf8_lossy(bytes).into_owned()
}

/// `String::push`: claimed to append the one character.
#[verifier::external_body]
pub(crate) fn string_push(text: &mut String, c: char)
    ensures
        final(text)@ == old(text)@.push(c),
{
    text.push(c)
}

/// bstr's `ByteSlice::split_str`, each piece copied out: claimed to yield
/// the pieces of `haystack` between the non-overlapping occurrences of the
/// non-empty `splitter`, found from the left, ending with what follows the
/// last occurrence (empty where it ends the haystack), as `split` states.
#[verifier::external_body]
pub(crate) fn split_str_pieces(haystack: &[u8], splitter: &[u8]) -> (pieces: Vec<Vec<u8>>)
    requires
        splitter@.len() > 0,
    ensures
        pieces.deep_view() == crate::seqs::split(haystack@, splitter@),
{
    haystack.split_str(splitter).map(|piece| piece.to_vec()).collect()
}

/// The SHA-256 digest of a byte sequence.
pub uninterp spec fn sha256_digest(data: Seq<u8>) -> Seq<u8>;

/// sha2's `Sha256::digest`: claimed to return `sha256_digest` of the input,
/// which is 32 bytes long.
#[verifier::external_body]
pub(crate) fn sha256(data: &[u8]) -> (digest: Vec<u8>)
    ensures
        digest@ == sha256_digest(data@),
        digest@.len() == 32,
{
    Sha256::digest(data).to_vec()
}

} // verus!
