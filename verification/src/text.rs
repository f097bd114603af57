//! Names as they stand in an archive's bytes: UTF-8, decoded strictly for
//! files and leniently for directories.

use vstd::prelude::*;
use vstd::utf8::{decode_utf8, valid_utf8};

verus! {

/// The text that lenient decoding makes of bytes that are not valid UTF-8:
/// what can be decoded, with a replacement character in place of each invalid
/// sequence.
pub uninterp spec fn lossy_utf8(bytes: Seq<u8>) -> Seq<char>;

/// The text that lenient decoding makes of `bytes`: for valid UTF-8 the text
/// that the bytes encode, and for anything else the patched text.
pub open spec fn lenient_text(bytes: Seq<u8>) -> Seq<char> {
    if valid_utf8(bytes) {
        decode_utf8(bytes)
    } else {
        lossy_utf8(bytes)
    }
}

/// Calls `String::from_utf8`, which turns bytes that are valid UTF-8 into the
/// string with exactly those bytes and refuses all other input. The contract
/// is taken on trust: the call succeeds on valid UTF-8 and on nothing else,
/// and the string is the text that the bytes encode.
#[verifier::external_body]
pub(crate) fn strict_name(bytes: Vec<u8>) -> (r: Option<String>)
    ensures
        match r {
            Some(name) => valid_utf8(bytes@) && name@ == decode_utf8(bytes@),
            None => !valid_utf8(bytes@),
        },
{
    String::from_utf8(bytes).ok()
}

/// Calls `String::from_utf8_lossy`, which decodes `bytes` as UTF-8 and puts
/// the replacement character in place of each invalid sequence. The contract
/// is taken on trust: valid UTF-8 comes back as the text that the bytes
/// encode, and for other bytes the result is the same whenever the bytes
/// are.
#[verifier::external_body]
pub(crate) fn lossy_name(bytes: &[u8]) -> (name: String)
    ensures
        name@ == lenient_text(bytes@),
        !valid_utf8(bytes@) ==> name@ == lossy_utf8(bytes@),
{
    String::from_utf8_lossy(bytes).into_owned()
}

} // verus!
