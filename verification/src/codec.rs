//! Base64 in the standard alphabet with padding, as the `base64` crate
//! computes it. Nothing here is proved: the contracts say what the crate's
//! functions return, by name.

use base64::Engine;
use vstd::prelude::*;

verus! {

/// `base64::DecodeError`, the reason why a text is no base64. It is carried
/// through; nothing is read from it.
#[verifier::external_type_specification]
#[verifier::external_body]
pub struct ExDecodeError(base64::DecodeError);

/// The standard base64 text of `data`.
pub uninterp spec fn base64_encoded(data: Seq<u8>) -> Seq<char>;

/// The bytes that `text` is the standard base64 text of, or `None` where it
/// is no such text.
pub uninterp spec fn base64_decoded(text: Seq<char>) -> Option<Seq<u8>>;

/// Whether the base64 text of `len` bytes has a length that the machine can hold.
pub open spec fn encodable_len(len: nat) -> bool {
    len / 3 < usize::MAX / 4
}

/// Calls `encode` of `base64::engine::general_purpose::STANDARD`. The result
/// is the encoding of the bytes, a function of the bytes alone. The call
/// panics where the length of the text overflows `usize`, which `requires`
/// leaves out.
#[verifier::external_body]
pub(crate) fn encode_standard(data: &Vec<u8>) -> (text: String)
    requires
        encodable_len(data@.len()),
    ensures
        text@ == base64_encoded(data@),
{
    base64::engine::general_purpose::STANDARD.encode(data)
}

/// Calls `decode` of `base64::engine::general_purpose::STANDARD`. The result
/// is `Ok` with the decoded bytes where the text is valid padded base64, and
/// an error otherwise, a function of the text alone.
#[verifier::external_body]
pub(crate) fn decode_standard(text: &str) -> (bytes: Result<Vec<u8>, base64::DecodeError>)
    ensures
        match bytes {
            Ok(decoded) => base64_decoded(text@) == Some(decoded@),
            Err(_) => base64_decoded(text@) is None,
        },
{
    base64::engine::general_purpose::STANDARD.decode(text)
}

} // verus!
