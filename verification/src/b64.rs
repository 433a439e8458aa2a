use vstd::prelude::*;

verus! {

/// A byte of the standard base-64 alphabet, or the `=` padding byte.
pub open spec fn is_b64_byte(b: u8) -> bool {
    ||| 65 <= b <= 90
    ||| 97 <= b <= 122
    ||| 48 <= b <= 57
    ||| b == 43
    ||| b == 47
    ||| b == 61
}

/// The standard padded base-64 encoding of `data`, as ASCII bytes.
pub uninterp spec fn b64_of(data: Seq<u8>) -> Seq<u8>;

/// What the base-64 decoder yields on `txt`: the decoded bytes, or
/// nothing when `txt` is rejected. The result is a function of the
/// bytes alone.
pub uninterp spec fn b64_decode_of(txt: Seq<u8>) -> Option<Seq<u8>>;

/// The error type of the outside base-64 decoder.
#[verifier::external_type_specification]
#[verifier::external_body]
pub struct ExDecodeError(base64::DecodeError);

/// Relies on base64::encode: standard alphabet with `=` padding, four
/// output bytes for every three input bytes, and base64::decode inverts
/// it; encode panics only when the output size overflows `usize`, which
/// the precondition rules out.
#[verifier::external_body]
pub(crate) fn b64_encode(data: &Vec<u8>) -> (r: Vec<u8>)
    requires
        ((data@.len() + 2) as int / 3) * 4 <= usize::MAX as int,
    ensures
        r@ == b64_of(data@),
        r@.len() == ((data@.len() + 2) / 3) * 4,
        forall|i: int| 0 <= i < r@.len() ==> is_b64_byte(r@[i]),
        b64_decode_of(r@) == Some(data@),
{
    base64::encode(data.as_slice()).into_bytes()
}

/// Relies on base64::decode: the result is determined by the input
/// bytes, and any byte outside the standard alphabet and the padding
/// byte is rejected.
#[verifier::external_body]
pub(crate) fn b64_decode(txt: &Vec<u8>) -> (r: Result<Vec<u8>, base64::DecodeError>)
    ensures
        r matches Ok(v) ==> b64_decode_of(txt@) == Some(v@),
        r matches Err(e) ==> b64_decode_of(txt@) is None,
        (exists|i: int| 0 <= i < txt@.len() && !is_b64_byte(#[trigger] txt@[i])) ==> r is Err,
{
    base64::decode(txt.as_slice())
}

} // verus!
