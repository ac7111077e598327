//! Transport envelope: the calls into the base64 crate and std's UTF-8
//! validation, each behind a trusted contract.

use vstd::prelude::*;
use vstd::utf8::{encode_utf8, decode_utf8, valid_utf8};
use base64::Engine;

verus! {

/// The URL-safe, unpadded base64 rendering of a byte sequence, as the base64
/// crate computes it.  Each byte sequence has exactly one rendering.
pub uninterp spec fn b64_of(bytes: Seq<u8>) -> Seq<char>;

/// Relies on base64's `Engine::encode` with the `URL_SAFE_NO_PAD` engine:
/// the result is a pure function of the input bytes.
#[verifier::external_body]
pub(crate) fn b64_encode(bytes: &Vec<u8>) -> (r: String)
    ensures
        r@ == b64_of(bytes@),
{
    base64::engine::general_purpose::URL_SAFE_NO_PAD.encode(bytes)
}

/// Relies on base64's `Engine::decode` with the `URL_SAFE_NO_PAD` engine.
/// That engine rejects padding and set trailing bits, so it accepts exactly
/// the canonical encodings: a success returns the one byte sequence whose
/// rendering is the input, a failure means the input is no rendering at all.
#[verifier::external_body]
pub(crate) fn b64_decode(s: &str) -> (r: Option<Vec<u8>>)
    ensures
        match r {
            Some(v) => s@ == b64_of(v@) && forall|b: Seq<u8>| b64_of(b) == s@ ==> b =~= v@,
            None => forall|b: Seq<u8>| b64_of(b) != s@,
        },
{
    base64::engine::general_purpose::URL_SAFE_NO_PAD.decode(s).ok()
}

/// Relies on std's `String::from_utf8`: it succeeds exactly on valid UTF-8
/// and reinterprets the bytes without changing them.
#[verifier::external_body]
pub(crate) fn string_from_utf8(v: Vec<u8>) -> (r: Option<String>)
    ensures
        match r {
            Some(s) => valid_utf8(v@) && encode_utf8(s@) == v@ && s@ == decode_utf8(v@),
            None => !valid_utf8(v@),
        },
{
    String::from_utf8(v).ok()
}

} // verus!
