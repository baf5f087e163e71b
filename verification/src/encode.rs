//! The embedding encoder: the SVG document's text, UTF-8 encoded, becomes
//! a standard base64 payload (with padding) fit for a `data:` URI. Pure
//! and deterministic; no compression, no chunking.

use vstd::prelude::*;
use vstd::string::StringSliceAdditionalSpecFns;
use vstd::string::StrSliceExecFns;
use base64::Engine;

verus! {

broadcast use vstd::seq::group_seq_axioms;

/// Name for the standard base64 encoding, with padding, of a byte
/// sequence: a pure function of the bytes alone.
pub uninterp spec fn base64_of(b: Seq<u8>) -> Seq<char>;

/// Relies on base64's `STANDARD` engine `encode`: the standard base64
/// alphabet with padding, a pure function of the input bytes, four
/// characters for every started group of three bytes.
#[verifier::external_body]
fn b64_encode(b: &Vec<u8>) -> (r: String)
    ensures
        r@ == base64_of(b@),
        r@.len() == 4 * ((b@.len() + 2) / 3),
{
    base64::engine::general_purpose::STANDARD.encode(b)
}

/// Relies on base64's `STANDARD` engine `decode`: it inverts `encode`, so
/// an input that is the standard padded encoding of some byte sequence
/// decodes to exactly that sequence.
#[verifier::external_body]
fn b64_decode(s: &str) -> (r: Option<Vec<u8>>)
    ensures
        forall|b: Seq<u8>| s@ == base64_of(b) ==> r is Some && r->0@ == b,
{
    match base64::engine::general_purpose::STANDARD.decode(s) {
        Result::Ok(v) => Option::Some(v),
        Result::Err(_) => Option::None,
    }
}

/// Embedding Encoder: the base64 payload of a document's text. Pure: the
/// same text always encodes to the same payload.
pub fn encode_payload(doc: &str) -> (r: String)
    ensures
        r@ == base64_of(doc.spec_bytes()),
        r@ == base64_of(vstd::utf8::encode_utf8(doc@)),
{
    let bytes = doc.as_bytes_vec();
    b64_encode(&bytes)
}

/// The reverse transform of `encode_payload`: decoding a payload that is
/// the encoding of some byte sequence yields exactly that sequence.
pub fn decode_payload(s: &str) -> (r: Option<Vec<u8>>)
    ensures
        forall|b: Seq<u8>| s@ == base64_of(b) ==> r is Some && r->0@ == b,
{
    b64_decode(s)
}

/// Round-trip: decoding what the encoder produced gives back exactly the
/// document bytes that were encoded.
pub fn payload_round_trip(doc: &str) -> (r: Option<Vec<u8>>)
    ensures
        r is Some,
        r->0@ == doc.spec_bytes(),
{
    let e = encode_payload(doc);
    decode_payload(e.as_str())
}

} // verus!
