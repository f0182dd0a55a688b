//! The library's two calls into outside code, each behind a contract
//! that the caller's proofs rest on.

use vstd::prelude::*;
use vstd::utf8::{valid_utf8, decode_utf8};
use std::io::Read;

verus! {

/// What inflating a gzip stream yields: the inflated bytes, or `None`
/// when the stream is malformed.  Both the outcome and the bytes are a
/// function of the compressed bytes alone.
pub uninterp spec fn gunzip_of(raw: Seq<u8>) -> Option<Seq<u8>>;

/// Relies on flate2's `read::GzDecoder` driven by `read_to_end`: the
/// read succeeds or fails, and yields what it yields, as a function of
/// the compressed bytes alone (header parse, inflation and the
/// trailing checks all read nothing but the slice).
#[verifier::external_body]
pub(crate) fn gunzip(raw: &Vec<u8>) -> (r: Option<Vec<u8>>)
    ensures
        r is Some <==> gunzip_of(raw@) is Some,
        r is Some ==> Some(r.unwrap()@) == gunzip_of(raw@),
{
    let mut d = flate2::read::GzDecoder::new(raw.as_slice());
    let mut buf: Vec<u8> = Vec::new();
    match d.read_to_end(&mut buf) {
        Ok(_) => Some(buf),
        Err(_) => None,
    }
}

/// Relies on `String::from_utf8`: it succeeds exactly on valid UTF-8,
/// and the string holds the decoded characters of the given bytes.
#[verifier::external_body]
pub(crate) fn string_from_utf8(bytes: Vec<u8>) -> (r: Option<String>)
    ensures
        r is Some <==> valid_utf8(bytes@),
        r is Some ==> r.unwrap()@ == decode_utf8(bytes@),
{
    String::from_utf8(bytes).ok()
}

} // verus!
