//! The complete cache keys and per-document record keys of the wire
//! format.
//!
//! Cache keys open with the kind tag and the big-endian field id;
//! `Number` and `String` keys add a level byte (always 0 at extraction
//! time, reserved for pyramidal indexes) and the value payload.
//! Per-document record keys sent to the downstream writer are the
//! big-endian field id, the big-endian document id, then the payload.

use vstd::prelude::*;
use vstd::utf8::{decode_utf8, encode_utf8, valid_utf8};

use crate::codec::{encode_fid_key, fid_key, push_u32_be, push_u16_be, u16_be_bytes, u32_be_bytes, FacetKind};
use crate::ordered_f64::{encode_ordered_f64, f64_is_finite, ordered_f64_bytes};
use crate::truncate::{normalize_facet, normalized_of, spec_truncate, truncate_str};

verus! {

/// The cache key of a `Number` entry: tag, field id, level 0, then
/// the 16-byte ordered payload.
pub open spec fn number_key(fid: u16, bits: u64) -> Seq<u8> {
    fid_key(FacetKind::Number, fid) + seq![0u8] + ordered_f64_bytes(bits)
}

/// The byte payload a string contributes to keys: its normalized
/// form, truncated on a character boundary to the key-size ceiling.
pub open spec fn string_payload(s: Seq<char>) -> Seq<u8> {
    spec_truncate(encode_utf8(normalized_of(s)))
}

/// The cache key of a `String` entry: tag, field id, level 0, then
/// the normalized, truncated value bytes.
pub open spec fn string_key(fid: u16, s: Seq<char>) -> Seq<u8> {
    fid_key(FacetKind::String, fid) + seq![0u8] + string_payload(s)
}

/// The per-document record key of a string value held as raw bytes:
/// field id, document id, then the payload of the decoded text.
pub open spec fn string_doc_key(fid: u16, docid: u32, value: Seq<u8>) -> Seq<u8>
    recommends
        valid_utf8(value),
{
    u16_be_bytes(fid) + u32_be_bytes(docid) + string_payload(decode_utf8(value))
}

/// The per-document record key of a number value held as its 16-byte
/// ordered payload: field id, document id, then the payload as it is.
pub open spec fn f64_doc_key(fid: u16, docid: u32, value: Seq<u8>) -> Seq<u8> {
    u16_be_bytes(fid) + u32_be_bytes(docid) + value
}

/// Builds the cache key of a finite number; a non-finite number has
/// no key.
pub fn encode_number_key(fid: u16, bits: u64) -> (r: Option<Vec<u8>>)
    ensures
        r is Some <==> f64_is_finite(bits),
        r matches Some(v) ==> v@ == number_key(fid, bits),
{
    match encode_ordered_f64(bits) {
        None => None,
        Some(payload) => {
            let mut buf = encode_fid_key(FacetKind::Number, fid);
            buf.push(0);
            buf.extend_from_slice(payload.as_slice());
            assert(buf@ =~= number_key(fid, bits));
            Some(buf)
        },
    }
}

/// Builds the cache key of a string value.
pub fn encode_string_key(fid: u16, s: &str) -> (r: Vec<u8>)
    ensures
        r@ == string_key(fid, s@),
        r@.len() <= 4 + crate::MAX_FACET_VALUE_LENGTH,
{
    let normalized = normalize_facet(s);
    let truncated = truncate_str(normalized.as_str());
    let mut buf = encode_fid_key(FacetKind::String, fid);
    buf.push(0);
    buf.extend_from_slice(truncated.as_bytes());
    assert(buf@ =~= string_key(fid, s@));
    buf
}

/// Builds the per-document record key of a string value; bytes that
/// are not valid UTF-8 have no record key.
pub fn encode_string_doc_key(fid: u16, docid: u32, value: &str) -> (r: Vec<u8>)
    ensures
        r@ == u16_be_bytes(fid) + u32_be_bytes(docid) + string_payload(value@),
{
    let normalized = normalize_facet(value);
    let truncated = truncate_str(normalized.as_str());
    let mut buf: Vec<u8> = Vec::new();
    push_u16_be(&mut buf, fid);
    push_u32_be(&mut buf, docid);
    buf.extend_from_slice(truncated.as_bytes());
    assert(buf@ =~= u16_be_bytes(fid) + u32_be_bytes(docid) + string_payload(value@));
    buf
}

/// Builds the per-document record key of a number value from its
/// stored 16-byte ordered payload.
pub fn encode_f64_doc_key(fid: u16, docid: u32, value: &Vec<u8>) -> (r: Vec<u8>)
    ensures
        r@ == f64_doc_key(fid, docid, value@),
{
    let mut buf: Vec<u8> = Vec::new();
    push_u16_be(&mut buf, fid);
    push_u32_be(&mut buf, docid);
    buf.extend_from_slice(value.as_slice());
    assert(buf@ =~= f64_doc_key(fid, docid, value@));
    buf
}

} // verus!
