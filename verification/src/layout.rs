//! The tuple binary layout.
//!
//! A tuple occupies one contiguous byte buffer: a fixed-size header (commit
//! timestamp as 8 little-endian bytes, domain length as 4, codomain length as
//! 4), then the raw domain bytes, then the raw codomain bytes, with no padding
//! between the regions. The domain and codomain lengths never change after
//! allocation; the timestamp may be rewritten in place.

use vstd::bytes::*;
use vstd::prelude::*;
use vstd::slice::slice_subrange;

verus! {

/// Size in bytes of the tuple header: timestamp, domain length, codomain length.
pub const HEADER_SIZE: usize = 16;

/// The full byte buffer of a tuple with timestamp `ts`, domain `domain` and
/// codomain `codomain`.
pub open spec fn spec_tuple_bytes(ts: u64, domain: Seq<u8>, codomain: Seq<u8>) -> Seq<u8> {
    spec_u64_to_le_bytes(ts) + spec_u32_to_le_bytes(domain.len() as u32)
        + spec_u32_to_le_bytes(codomain.len() as u32) + domain + codomain
}

/// The timestamp stored in a tuple buffer.
pub open spec fn spec_ts_of(b: Seq<u8>) -> u64 {
    spec_u64_from_le_bytes(b.subrange(0, 8))
}

/// The domain length stored in a tuple buffer's header.
pub open spec fn spec_domain_len_of(b: Seq<u8>) -> u32 {
    spec_u32_from_le_bytes(b.subrange(8, 12))
}

/// The codomain length stored in a tuple buffer's header.
pub open spec fn spec_codomain_len_of(b: Seq<u8>) -> u32 {
    spec_u32_from_le_bytes(b.subrange(12, 16))
}

/// A buffer is a well-formed tuple when its length is exactly the header plus
/// the two lengths the header declares.
pub open spec fn wf_tuple(b: Seq<u8>) -> bool {
    &&& b.len() >= HEADER_SIZE
    &&& b.len() == HEADER_SIZE + spec_domain_len_of(b) + spec_codomain_len_of(b)
}

/// The domain bytes of a well-formed tuple buffer.
pub open spec fn spec_domain_of(b: Seq<u8>) -> Seq<u8> {
    b.subrange(HEADER_SIZE as int, HEADER_SIZE + spec_domain_len_of(b))
}

/// The codomain bytes of a well-formed tuple buffer.
pub open spec fn spec_codomain_of(b: Seq<u8>) -> Seq<u8> {
    b.subrange(
        HEADER_SIZE + spec_domain_len_of(b),
        HEADER_SIZE + spec_domain_len_of(b) + spec_codomain_len_of(b),
    )
}

/// Encoding a tuple and reading its fields back returns exactly the inputs.
pub proof fn lemma_tuple_bytes_parse(ts: u64, domain: Seq<u8>, codomain: Seq<u8>)
    requires
        domain.len() <= u32::MAX,
        codomain.len() <= u32::MAX,
    ensures
        spec_tuple_bytes(ts, domain, codomain).len() == HEADER_SIZE + domain.len()
            + codomain.len(),
        wf_tuple(spec_tuple_bytes(ts, domain, codomain)),
        spec_ts_of(spec_tuple_bytes(ts, domain, codomain)) == ts,
        spec_domain_len_of(spec_tuple_bytes(ts, domain, codomain)) == domain.len(),
        spec_codomain_len_of(spec_tuple_bytes(ts, domain, codomain)) == codomain.len(),
        spec_domain_of(spec_tuple_bytes(ts, domain, codomain)) == domain,
        spec_codomain_of(spec_tuple_bytes(ts, domain, codomain)) == codomain,
{
    lemma_auto_spec_u64_to_from_le_bytes();
    lemma_auto_spec_u32_to_from_le_bytes();
    let b = spec_tuple_bytes(ts, domain, codomain);
    assert(b.subrange(0, 8) =~= spec_u64_to_le_bytes(ts));
    assert(b.subrange(8, 12) =~= spec_u32_to_le_bytes(domain.len() as u32));
    assert(b.subrange(12, 16) =~= spec_u32_to_le_bytes(codomain.len() as u32));
    assert(spec_domain_of(b) =~= domain);
    assert(spec_codomain_of(b) =~= codomain);
}

/// Rewriting the timestamp region of a well-formed tuple buffer leaves the
/// lengths, the domain and the codomain untouched.
pub proof fn lemma_ts_update(b: Seq<u8>, ts: u64)
    requires
        wf_tuple(b),
    ensures
        wf_tuple(spec_u64_to_le_bytes(ts) + b.skip(8)),
        spec_ts_of(spec_u64_to_le_bytes(ts) + b.skip(8)) == ts,
        spec_domain_of(spec_u64_to_le_bytes(ts) + b.skip(8)) == spec_domain_of(b),
        spec_codomain_of(spec_u64_to_le_bytes(ts) + b.skip(8)) == spec_codomain_of(b),
{
    lemma_auto_spec_u64_to_from_le_bytes();
    let b2 = spec_u64_to_le_bytes(ts) + b.skip(8);
    assert(b2.subrange(0, 8) =~= spec_u64_to_le_bytes(ts));
    assert(b2.subrange(8, 12) =~= b.subrange(8, 12));
    assert(b2.subrange(12, 16) =~= b.subrange(12, 16));
    assert(spec_domain_of(b2) =~= spec_domain_of(b));
    assert(spec_codomain_of(b2) =~= spec_codomain_of(b));
}

/// Build the byte buffer of a tuple: header, then domain, then codomain.
pub fn encode_tuple(ts: u64, domain: &[u8], codomain: &[u8]) -> (r: Vec<u8>)
    requires
        domain@.len() <= u32::MAX,
        codomain@.len() <= u32::MAX,
        HEADER_SIZE + domain@.len() + codomain@.len() <= usize::MAX,
    ensures
        r@ == spec_tuple_bytes(ts, domain@, codomain@),
        r@.len() == HEADER_SIZE + domain@.len() + codomain@.len(),
{
    proof {
        lemma_tuple_bytes_parse(ts, domain@, codomain@);
    }
    let mut r = u64_to_le_bytes(ts);
    let mut dl = u32_to_le_bytes(domain.len() as u32);
    r.append(&mut dl);
    let mut cl = u32_to_le_bytes(codomain.len() as u32);
    r.append(&mut cl);
    r.extend_from_slice(domain);
    r.extend_from_slice(codomain);
    assert(r@ =~= spec_tuple_bytes(ts, domain@, codomain@));
    r
}

/// Read the timestamp from a tuple buffer.
pub fn decode_ts(b: &[u8]) -> (r: u64)
    requires
        b@.len() >= 8,
    ensures
        r == spec_ts_of(b@),
{
    let s = slice_subrange(b, 0, 8);
    u64_from_le_bytes(s)
}

/// Read the domain length from a tuple buffer's header.
pub fn decode_domain_len(b: &[u8]) -> (r: u32)
    requires
        b@.len() >= HEADER_SIZE,
    ensures
        r == spec_domain_len_of(b@),
{
    let s = slice_subrange(b, 8, 12);
    u32_from_le_bytes(s)
}

/// Read the codomain length from a tuple buffer's header.
pub fn decode_codomain_len(b: &[u8]) -> (r: u32)
    requires
        b@.len() >= HEADER_SIZE,
    ensures
        r == spec_codomain_len_of(b@),
{
    let s = slice_subrange(b, 12, 16);
    u32_from_le_bytes(s)
}

/// Copy the domain bytes out of a well-formed tuple buffer.
pub fn decode_domain(b: &[u8]) -> (r: Vec<u8>)
    requires
        wf_tuple(b@),
    ensures
        r@ == spec_domain_of(b@),
{
    let blen = b.len();
    let dlen = decode_domain_len(b) as usize;
    assert(HEADER_SIZE + dlen <= blen);
    let s = slice_subrange(b, HEADER_SIZE, HEADER_SIZE + dlen);
    vstd::slice::slice_to_vec(s)
}

/// Copy the codomain bytes out of a well-formed tuple buffer.
pub fn decode_codomain(b: &[u8]) -> (r: Vec<u8>)
    requires
        wf_tuple(b@),
    ensures
        r@ == spec_codomain_of(b@),
{
    let blen = b.len();
    let dlen = decode_domain_len(b) as usize;
    let clen = decode_codomain_len(b) as usize;
    assert(HEADER_SIZE + dlen + clen <= blen);
    let s = slice_subrange(b, HEADER_SIZE + dlen, HEADER_SIZE + dlen + clen);
    vstd::slice::slice_to_vec(s)
}

} // verus!
