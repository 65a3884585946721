//! Decoding of percent-encoded byte sequences, as used in URLs and form
//! bodies: `%XX` escapes collapse to the byte they encode and `+` becomes a
//! space. Malformed escapes are never an error; they pass through unchanged.
//!
//! Two decoders produce the same output, proved against one model
//! ([`model::decode_seq`]): a scalar byte-at-a-time reference
//! ([`fallback::url_decode`]) and a blockwise decoder that resolves a fixed
//! width of input per iteration with a precomputed compaction table
//! ([`block::url_decode`]).

use vstd::prelude::*;

pub mod block;
pub mod fallback;
pub mod hex;
pub mod model;
pub mod table;

use crate::model::decode_seq;

verus! {

/// Decode a percent-encoded value into the given vector, replacing its
/// contents. Inputs of at least one block width go through the blockwise
/// decoder; shorter inputs go through the scalar decoder. Both produce the
/// decoded form of `src`.
pub fn url_decode(src: &[u8], dst: &mut Vec<u8>)
    ensures
        final(dst)@ == decode_seq(src@),
{
    if src.len() >= 16 {
        block::url_decode(src, dst);
    } else {
        fallback::url_decode(src, dst);
    }
}

} // verus!
