//! One-shot encoding and decoding of a single frame.

use vstd::prelude::*;
use vstd::slice::{slice_subrange, slice_to_vec};
use crate::prefix::{
    continuation_bytes, find_frame, frame, lemma_lookup_located, lemma_lookup_size_prefix,
    lemma_size_prefix_shape, lookup, prefix_len, size_prefix, Boundary, Lookup, MAX_PAYLOAD_LEN,
};
use crate::stream::{lemma_split_partial_frame, split};

verus! {

/// The payload of the frame at the start of `buf`, if `buf` holds all of it.
///
/// There is none where `buf` ends inside the prefix or inside the payload,
/// nor where the prefix is malformed.
pub open spec fn decoded(buf: Seq<u8>) -> Option<Seq<u8>> {
    match lookup(buf, 0) {
        Lookup::Located { start, end } => if end <= buf.len() {
            Some(buf.subrange(start, end))
        } else {
            None
        },
        Lookup::Incomplete => None,
        Lookup::Malformed => None,
    }
}

/// Appends the size prefix of a payload of length `len` to `out`.
fn push_size_prefix(out: &mut Vec<u8>, len: usize)
    requires
        len < MAX_PAYLOAD_LEN,
    ensures
        final(out)@ == old(out)@ + size_prefix(len as nat),
{
    proof {
        reveal_with_fuel(continuation_bytes, 4);
    }
    if len >= 2097152 {
        out.push((128 + len / 2097152) as u8);
    }
    if len >= 16384 {
        out.push((128 + len / 16384 % 128) as u8);
    }
    if len >= 128 {
        out.push((128 + len / 128 % 128) as u8);
    }
    out.push((len % 128) as u8);
}

/// Frames `payload`: its size prefix, then the payload unchanged.
pub fn encode(payload: &[u8]) -> (framed: Vec<u8>)
    requires
        payload@.len() < MAX_PAYLOAD_LEN,
    ensures
        framed@ == frame(payload@),
        framed@.len() == prefix_len(payload@.len()) + payload@.len(),
{
    proof {
        lemma_size_prefix_shape(payload@.len());
    }
    let len = payload.len();
    let mut framed: Vec<u8> = Vec::with_capacity(len + 4);
    push_size_prefix(&mut framed, len);
    framed.extend_from_slice(payload);
    framed
}

/// Reads the one frame at the start of `buf` and returns a copy of its
/// payload, or `None` where `buf` does not hold a whole, well-formed frame.
pub fn decode(buf: &[u8]) -> (payload: Option<Vec<u8>>)
    ensures
        match payload {
            Some(bytes) => decoded(buf@) == Some(bytes@),
            None => decoded(buf@) is None,
        },
{
    match find_frame(buf, 0) {
        Boundary::Located { start, len } => {
            if len <= buf.len() - start {
                Some(slice_to_vec(slice_subrange(buf, start, start + len)))
            } else {
                None
            }
        },
        Boundary::Incomplete => None,
        Boundary::Malformed => None,
    }
}

/// Decoding undoes encoding: the frame of a payload decodes to that
/// payload, whatever follows the frame.
pub proof fn lemma_round_trip(payload: Seq<u8>, tail: Seq<u8>)
    requires
        payload.len() < MAX_PAYLOAD_LEN,
    ensures
        decoded(frame(payload)) == Some(payload),
        decoded(frame(payload) + tail) == Some(payload),
{
    lemma_size_prefix_shape(payload.len());
    lemma_lookup_size_prefix(payload.len(), payload);
    lemma_lookup_size_prefix(payload.len(), payload + tail);
    assert(frame(payload) + tail == size_prefix(payload.len()) + (payload + tail));
}

/// The one-shot decoding returns the first payload that the splitting of a
/// stream finds, and nothing where that finds none.
pub proof fn lemma_decoded_is_first_frame(buf: Seq<u8>)
    ensures
        decoded(buf) == if split(buf).payloads.len() > 0 {
            Some(split(buf).payloads.first())
        } else {
            None
        },
{
    if lookup(buf, 0) is Located {
        lemma_lookup_located(buf, 0);
    }
}

/// A frame that is cut short decodes to nothing, be it cut inside the
/// prefix or inside the payload.
pub proof fn lemma_decoded_partial_frame(payload: Seq<u8>, n: int)
    requires
        payload.len() < MAX_PAYLOAD_LEN,
        0 <= n < frame(payload).len(),
    ensures
        decoded(frame(payload).take(n)) is None,
{
    lemma_split_partial_frame(payload, n);
    lemma_decoded_is_first_frame(frame(payload).take(n));
}

} // verus!
