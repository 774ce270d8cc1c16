//! How a byte stream splits into frames.
//!
//! A stream is read front to back. Each boundary lookup either locates a
//! payload that the stream holds in full, which is split off together with
//! its prefix, or it stops the reading: at a prefix or payload that is not
//! all there yet, or at a malformed prefix.

use vstd::prelude::*;
use crate::prefix::{
    frame, lemma_lookup_extend, lemma_lookup_incomplete, lemma_lookup_located,
    lemma_lookup_size_prefix, lemma_size_prefix_shape, lookup, prefix_len, size_prefix, Lookup,
    MAX_PAYLOAD_LEN,
};

verus! {

/// A stream split into the payloads of its whole frames and what is left.
pub struct Split {
    /// The payloads of the frames at the front of the stream, in order.
    pub payloads: Seq<Seq<u8>>,
    /// What follows the last whole frame.
    pub rest: Seq<u8>,
    /// Whether `rest` starts with a malformed prefix.
    pub malformed: bool,
}

impl Split {
    /// The split that comes to a halt at once, with all of `rest` left over.
    pub open spec fn halt(rest: Seq<u8>, malformed: bool) -> Split {
        Split { payloads: Seq::empty(), rest, malformed }
    }

    /// This split behind a frame that carried `payload`.
    pub open spec fn after(self, payload: Seq<u8>) -> Split {
        Split { payloads: seq![payload] + self.payloads, rest: self.rest, malformed: self.malformed }
    }
}

/// Splits `stream` into its whole frames and the rest.
pub open spec fn split(stream: Seq<u8>) -> Split
    decreases stream.len(),
    via split_decreases
{
    match lookup(stream, 0) {
        Lookup::Located { start, end } => if end <= stream.len() {
            split(stream.skip(end)).after(stream.subrange(start, end))
        } else {
            Split::halt(stream, false)
        },
        Lookup::Incomplete => Split::halt(stream, false),
        Lookup::Malformed => Split::halt(stream, true),
    }
}

#[via_fn]
proof fn split_decreases(stream: Seq<u8>) {
    if lookup(stream, 0) is Located {
        lemma_lookup_located(stream, 0);
    }
}

/// The frames of `payloads`, one after the other.
pub open spec fn frames(payloads: Seq<Seq<u8>>) -> Seq<u8>
    decreases payloads.len(),
{
    if payloads.len() == 0 {
        Seq::empty()
    } else {
        frame(payloads.first()) + frames(payloads.drop_first())
    }
}

/// Whether every payload is short enough to be framed.
pub open spec fn all_fit(payloads: Seq<Seq<u8>>) -> bool {
    forall|i: int| 0 <= i < payloads.len() ==> (#[trigger] payloads[i]).len() < MAX_PAYLOAD_LEN
}

/// What a split leaves over is the end of the stream, and each frame split
/// off took at least one byte of it.
pub proof fn lemma_split_rest(stream: Seq<u8>)
    ensures
        split(stream).payloads.len() + split(stream).rest.len() <= stream.len(),
        split(stream).rest == stream.skip(stream.len() - split(stream).rest.len()),
        split(stream).malformed <==> lookup(split(stream).rest, 0) is Malformed,
        split(stream).payloads.len() == 0 ==> split(stream).rest == stream,
    decreases stream.len(),
{
    match lookup(stream, 0) {
        Lookup::Located { start, end } => {
            lemma_lookup_located(stream, 0);
            if end <= stream.len() {
                lemma_split_rest(stream.skip(end));
            }
        },
        _ => {},
    }
}

/// Splitting what a split left over splits off nothing more.
pub proof fn lemma_split_settles(stream: Seq<u8>)
    ensures
        split(split(stream).rest) == Split::halt(split(stream).rest, split(stream).malformed),
    decreases stream.len(),
{
    match lookup(stream, 0) {
        Lookup::Located { start, end } => {
            lemma_lookup_located(stream, 0);
            if end <= stream.len() {
                lemma_split_settles(stream.skip(end));
            }
        },
        _ => {},
    }
}

/// Bytes that arrive later change nothing of the frames already split off:
/// splitting `stream + more` is splitting `stream` and then going on with
/// what that left over, followed by `more`.
pub proof fn lemma_split_append(stream: Seq<u8>, more: Seq<u8>)
    ensures
        split(stream + more).payloads == split(stream).payloads + split(
            split(stream).rest + more,
        ).payloads,
        split(stream + more).rest == split(split(stream).rest + more).rest,
        split(stream + more).malformed == split(split(stream).rest + more).malformed,
        split(stream).malformed ==> split(stream + more).malformed,
    decreases stream.len(),
{
    match lookup(stream, 0) {
        Lookup::Located { start, end } => {
            lemma_lookup_located(stream, 0);
            if end <= stream.len() {
                let tail = stream.skip(end);
                lemma_lookup_extend(stream, more, 0);
                assert((stream + more).skip(end) == tail + more);
                assert((stream + more).subrange(start, end) == stream.subrange(start, end));
                lemma_split_append(tail, more);
            }
        },
        Lookup::Incomplete => {},
        Lookup::Malformed => {
            lemma_lookup_extend(stream, more, 0);
        },
    }
}

/// A frame at the front of a stream is split off whole, whatever follows it.
pub proof fn lemma_split_frame(payload: Seq<u8>, tail: Seq<u8>)
    requires
        payload.len() < MAX_PAYLOAD_LEN,
    ensures
        split(frame(payload) + tail) == split(tail).after(payload),
{
    let stream = frame(payload) + tail;
    let n = prefix_len(payload.len()) as int;
    lemma_size_prefix_shape(payload.len());
    lemma_lookup_size_prefix(payload.len(), payload + tail);
    assert(stream == size_prefix(payload.len()) + (payload + tail));
    assert(stream.subrange(n, n + payload.len()) == payload);
    assert(stream.skip(n + payload.len()) == tail);
}

/// No payload comes out of a frame before its last byte is there.
pub proof fn lemma_split_partial_frame(payload: Seq<u8>, n: int)
    requires
        payload.len() < MAX_PAYLOAD_LEN,
        0 <= n < frame(payload).len(),
    ensures
        split(frame(payload).take(n)) == Split::halt(frame(payload).take(n), false),
{
    let whole = frame(payload);
    let part = whole.take(n);
    let p = prefix_len(payload.len()) as int;
    lemma_size_prefix_shape(payload.len());
    if n < p {
        assert forall|k: int| 0 <= k < part.len() implies part[k] >= 128 by {}
        lemma_lookup_incomplete(part, 0);
    } else {
        let more = whole.skip(n);
        assert(part + more == whole);
        lemma_lookup_size_prefix(payload.len(), payload);
        if !(lookup(part, 0) is Incomplete) {
            lemma_lookup_extend(part, more, 0);
        }
    }
}

/// Frames written one after the other are split into their payloads, in
/// order, and the splitting goes on with what follows them. Empty payloads
/// are kept.
pub proof fn lemma_split_frames(payloads: Seq<Seq<u8>>, tail: Seq<u8>)
    requires
        all_fit(payloads),
    ensures
        split(frames(payloads) + tail) == (Split {
            payloads: payloads + split(tail).payloads,
            rest: split(tail).rest,
            malformed: split(tail).malformed,
        }),
    decreases payloads.len(),
{
    if payloads.len() > 0 {
        let first = payloads.first();
        let others = payloads.drop_first();
        lemma_split_frames(others, tail);
        lemma_split_frame(first, frames(others) + tail);
        assert(frames(payloads) + tail == frame(first) + (frames(others) + tail));
        assert(seq![first] + (others + split(tail).payloads) == payloads + split(tail).payloads);
    }
}

/// A stream of whole frames and nothing else is split into the payloads of
/// those frames, with nothing left over.
pub proof fn lemma_split_whole_frames(payloads: Seq<Seq<u8>>)
    requires
        all_fit(payloads),
    ensures
        split(frames(payloads)) == (Split {
            payloads,
            rest: Seq::empty(),
            malformed: false,
        }),
{
    lemma_split_frames(payloads, Seq::empty());
}

} // verus!
