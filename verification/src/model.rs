//! What a decoder holds as its callers see it, and the laws of feeding and
//! reading.

use vstd::prelude::*;
use crate::error::FrameError;
use crate::prefix::{
    frame, lemma_lookup_extend, lemma_lookup_malformed, lookup, MAX_PAYLOAD_LEN, MAX_PREFIX_LEN,
};
use crate::stream::{
    all_fit, frames, lemma_split_append, lemma_split_frames, lemma_split_partial_frame,
    lemma_split_rest, lemma_split_settles, split,
};

verus! {

/// What a decoder holds, as far as its callers can tell.
pub struct DecoderView {
    /// The bytes fed that belong to no payload yet, oldest first.
    pub pending: Seq<u8>,
    /// The payloads decoded and not yet read, oldest first.
    pub ready: Seq<Seq<u8>>,
}

impl DecoderView {
    /// The decoder that holds nothing.
    pub open spec fn empty() -> DecoderView {
        DecoderView { pending: Seq::empty(), ready: Seq::empty() }
    }

    /// Whether no whole frame is left among the pending bytes.
    pub open spec fn settled(self) -> bool {
        split(self.pending).payloads.len() == 0
    }

    /// Whether the pending bytes start with a malformed prefix.
    pub open spec fn stuck(self) -> bool {
        lookup(self.pending, 0) is Malformed
    }

    /// The state after `chunk` has been fed: every whole frame among the
    /// pending bytes and `chunk` has become a payload that is ready.
    pub open spec fn feed(self, chunk: Seq<u8>) -> DecoderView {
        let parts = split(self.pending + chunk);
        DecoderView { pending: parts.rest, ready: self.ready + parts.payloads }
    }

    /// What feeding `chunk` reports: the number of frames that the chunk
    /// completed, or the error that the stream has run into.
    pub open spec fn feed_result(self, chunk: Seq<u8>) -> Result<nat, FrameError> {
        let parts = split(self.pending + chunk);
        if parts.malformed {
            Err(FrameError::PrefixTooLong)
        } else {
            Ok(parts.payloads.len())
        }
    }

    /// The state after the chunks have been fed one by one.
    pub open spec fn feed_each(self, chunks: Seq<Seq<u8>>) -> DecoderView
        decreases chunks.len(),
    {
        if chunks.len() == 0 {
            self
        } else {
            self.feed(chunks.first()).feed_each(chunks.drop_first())
        }
    }

    /// The state after the oldest payload has been read.
    pub open spec fn read(self) -> DecoderView {
        if self.ready.len() == 0 {
            self
        } else {
            DecoderView { pending: self.pending, ready: self.ready.drop_first() }
        }
    }

    /// The payload that a read returns.
    pub open spec fn read_result(self) -> Option<Seq<u8>> {
        if self.ready.len() == 0 {
            None
        } else {
            Some(self.ready.first())
        }
    }

    /// The state after `n` reads.
    pub open spec fn read_times(self, n: nat) -> DecoderView
        decreases n,
    {
        if n == 0 {
            self
        } else {
            self.read().read_times((n - 1) as nat)
        }
    }

    /// Feeding leaves no whole frame among the pending bytes.
    pub proof fn lemma_feed_settles(self, chunk: Seq<u8>)
        ensures
            self.feed(chunk).settled(),
    {
        lemma_split_settles(self.pending + chunk);
    }

    /// Feeding nothing to a settled decoder changes nothing.
    pub proof fn lemma_feed_nothing(self)
        requires
            self.settled(),
        ensures
            self.feed(Seq::empty()) == self,
    {
        lemma_split_rest(self.pending);
    }

    /// Where a stream is cut into chunks does not matter: feeding `first` and
    /// then `second` leaves the decoder as feeding both at once does. The
    /// two calls report as many frames as the one, and one of them fails
    /// exactly if the one does.
    pub proof fn lemma_feed_in_two(self, first: Seq<u8>, second: Seq<u8>)
        ensures
            self.feed(first).feed(second) == self.feed(first + second),
            self.feed_result(first) is Err ==> self.feed(first).feed_result(second) is Err,
            self.feed(first).feed_result(second) is Err <==> self.feed_result(first + second) is Err,
            self.feed_result(first + second) matches Ok(count) ==> self.feed_result(first) is Ok
                && count == self.feed_result(first)->Ok_0 + self.feed(first).feed_result(
                second,
            )->Ok_0,
    {
        let stream = self.pending + first;
        lemma_split_append(stream, second);
        assert(stream + second == self.pending + (first + second));
        assert(self.ready + (split(stream).payloads + split(split(stream).rest + second).payloads)
            == self.ready + split(stream).payloads + split(split(stream).rest + second).payloads);
        lemma_split_rest(stream);
        if split(stream).malformed {
            lemma_lookup_extend(split(stream).rest, second, 0);
        }
    }

    /// Where a stream is cut into chunks does not matter: feeding the chunks
    /// one by one, empty ones and single bytes among them, leaves the decoder
    /// as feeding all their bytes at once does.
    pub proof fn lemma_feed_in_chunks(self, chunks: Seq<Seq<u8>>)
        requires
            self.settled(),
        ensures
            self.feed_each(chunks) == self.feed(chunks.flatten()),
        decreases chunks.len(),
    {
        if chunks.len() == 0 {
            self.lemma_feed_nothing();
        } else {
            let next = self.feed(chunks.first());
            self.lemma_feed_settles(chunks.first());
            next.lemma_feed_in_chunks(chunks.drop_first());
            self.lemma_feed_in_two(chunks.first(), chunks.drop_first().flatten());
        }
    }

    /// Whole frames fed to a decoder with nothing pending, in one call, make
    /// each of their payloads ready, the empty ones too, behind those that
    /// were ready before and in the order of the frames. The call reports
    /// their number and nothing is left pending.
    pub proof fn lemma_feed_frames(self, payloads: Seq<Seq<u8>>)
        requires
            self.pending.len() == 0,
            all_fit(payloads),
        ensures
            self.feed(frames(payloads)) == (DecoderView {
                pending: Seq::empty(),
                ready: self.ready + payloads,
            }),
            self.feed_result(frames(payloads)) == Ok::<nat, FrameError>(payloads.len()),
    {
        lemma_split_frames(payloads, Seq::empty());
    }

    /// Whole frames fed to a decoder with nothing pending, cut into chunks
    /// at any places, make each of their payloads ready in the order of the
    /// frames, and leave nothing pending.
    pub proof fn lemma_feed_frames_in_chunks(self, payloads: Seq<Seq<u8>>, chunks: Seq<Seq<u8>>)
        requires
            self.pending.len() == 0,
            all_fit(payloads),
            chunks.flatten() == frames(payloads),
        ensures
            self.feed_each(chunks) == (DecoderView {
                pending: Seq::empty(),
                ready: self.ready + payloads,
            }),
    {
        self.lemma_feed_in_chunks(chunks);
        self.lemma_feed_frames(payloads);
    }

    /// A payload does not become ready before the last byte of its frame has
    /// been fed: chunks that make up less than the whole frame leave all
    /// their bytes pending.
    pub proof fn lemma_feed_partial_frame(self, payload: Seq<u8>, chunks: Seq<Seq<u8>>)
        requires
            self.pending.len() == 0,
            payload.len() < MAX_PAYLOAD_LEN,
            chunks.flatten().len() < frame(payload).len(),
            chunks.flatten() == frame(payload).take(chunks.flatten().len() as int),
        ensures
            self.feed_each(chunks) == (DecoderView {
                pending: chunks.flatten(),
                ready: self.ready,
            }),
    {
        self.lemma_feed_in_chunks(chunks);
        lemma_split_partial_frame(payload, chunks.flatten().len() as int);
    }

    /// Four continuation bytes in a row where a frame should start make the
    /// feed fail. The payloads of the frames before them are ready all the
    /// same, and the bytes from the malformed prefix on stay pending.
    pub proof fn lemma_feed_malformed(self, payloads: Seq<Seq<u8>>, bad: Seq<u8>)
        requires
            self.pending.len() == 0,
            all_fit(payloads),
            bad.len() >= MAX_PREFIX_LEN,
            forall|k: int| 0 <= k < MAX_PREFIX_LEN ==> bad[k] >= 128,
        ensures
            self.feed_result(frames(payloads) + bad) == Err::<nat, FrameError>(
                FrameError::PrefixTooLong,
            ),
            self.feed(frames(payloads) + bad) == (DecoderView {
                pending: bad,
                ready: self.ready + payloads,
            }),
            self.feed(frames(payloads) + bad).stuck(),
    {
        lemma_split_frames(payloads, bad);
        lemma_lookup_malformed(bad, 0);
    }

    /// A decoder that has run into a malformed prefix stays there: every
    /// later feed fails, makes nothing ready and keeps its bytes pending.
    pub proof fn lemma_stuck_stays(self, chunk: Seq<u8>)
        requires
            self.stuck(),
        ensures
            self.feed_result(chunk) == Err::<nat, FrameError>(FrameError::PrefixTooLong),
            self.feed(chunk) == (DecoderView {
                pending: self.pending + chunk,
                ready: self.ready,
            }),
            self.feed(chunk).stuck(),
    {
        lemma_lookup_extend(self.pending, chunk, 0);
    }

    /// Reading a payload between two feeds takes nothing from what the later
    /// feed brings: reading first and feeding then leaves the decoder as
    /// feeding first and reading then does.
    pub proof fn lemma_read_before_feed(self, chunk: Seq<u8>)
        requires
            self.ready.len() > 0,
        ensures
            self.read().feed(chunk) == self.feed(chunk).read(),
            self.read().feed_result(chunk) == self.feed_result(chunk),
            self.read_result() == self.feed(chunk).read_result(),
    {
        let parts = split(self.pending + chunk);
        assert(self.ready.drop_first() + parts.payloads == (self.ready + parts.payloads).drop_first());
    }

    /// Payloads are read in the order in which they became ready: the read
    /// that follows `n` earlier ones returns the payload at index `n`, and
    /// nothing once all are read. Reading leaves the pending bytes alone.
    pub proof fn lemma_read_in_order(self, n: nat)
        ensures
            self.read_times(n).pending == self.pending,
            n < self.ready.len() ==> self.read_times(n).read_result() == Some(self.ready[n as int]),
            n >= self.ready.len() ==> self.read_times(n).read_result() is None,
            self.read_times(n).ready == self.ready.skip(
                if n < self.ready.len() {
                    n as int
                } else {
                    self.ready.len() as int
                },
            ),
        decreases n,
    {
        if n > 0 {
            self.read().lemma_read_in_order((n - 1) as nat);
        }
    }
}

} // verus!
