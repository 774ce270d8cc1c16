//! The incremental decoder: bytes go in as they arrive, payloads come out in
//! the order of their frames.

use vstd::prelude::*;
use vstd::slice::{slice_subrange, slice_to_vec};
use crate::error::FrameError;
use crate::model::DecoderView;
use crate::prefix::{find_frame, lemma_lookup_skip, lookup, Boundary, Lookup};
use crate::stream::split;

verus! {

/// A streaming decoder.
///
/// It keeps the bytes fed so far in one buffer and walks it with a cursor.
/// Once the cursor has reached the end of the buffer, the buffer is emptied.
#[derive(Debug)]
pub struct Decoder {
    /// Every byte of the buffer before this offset belongs to a frame whose
    /// payload has been handed to `res`.
    pos: usize,
    /// The start of the payload located last, while it waits to be copied out.
    msg_start: usize,
    /// The end of the payload located last.
    msg_end: usize,
    /// The bytes fed since the buffer was last emptied.
    buf: Vec<u8>,
    /// The payloads decoded and not yet read, oldest first.
    res: Vec<Vec<u8>>,
}

impl View for Decoder {
    type V = DecoderView;

    closed spec fn view(&self) -> DecoderView {
        DecoderView {
            pending: self.buf@.skip(self.pos as int),
            ready: self.res@.map_values(|payload: Vec<u8>| payload@),
        }
    }
}

impl Decoder {
    /// The offsets lie in the buffer in their order.
    spec fn in_order(&self) -> bool {
        self.pos <= self.msg_start <= self.msg_end <= self.buf@.len()
    }

    /// A payload has been located and waits to be copied out.
    spec fn located(&self) -> bool {
        self.msg_start > self.pos
    }

    /// The invariant between calls: no payload waits to be copied out, the
    /// buffer is empty unless bytes are pending, and no whole frame is left
    /// among the pending bytes.
    pub closed spec fn wf(&self) -> bool {
        &&& self.in_order()
        &&& self.msg_start == self.pos
        &&& self.msg_end == self.pos
        &&& self.pos == self.buf@.len() ==> self.buf@.len() == 0
        &&& self@.settled()
    }

    /// The number of bytes that the buffer holds: the pending ones, and
    /// before them those of the frames decoded since it was last emptied.
    pub closed spec fn retained(&self) -> nat {
        self.buf@.len()
    }

    /// Between calls no whole frame is left among the pending bytes, and the
    /// buffer holds bytes only while some are pending.
    pub proof fn lemma_wf(&self)
        requires
            self.wf(),
        ensures
            self@.settled(),
            self@.pending.len() <= self.retained(),
            self@.pending.len() == 0 ==> self.retained() == 0,
    {
    }

    /// A decoder with nothing pending and nothing ready is as one newly
    /// made: its buffer is empty, and nothing of what it was fed before
    /// bears on what it does next.
    pub proof fn lemma_drained_is_fresh(&self)
        requires
            self.wf(),
            self@.pending.len() == 0,
            self@.ready.len() == 0,
        ensures
            self@ == DecoderView::empty(),
            self.retained() == 0,
            forall|chunk: Seq<u8>|
                #![trigger self@.feed(chunk)]
                #![trigger self@.feed_result(chunk)]
                self@.feed(chunk) == DecoderView::empty().feed(chunk) && self@.feed_result(chunk)
                    == DecoderView::empty().feed_result(chunk),
    {
        assert(self@.pending =~= Seq::empty());
        assert(self@.ready =~= Seq::empty());
    }

    /// A decoder that holds nothing.
    pub fn new() -> (decoder: Decoder)
        ensures
            decoder.wf(),
            decoder@ == DecoderView::empty(),
            decoder.retained() == 0,
    {
        let decoder = Decoder {
            pos: 0,
            msg_start: 0,
            msg_end: 0,
            buf: Vec::new(),
            res: Vec::with_capacity(8),
        };
        proof {
            assert(decoder@.pending =~= Seq::empty());
            assert(decoder@.ready =~= Seq::empty());
        }
        decoder
    }

    /// Takes the next bytes of the stream and decodes every frame that they
    /// complete.
    ///
    /// Returns the number of payloads that became ready in this call. On a
    /// malformed prefix it returns the error; the payloads of the frames
    /// before that prefix are ready all the same, and every later call fails
    /// alike.
    ///
    /// The buffer grows by the chunk, and is emptied as soon as nothing is
    /// pending.
    pub fn feed(&mut self, chunk: &[u8]) -> (result: Result<usize, FrameError>)
        requires
            old(self).wf(),
        ensures
            final(self).wf(),
            final(self)@ == old(self)@.feed(chunk@),
            match result {
                Ok(count) => old(self)@.feed_result(chunk@) == Ok::<nat, FrameError>(count as nat),
                Err(error) => old(self)@.feed_result(chunk@) == Err::<nat, FrameError>(error),
            },
            final(self).retained() == if final(self)@.pending.len() == 0 {
                0
            } else {
                old(self).retained() + chunk@.len()
            },
    {
        self.buf.extend_from_slice(chunk);
        proof {
            assert(self@.pending =~= old(self)@.pending + chunk@);
        }
        self.parse()
    }

    /// Reads the oldest payload that is ready, if there is one.
    pub fn read(&mut self) -> (payload: Option<Vec<u8>>)
        requires
            old(self).wf(),
        ensures
            final(self).wf(),
            final(self)@ == old(self)@.read(),
            match payload {
                Some(bytes) => old(self)@.read_result() == Some(bytes@),
                None => old(self)@.read_result() is None,
            },
            final(self).retained() == old(self).retained(),
    {
        if self.res.len() == 0 {
            return None;
        }
        let payload = self.res.remove(0);
        proof {
            assert(self@.ready =~= old(self)@.ready.drop_first());
        }
        Some(payload)
    }

    /// The number of bytes fed that belong to no payload yet. While it is
    /// not zero the decoder waits for more bytes.
    pub fn buffer_len(&self) -> (len: usize)
        requires
            self.wf(),
        ensures
            len == self@.pending.len(),
    {
        self.buf.len() - self.pos
    }

    /// The number of payloads that are ready and not yet read.
    pub fn result_len(&self) -> (len: usize)
        ensures
            len == self@.ready.len(),
    {
        self.res.len()
    }

    /// Walks the buffer from the cursor on: copies out each payload that is
    /// located, empties the buffer once the cursor has reached its end, and
    /// looks for the next boundary otherwise.
    fn parse(&mut self) -> (result: Result<usize, FrameError>)
        requires
            old(self).in_order(),
            old(self).msg_start == old(self).pos,
            old(self).msg_end == old(self).pos,
        ensures
            final(self).wf(),
            final(self)@ == old(self)@.feed(Seq::empty()),
            match result {
                Ok(count) => old(self)@.feed_result(Seq::empty()) == Ok::<nat, FrameError>(
                    count as nat,
                ),
                Err(error) => old(self)@.feed_result(Seq::empty()) == Err::<nat, FrameError>(error),
            },
            final(self).retained() == if final(self)@.pending.len() == 0 {
                0
            } else {
                old(self).retained()
            },
    {
        let mut count: usize = 0;
        loop
            invariant
                self.in_order(),
                self.buf@ == old(self).buf@,
                self.located() ==> lookup(self.buf@, self.pos as int) == (Lookup::Located {
                    start: self.msg_start as int,
                    end: self.msg_end as int,
                }),
                !self.located() ==> self.msg_end == self.pos,
                count <= self.pos,
                self@.ready + split(self@.pending).payloads == old(self)@.feed(Seq::empty()).ready,
                split(self@.pending).rest == old(self)@.feed(Seq::empty()).pending,
                split(self@.pending).malformed == split(old(self)@.pending).malformed,
                count + split(self@.pending).payloads.len() == split(old(self)@.pending).payloads.len(),
            decreases self.buf@.len() - self.pos, self.buf@.len() + 1 - self.msg_start,
        {
            proof {
                lemma_lookup_skip(self.buf@, self.pos as int);
            }
            if self.msg_start > self.pos {
                let ghost before = self@;
                let ghost tail = self.buf@.skip(self.msg_end as int);
                let payload = slice_to_vec(
                    slice_subrange(self.buf.as_slice(), self.msg_start, self.msg_end),
                );
                proof {
                    assert(before.pending.subrange(
                        self.msg_start - self.pos,
                        self.msg_end - self.pos,
                    ) =~= payload@);
                    assert(before.pending.skip(self.msg_end - self.pos) =~= tail);
                }
                self.res.push(payload);
                count = count + 1;
                self.pos = self.msg_end;
                self.msg_start = self.msg_end;
                proof {
                    assert(self@.ready + split(tail).payloads =~= before.ready + split(
                        before.pending,
                    ).payloads);
                    lemma_lookup_skip(self.buf@, self.pos as int);
                }
            }
            if self.buf.len() == self.pos {
                let ghost before = self@;
                self.pos = 0;
                self.msg_start = 0;
                self.msg_end = 0;
                self.buf.clear();
                proof {
                    assert(self@.pending =~= before.pending);
                }
                return Ok(count);
            }
            match find_frame(self.buf.as_slice(), self.pos) {
                Boundary::Located { start, len } => {
                    if len > self.buf.len() - start {
                        return Ok(count);
                    }
                    self.msg_start = start;
                    self.msg_end = start + len;
                },
                Boundary::Incomplete => {
                    return Ok(count);
                },
                Boundary::Malformed => {
                    return Err(FrameError::PrefixTooLong);
                },
            }
        }
    }
}

} // verus!
