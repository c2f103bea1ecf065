use vstd::prelude::*;
use vstd::math::min;
use vstd::slice::slice_subrange;

use crate::buffer::DestBuf;
use crate::error::StreamError;
use crate::producer::ChunkProducer;
use crate::producer::concat_all;
use crate::producer::concat_from;
use crate::producer::concat_upto;
use crate::producer::lemma_concat_split;

verus! {

/// The lifecycle of the read side: the producer has not been started,
/// is suspended inside a pending `write`, or has returned its terminal
/// result. Once `Done`, it is never re-entered.
#[derive(Clone, Copy, PartialEq, Eq, Structural, Debug)]
pub enum Phase {
    NotStarted,
    Active,
    Done,
}

impl Phase {
    /// A fresh stream: the producer has not run at all yet.
    pub fn new() -> (r: Phase)
        ensures
            r is NotStarted,
    {
        Phase::NotStarted
    }

    /// Whether the first poll still has to start the producer.
    pub fn needs_start(&self) -> (b: bool)
        ensures
            b <==> *self is NotStarted,
    {
        matches!(self, Phase::NotStarted)
    }

    /// Whether the producer has returned; a done stream is never resumed.
    pub fn is_done(&self) -> (b: bool)
        ensures
            b <==> *self is Done,
    {
        matches!(self, Phase::Done)
    }

    /// The producer ran up to a `write` and is suspended in it.
    pub fn suspend(&mut self)
        requires
            !(*old(self) is Done),
        ensures
            *final(self) is Active,
    {
        *self = Phase::Active;
    }

    /// The producer returned: remember completion for every later poll.
    pub fn complete(&mut self)
        ensures
            *final(self) is Done,
    {
        *self = Phase::Done;
    }
}

/// How far a stream still is from rest: a live stream weighs one more
/// than a finished one, so that every poll brings the total down.
pub open spec fn live_weight(done: bool) -> int {
    if done {
        0
    } else {
        1
    }
}

/// The pull side of the adapter. It owns the suspended producer — here an
/// explicit generator over chunks — and is the only authority that may
/// resume it. Each poll completes at most the one pending `write`, bounded
/// by the destination's remaining capacity, and remembers completion so a
/// finished producer is never re-entered.
pub struct Reader {
    chunks: Vec<Vec<u8>>,
    result: Result<(), StreamError>,
    idx: usize,
    off: usize,
    phase: Phase,
}

impl Reader {
    /// The producer's chunks as mathematical sequences.
    pub closed spec fn chunk_views(&self) -> Seq<Seq<u8>> {
        self.chunks@.map_values(|c: Vec<u8>| c@)
    }

    /// Everything the producer would write to an unbounded sink, in order.
    pub closed spec fn output(&self) -> Seq<u8> {
        concat_all(self.chunk_views())
    }

    /// The producer's terminal result, surfaced at the completing poll.
    pub closed spec fn result_spec(&self) -> Result<(), StreamError> {
        self.result
    }

    pub closed spec fn phase_spec(&self) -> Phase {
        self.phase
    }

    /// The bytes handed to destination buffers so far, in order.
    pub closed spec fn delivered(&self) -> Seq<u8> {
        if self.idx < self.chunk_views().len() {
            concat_upto(self.chunk_views(), self.idx as int)
                + self.chunk_views()[self.idx as int].take(self.off as int)
        } else {
            self.output()
        }
    }

    /// The remainder of the `write` the producer is suspended in: the next
    /// poll completes exactly this, up to the destination's capacity.
    pub closed spec fn pending(&self) -> Seq<u8> {
        if self.idx < self.chunk_views().len() {
            self.chunk_views()[self.idx as int].skip(self.off as int)
        } else {
            Seq::empty()
        }
    }

    /// The bytes not yet delivered.
    pub closed spec fn undelivered(&self) -> Seq<u8> {
        self.pending() + concat_from(self.chunk_views(), self.idx + 1)
    }

    /// What one poll with the given destination delivers: the pending
    /// `write`, cut short at the destination's remaining capacity.
    pub open spec fn poll_delivery(&self, dest: &DestBuf) -> Seq<u8> {
        self.pending().take(min(dest.remaining_spec(), self.pending().len() as int))
    }

    pub closed spec fn wf(&self) -> bool {
        &&& self.idx <= self.chunk_views().len()
        &&& (self.idx < self.chunk_views().len()
            ==> self.off < self.chunk_views()[self.idx as int].len())
        &&& (self.phase is NotStarted ==> self.delivered() == Seq::<u8>::empty())
        &&& (self.phase is Done ==> self.idx == self.chunk_views().len())
        &&& (self.phase is Active ==> self.idx < self.chunk_views().len())
    }

    /// The stream's accounting never loses a byte: what was delivered
    /// followed by what was not is exactly the producer's output, so the
    /// undelivered part is the output's suffix past the delivered prefix.
    pub proof fn lemma_state(&self)
        requires
            self.wf(),
        ensures
            self.output() == self.delivered() + self.undelivered(),
            self.delivered().len() + self.undelivered().len() == self.output().len(),
            self.undelivered() == self.output().skip(self.delivered().len() as int),
            self.phase_spec() is Done ==> self.delivered() == self.output(),
            self.phase_spec() is Active ==> self.undelivered().len() > 0,
    {
        let cs = self.chunk_views();
        let i = self.idx as int;
        if i < cs.len() {
            lemma_concat_split(cs, i);
            assert(concat_from(cs, i) == cs[i] + concat_from(cs, i + 1));
            assert(cs[i].take(self.off as int) + cs[i].skip(self.off as int) =~= cs[i]);
            assert(concat_upto(cs, i) + (cs[i].take(self.off as int) + (cs[i].skip(
                self.off as int,
            ) + concat_from(cs, i + 1))) =~= concat_upto(cs, i) + cs[i] + concat_from(cs, i + 1));
            assert(self.delivered() + self.undelivered() =~= concat_upto(cs, i) + (cs[i].take(
                self.off as int,
            ) + (cs[i].skip(self.off as int) + concat_from(cs, i + 1))));
            assert(self.output() == self.delivered() + self.undelivered());
        } else {
            assert(self.pending() + concat_from(cs, i + 1) =~= Seq::<u8>::empty());
            assert(self.delivered() + self.undelivered() =~= self.output());
        }
        assert(self.undelivered() =~= (self.delivered() + self.undelivered()).skip(
            self.delivered().len() as int,
        ));
        if self.phase is Done {
            assert(self.delivered() == self.output());
        }
        if self.phase is Active {
            assert(self.pending().len() > 0);
        }
    }

    /// A fresh stream over the given producer: nothing delivered, the
    /// producer not yet started.
    pub fn new(producer: ChunkProducer) -> (r: Reader)
        ensures
            r.wf(),
            r.phase_spec() is NotStarted,
            r.output() == producer.output(),
            r.result_spec() == producer.result,
            r.delivered() == Seq::<u8>::empty(),
    {
        let ChunkProducer { chunks, result } = producer;
        let mut r = Reader { chunks, result, idx: 0, off: 0, phase: Phase::new() };
        proof {
            let cs = r.chunk_views();
            if r.idx < cs.len() {
                assert(r.delivered() =~= concat_upto(cs, 0) + cs[0].take(0));
                assert(r.delivered() =~= Seq::<u8>::empty());
            } else {
                assert(r.delivered() =~= Seq::<u8>::empty());
            }
        }
        r.advance_chunks();
        r
    }

    /// Whether the producer has returned and the stream is finished.
    pub fn is_done(&self) -> (b: bool)
        ensures
            b <==> self.phase_spec() is Done,
    {
        self.phase.is_done()
    }

    /// Move the cursor past exhausted and empty chunks, so that either a
    /// nonempty pending `write` remains or the producer is out of chunks.
    /// Delivers nothing and forgets nothing.
    fn advance_chunks(&mut self)
        requires
            old(self).idx <= old(self).chunk_views().len(),
            old(self).idx < old(self).chunk_views().len()
                ==> old(self).off <= old(self).chunk_views()[old(self).idx as int].len(),
        ensures
            final(self).chunks == old(self).chunks,
            final(self).result == old(self).result,
            final(self).phase == old(self).phase,
            final(self).idx <= final(self).chunk_views().len(),
            final(self).idx < final(self).chunk_views().len()
                ==> final(self).off < final(self).chunk_views()[final(self).idx as int].len(),
            final(self).delivered() == old(self).delivered(),
            final(self).undelivered() == old(self).undelivered(),
    {
        while self.idx < self.chunks.len() && self.off >= self.chunks[self.idx].len()
            invariant
                self.chunks == old(self).chunks,
                self.result == old(self).result,
                self.phase == old(self).phase,
                self.idx <= self.chunk_views().len(),
                self.idx < self.chunk_views().len() ==> self.off
                    <= self.chunk_views()[self.idx as int].len(),
                self.delivered() == old(self).delivered(),
                self.undelivered() == old(self).undelivered(),
            decreases self.chunks@.len() - self.idx,
        {
            let ghost pre = *self;
            self.idx = self.idx + 1;
            self.off = 0;
            proof {
                let cs = self.chunk_views();
                let i = pre.idx as int;
                assert(pre.off == cs[i].len());
                assert(cs[i].take(pre.off as int) =~= cs[i]);
                assert(pre.delivered() == concat_upto(cs, i) + cs[i]);
                assert(concat_upto(cs, i + 1) == concat_upto(cs, i) + cs[i]);
                if self.idx < cs.len() {
                    assert(self.delivered() =~= concat_upto(cs, i + 1) + cs[i + 1].take(0));
                } else {
                    lemma_concat_split(cs, i + 1);
                    assert(self.output() =~= concat_upto(cs, i + 1) + concat_from(cs, i + 1));
                    assert(concat_from(cs, i + 1) =~= Seq::<u8>::empty());
                    assert(self.delivered() =~= concat_upto(cs, i + 1));
                }
                assert(pre.pending() =~= Seq::<u8>::empty());
                assert(pre.undelivered() =~= concat_from(cs, i + 1));
                if self.idx < cs.len() {
                    assert(cs[i + 1].skip(0) =~= cs[i + 1]);
                    assert(self.undelivered() =~= cs[i + 1] + concat_from(cs, i + 2));
                    assert(concat_from(cs, i + 1) == cs[i + 1] + concat_from(cs, i + 2));
                } else {
                    assert(self.undelivered() =~= Seq::<u8>::empty());
                }
            }
        }
    }

    /// One poll of the stream. A poll of a finished stream is a clean
    /// end-of-stream: nothing written, success reported, the producer not
    /// re-entered. Otherwise the poll starts or resumes the producer,
    /// completes its pending `write` short of the destination's remaining
    /// capacity, and runs it up to its next `write` — or to its return,
    /// in which case its terminal result is surfaced by this very poll,
    /// exactly once. A producer with nothing to write completes on the
    /// first poll with zero bytes delivered.
    pub fn poll_read(&mut self, dest: &mut DestBuf) -> (r: Result<(), StreamError>)
        requires
            old(self).wf(),
            old(dest).wf(),
        ensures
            final(self).wf(),
            final(dest).wf(),
            final(dest).capacity() == old(dest).capacity(),
            final(self).output() == old(self).output(),
            final(self).result_spec() == old(self).result_spec(),
            old(self).phase_spec() is Done ==> *final(self) == *old(self)
                && final(dest).filled() == old(dest).filled()
                && r == Ok::<(), StreamError>(()),
            !(old(self).phase_spec() is Done)
                ==> final(dest).filled() == old(dest).filled() + old(self).poll_delivery(old(dest)),
            !(old(self).phase_spec() is Done)
                ==> final(self).delivered() == old(self).delivered() + old(self).poll_delivery(old(dest)),
            !(old(self).phase_spec() is Done)
                ==> (final(self).phase_spec() is Done <==> final(self).delivered() == old(self).output()),
            !(old(self).phase_spec() is Done) && final(self).phase_spec() is Done
                ==> r == old(self).result_spec(),
            !(final(self).phase_spec() is Done)
                ==> r == Ok::<(), StreamError>(()) && final(self).phase_spec() is Active,
            old(self).phase_spec() is NotStarted && old(self).output().len() == 0
                ==> final(self).phase_spec() is Done
                && final(dest).filled() == old(dest).filled()
                && r == old(self).result_spec(),
    {
        if self.phase.is_done() {
            return Ok(());
        }
        proof {
            old(self).lemma_state();
        }
        if self.idx < self.chunks.len() {
            let chunk_len = self.chunks[self.idx].len();
            let pending_bytes = slice_subrange(self.chunks[self.idx].as_slice(), self.off, chunk_len);
            proof {
                assert(pending_bytes@ =~= old(self).pending());
            }
            let n = dest.write(pending_bytes);
            proof {
                assert(pending_bytes@.take(n as int) =~= old(self).poll_delivery(old(dest)));
                assert(dest.filled() == old(dest).filled() + old(self).poll_delivery(old(dest)));
            }
            let ghost mid = *self;
            self.off = self.off + n;
            proof {
                let cs = self.chunk_views();
                let i = self.idx as int;
                let o = mid.off as int;
                assert(cs[i].take(o + n) =~= cs[i].take(o) + cs[i].skip(o).take(n as int));
                assert(self.delivered() =~= concat_upto(cs, i) + (cs[i].take(o) + cs[i].skip(
                    o,
                ).take(n as int)));
                assert(self.delivered() =~= old(self).delivered() + old(self).poll_delivery(
                    old(dest),
                ));
                assert(self.undelivered() =~= cs[i].skip(o).skip(n as int) + concat_from(
                    cs,
                    i + 1,
                ));
            }
            self.advance_chunks();
        } else {
            proof {
                assert(old(self).pending().take(0) =~= Seq::<u8>::empty());
                assert(old(dest).filled() + Seq::<u8>::empty() =~= old(dest).filled());
                assert(old(self).poll_delivery(old(dest)) =~= Seq::<u8>::empty());
                assert(dest.filled() == old(dest).filled() + old(self).poll_delivery(old(dest)));
                assert(old(self).delivered() + old(self).poll_delivery(old(dest)) =~= old(self).delivered());
            }
        }
        if self.idx == self.chunks.len() {
            self.phase.complete();
            proof {
                self.lemma_state();
            }
            self.result
        } else {
            self.phase.suspend();
            proof {
                self.lemma_state();
                assert(self.delivered().len() < self.output().len());
            }
            Ok(())
        }
    }

    /// Polling the stream to completion, with a fresh destination buffer
    /// of capacity `cap` for each poll, delivers exactly the byte
    /// sequence the producer would have written to an unbounded sink, in
    /// the same order, and ends with the producer's own terminal result —
    /// a failure is surfaced once, by the completing poll, never earlier.
    pub fn read_to_end(&mut self, cap: usize) -> (out: (Vec<u8>, Result<(), StreamError>))
        requires
            old(self).wf(),
            cap >= 1,
        ensures
            final(self).wf(),
            final(self).phase_spec() is Done,
            !(old(self).phase_spec() is Done)
                ==> out.0@ == old(self).undelivered() && out.1 == old(self).result_spec(),
            old(self).phase_spec() is NotStarted ==> out.0@ == old(self).output(),
            old(self).phase_spec() is Done
                ==> out.0@ == Seq::<u8>::empty() && out.1 == Ok::<(), StreamError>(()),
    {
        let mut acc: Vec<u8> = Vec::new();
        let mut res: Result<(), StreamError> = Ok(());
        let mut done = self.is_done();
        proof {
            assert(old(self).delivered() + acc@ =~= old(self).delivered());
        }
        while !done
            invariant
                self.wf(),
                cap >= 1,
                done <==> self.phase_spec() is Done,
                self.output() == old(self).output(),
                self.result_spec() == old(self).result_spec(),
                self.delivered() == old(self).delivered() + acc@,
                done && !(old(self).phase_spec() is Done) ==> res == old(self).result_spec(),
                old(self).phase_spec() is Done ==> done && acc@ == Seq::<u8>::empty() && res
                    == Ok::<(), StreamError>(()),
            decreases self.undelivered().len() + live_weight(done),
        {
            let ghost pre = *self;
            let mut dest = DestBuf::new(cap);
            let ghost d0 = dest;
            let r = self.poll_read(&mut dest);
            res = r;
            let mut delivered_now = dest.take_filled();
            proof {
                assert(d0.filled() + pre.poll_delivery(&d0) =~= pre.poll_delivery(&d0));
            }
            acc.append(&mut delivered_now);
            done = self.is_done();
            proof {
                pre.lemma_state();
                self.lemma_state();
                assert(old(self).delivered() + acc@ =~= self.delivered());
                if !done {
                    assert(pre.pending().len() > 0);
                    assert(self.undelivered().len() < pre.undelivered().len());
                }
            }
        }
        proof {
            self.lemma_state();
            if !(old(self).phase_spec() is Done) {
                assert(old(self).delivered() + acc@ == old(self).output());
                old(self).lemma_state();
                assert(acc@ =~= old(self).output().skip(old(self).delivered().len() as int));
                if old(self).phase_spec() is NotStarted {
                    assert(old(self).output().skip(0) =~= old(self).output());
                }
            }
        }
        (acc, res)
    }
}

} // verus!
