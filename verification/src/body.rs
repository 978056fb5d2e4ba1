//! The streaming-body buffer: the transport delivers a body one chunk at
//! a time, while the consumer reads into buffers of its own sizes. The
//! buffer holds at most the undelivered remainder of one chunk — served
//! synchronously before any further chunk is asked for — so that no byte
//! is dropped and none is returned twice.

use vstd::prelude::*;
use vstd::math::min;

verus! {

/// The state between two reads: either nothing is held, or a suffix of
/// the most recent chunk still waits to be returned.
#[derive(Debug)]
pub struct BodyBuffer {
    chunk: Option<Vec<u8>>,
    pos: usize,
}

/// One read against the adapter, on the model level: held bytes are
/// served first, without touching the transport; otherwise the next
/// chunk — if one is left — is copied up to the buffer's size and its
/// remainder held; otherwise the read returns nothing. The result is
/// (bytes returned, bytes held afterwards, chunks left afterwards).
pub open spec fn spec_read_step(held: Seq<u8>, chunks: Seq<Seq<u8>>, b: int) -> (
    Seq<u8>,
    Seq<u8>,
    Seq<Seq<u8>>,
) {
    if held.len() > 0 {
        let n = min(b, held.len() as int);
        (held.take(n), held.skip(n), chunks)
    } else if chunks.len() == 0 {
        (Seq::empty(), Seq::empty(), chunks)
    } else {
        let n = min(b, chunks[0].len() as int);
        (chunks[0].take(n), chunks[0].skip(n), chunks.drop_first())
    }
}

/// What each read of a whole session returns, one entry per read size.
pub open spec fn spec_session_outputs(held: Seq<u8>, chunks: Seq<Seq<u8>>, reads: Seq<int>) -> Seq<
    Seq<u8>,
>
    decreases reads.len(),
{
    if reads.len() == 0 {
        Seq::empty()
    } else {
        let step = spec_read_step(held, chunks, reads[0]);
        seq![step.0] + spec_session_outputs(step.1, step.2, reads.drop_first())
    }
}

/// The (held bytes, chunks left) pair a session ends in.
pub open spec fn spec_session_final(held: Seq<u8>, chunks: Seq<Seq<u8>>, reads: Seq<int>) -> (
    Seq<u8>,
    Seq<Seq<u8>>,
)
    decreases reads.len(),
{
    if reads.len() == 0 {
        (held, chunks)
    } else {
        let step = spec_read_step(held, chunks, reads[0]);
        spec_session_final(step.1, step.2, reads.drop_first())
    }
}

/// One step neither drops nor invents bytes: what it returns, plus what
/// stays held, plus what the transport still has, is what there was.
pub proof fn lemma_step_conserves(held: Seq<u8>, chunks: Seq<Seq<u8>>, b: int)
    requires
        b >= 0,
    ensures
        ({
            let step = spec_read_step(held, chunks, b);
            step.0 + step.1 + step.2.flatten() == held + chunks.flatten()
        }),
{
    let step = spec_read_step(held, chunks, b);
    if held.len() > 0 {
        let n = min(b, held.len() as int);
        assert(held.take(n) + held.skip(n) =~= held);
        assert(step.0 + step.1 + step.2.flatten() =~= held + chunks.flatten());
    } else if chunks.len() == 0 {
        assert(step.0 + step.1 + step.2.flatten() =~= held + chunks.flatten());
    } else {
        let n = min(b, chunks[0].len() as int);
        assert(chunks[0].take(n) + chunks[0].skip(n) =~= chunks[0]);
        assert(chunks.flatten() == chunks[0] + chunks.drop_first().flatten());
        assert(step.0 + step.1 + step.2.flatten() =~= held + chunks.flatten());
    }
}

/// A session returns one (possibly empty) byte run per read.
proof fn lemma_session_outputs_len(held: Seq<u8>, chunks: Seq<Seq<u8>>, reads: Seq<int>)
    ensures
        spec_session_outputs(held, chunks, reads).len() == reads.len(),
    decreases reads.len(),
{
    if reads.len() > 0 {
        let step = spec_read_step(held, chunks, reads[0]);
        lemma_session_outputs_len(step.1, step.2, reads.drop_first());
    }
}

proof fn lemma_session_conserves(held: Seq<u8>, chunks: Seq<Seq<u8>>, reads: Seq<int>)
    requires
        forall|i: int| 0 <= i < reads.len() ==> reads[i] >= 0,
    ensures
        ({
            let fin = spec_session_final(held, chunks, reads);
            spec_session_outputs(held, chunks, reads).flatten() + fin.0 + fin.1.flatten() == held
                + chunks.flatten()
        }),
    decreases reads.len(),
{
    if reads.len() == 0 {
        assert(spec_session_outputs(held, chunks, reads).flatten() + held + chunks.flatten() =~=
            held + chunks.flatten());
    } else {
        let step = spec_read_step(held, chunks, reads[0]);
        let tail = spec_session_outputs(step.1, step.2, reads.drop_first());
        assert(forall|i: int|
            0 <= i < reads.drop_first().len() ==> reads.drop_first()[i] >= 0);
        lemma_session_conserves(step.1, step.2, reads.drop_first());
        lemma_step_conserves(held, chunks, reads[0]);
        let outs = spec_session_outputs(held, chunks, reads);
        assert(outs == seq![step.0] + tail);
        assert((seq![step.0] + tail).drop_first() =~= tail);
        assert(outs.flatten() == step.0 + tail.flatten());
        let fin = spec_session_final(held, chunks, reads);
        assert(tail.flatten() + fin.0 + fin.1.flatten() == step.1 + step.2.flatten());
        assert(outs.flatten() + fin.0 + fin.1.flatten() =~= step.0 + (tail.flatten() + fin.0
            + fin.1.flatten()));
        assert(step.0 + (step.1 + step.2.flatten()) =~= step.0 + step.1 + step.2.flatten());
    }
}

proof fn lemma_session_zero_read(held: Seq<u8>, chunks: Seq<Seq<u8>>, reads: Seq<int>, k: int)
    requires
        forall|i: int| 0 <= i < reads.len() ==> reads[i] >= 1,
        forall|i: int| 0 <= i < chunks.len() ==> chunks[i].len() > 0,
        0 <= k < reads.len(),
        spec_session_outputs(held, chunks, reads)[k].len() == 0,
    ensures
        spec_session_outputs(held, chunks, reads).take(k).flatten() == held + chunks.flatten(),
    decreases k,
{
    let step = spec_read_step(held, chunks, reads[0]);
    let outs = spec_session_outputs(held, chunks, reads);
    let tail = spec_session_outputs(step.1, step.2, reads.drop_first());
    lemma_session_outputs_len(held, chunks, reads);
    lemma_session_outputs_len(step.1, step.2, reads.drop_first());
    assert(outs == seq![step.0] + tail);
    assert(outs[0] == step.0);
    if k == 0 {
        // A read of at least one byte returns something whenever a byte
        // is held or a (nonempty) chunk is still to come.
        assert(held.len() == 0 && chunks.len() == 0);
        assert(outs.take(0) =~= Seq::<Seq<u8>>::empty());
        assert(outs.take(0).flatten() =~= held + chunks.flatten());
    } else {
        assert(forall|i: int|
            0 <= i < reads.drop_first().len() ==> reads.drop_first()[i] >= 1);
        assert(forall|i: int|
            0 <= i < step.2.len() ==> step.2[i].len() > 0);
        assert(forall|i: int| 1 <= i < outs.len() ==> outs[i] == tail[i - 1]);
        assert(outs[k] == tail[k - 1]);
        lemma_session_zero_read(step.1, step.2, reads.drop_first(), k - 1);
        lemma_step_conserves(held, chunks, reads[0]);
        assert(outs.take(k) =~= seq![step.0] + tail.take(k - 1));
        assert((seq![step.0] + tail.take(k - 1)).drop_first() =~= tail.take(k - 1));
        assert((seq![step.0] + tail.take(k - 1))[0] == step.0);
        assert(outs.take(k).flatten() == step.0 + tail.take(k - 1).flatten());
        assert(tail.take(k - 1).flatten() == step.1 + step.2.flatten());
        assert(step.0 + (step.1 + step.2.flatten()) =~= step.0 + step.1 + step.2.flatten());
        assert(outs.take(k).flatten() == held + chunks.flatten());
    }
}

/// Streaming round trip: for any chunking of the body by the transport
/// and any succession of (nonempty) read-buffer sizes, a session that
/// drains the adapter returns exactly the body's bytes, in order; and any
/// read that comes back empty does so only once every delivered byte has
/// already been returned.
pub proof fn lemma_streaming_round_trip(chunks: Seq<Seq<u8>>, reads: Seq<int>)
    requires
        forall|i: int| 0 <= i < reads.len() ==> reads[i] >= 1,
        forall|i: int| 0 <= i < chunks.len() ==> chunks[i].len() > 0,
    ensures
        spec_session_final(Seq::empty(), chunks, reads).0.len() == 0
            && spec_session_final(Seq::empty(), chunks, reads).1.len() == 0
            ==> spec_session_outputs(Seq::empty(), chunks, reads).flatten() == chunks.flatten(),
        forall|k: int|
            0 <= k < reads.len() && spec_session_outputs(Seq::empty(), chunks, reads)[k].len()
                == 0 ==> spec_session_outputs(Seq::empty(), chunks, reads).take(k).flatten()
                == chunks.flatten(),
{
    assert(forall|i: int| 0 <= i < reads.len() ==> reads[i] >= 0);
    lemma_session_conserves(Seq::empty(), chunks, reads);
    let fin = spec_session_final(Seq::empty(), chunks, reads);
    if fin.0.len() == 0 && fin.1.len() == 0 {
        assert(spec_session_outputs(Seq::empty(), chunks, reads).flatten() + fin.0
            + fin.1.flatten() =~= spec_session_outputs(Seq::empty(), chunks, reads).flatten());
        assert(Seq::empty() + chunks.flatten() =~= chunks.flatten());
    }
    assert forall|k: int|
        0 <= k < reads.len() && spec_session_outputs(Seq::empty(), chunks, reads)[k].len()
            == 0 implies spec_session_outputs(Seq::empty(), chunks, reads).take(k).flatten()
        == chunks.flatten() by {
        lemma_session_zero_read(Seq::empty(), chunks, reads, k);
        assert(Seq::empty() + chunks.flatten() =~= chunks.flatten());
    }
}

/// Copies `n` bytes of `src`, starting at `src_off`, over the first `n`
/// bytes of `buf`.
fn copy_into(buf: &mut Vec<u8>, src: &Vec<u8>, src_off: usize, n: usize)
    requires
        n <= old(buf)@.len(),
        src_off + n <= src@.len(),
    ensures
        final(buf)@.len() == old(buf)@.len(),
        final(buf)@.take(n as int) == src@.subrange(src_off as int, src_off + n),
        final(buf)@.skip(n as int) == old(buf)@.skip(n as int),
{
    let src_len = src.len();
    let mut i: usize = 0;
    while i < n
        invariant
            i <= n,
            n <= buf@.len(),
            buf@.len() == old(buf)@.len(),
            src_len == src@.len(),
            src_off + n <= src_len,
            forall|j: int| 0 <= j < i ==> buf@[j] == src@[src_off + j],
            forall|j: int| i <= j < buf@.len() ==> buf@[j] == old(buf)@[j],
        decreases n - i,
    {
        buf[i] = src[src_off + i];
        i += 1;
    }
    proof {
        assert(buf@.take(n as int) =~= src@.subrange(src_off as int, src_off + n));
        assert(buf@.skip(n as int) =~= old(buf)@.skip(n as int));
    }
}

impl BodyBuffer {
    /// Nothing is held unless a chunk suffix is, and a held suffix is
    /// never empty.
    pub closed spec fn wf(&self) -> bool {
        match self.chunk {
            None => self.pos == 0,
            Some(c) => self.pos < c@.len(),
        }
    }

    /// The bytes received from the transport but not yet returned.
    pub closed spec fn buffered(&self) -> Seq<u8> {
        match self.chunk {
            None => Seq::empty(),
            Some(c) => c@.skip(self.pos as int),
        }
    }

    /// A fresh buffer for one response: nothing held.
    pub fn new() -> (b: BodyBuffer)
        ensures
            b.wf(),
            b.buffered() == Seq::<u8>::empty(),
    {
        BodyBuffer { chunk: None, pos: 0 }
    }

    /// Whether a read can be served without asking the transport.
    pub fn has_buffered(&self) -> (r: bool)
        requires
            self.wf(),
        ensures
            r == (self.buffered().len() > 0),
    {
        match &self.chunk {
            Some(_) => true,
            None => false,
        }
    }

    /// Serves a read out of the held bytes alone: the first
    /// `min(|buf|, held)` of them are copied into `buf`'s prefix and no
    /// longer held. One session step, on the branch that needs no I/O.
    pub fn read_buffered(&mut self, buf: &mut Vec<u8>) -> (n: usize)
        requires
            old(self).wf(),
            old(self).buffered().len() > 0,
        ensures
            final(self).wf(),
            n == min(old(buf)@.len() as int, old(self).buffered().len() as int),
            final(buf)@.len() == old(buf)@.len(),
            final(buf)@.take(n as int) == old(self).buffered().take(n as int),
            final(buf)@.skip(n as int) == old(buf)@.skip(n as int),
            final(self).buffered() == old(self).buffered().skip(n as int),
            forall|cs: Seq<Seq<u8>>|
                spec_read_step(old(self).buffered(), cs, old(buf)@.len() as int) == (
                final(buf)@.take(n as int),
                final(self).buffered(),
                cs,
                ),
    {
        let chunk = self.chunk.take();
        match chunk {
            Some(c) => {
                let avail = c.len() - self.pos;
                let n = if buf.len() < avail {
                    buf.len()
                } else {
                    avail
                };
                copy_into(buf, &c, self.pos, n);
                proof {
                    assert(buf@.take(n as int) =~= c@.skip(self.pos as int).take(n as int));
                }
                if n < avail {
                    let newpos = self.pos + n;
                    self.pos = newpos;
                    self.chunk = Some(c);
                    proof {
                        assert(self.buffered() =~= old(self).buffered().skip(n as int));
                    }
                } else {
                    self.pos = 0;
                    proof {
                        assert(self.buffered() =~= old(self).buffered().skip(n as int));
                    }
                }
                n
            },
            None => {
                proof {
                    assert(false);
                }
                0
            },
        }
    }

    /// Takes the next chunk the transport delivered while nothing was
    /// held: its first `min(|buf|, |chunk|)` bytes go into `buf`'s
    /// prefix, the rest is held. One session step, on the branch that
    /// consumes a chunk.
    pub fn accept_chunk(&mut self, buf: &mut Vec<u8>, chunk: Vec<u8>) -> (n: usize)
        requires
            old(self).wf(),
            old(self).buffered().len() == 0,
        ensures
            final(self).wf(),
            n == min(old(buf)@.len() as int, chunk@.len() as int),
            final(buf)@.len() == old(buf)@.len(),
            final(buf)@.take(n as int) == chunk@.take(n as int),
            final(buf)@.skip(n as int) == old(buf)@.skip(n as int),
            final(self).buffered() == chunk@.skip(n as int),
            forall|rest: Seq<Seq<u8>>|
                spec_read_step(Seq::empty(), seq![chunk@] + rest, old(buf)@.len() as int) == (
                final(buf)@.take(n as int),
                final(self).buffered(),
                rest,
                ),
    {
        let n = if buf.len() < chunk.len() {
            buf.len()
        } else {
            chunk.len()
        };
        copy_into(buf, &chunk, 0, n);
        proof {
            assert(buf@.take(n as int) =~= chunk@.take(n as int));
        }
        if n < chunk.len() {
            self.pos = n;
            self.chunk = Some(chunk);
        } else {
            self.pos = 0;
            self.chunk = None;
            proof {
                assert(chunk@.skip(n as int) =~= Seq::<u8>::empty());
            }
        }
        proof {
            assert forall|rest: Seq<Seq<u8>>|
                spec_read_step(Seq::empty(), seq![chunk@] + rest, old(buf)@.len() as int) == (
                buf@.take(n as int),
                self.buffered(),
                rest,
                ) by {
                let cs = seq![chunk@] + rest;
                assert(cs[0] == chunk@);
                assert(cs.drop_first() =~= rest);
            }
        }
        n
    }
}

} // verus!
