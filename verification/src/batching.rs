//! The buffering policy as mathematics: which writes follow from a sequence
//! of reads, and what is still held back.

use vstd::prelude::*;

verus! {

/// Capacity of the transfer buffer, and the fill at which the accumulation
/// buffer is written out.
pub const BLOCK_SIZE: usize = 512;

/// What a copy does after a read, as the buffering policy decides it.
pub enum Decision {
    /// Nothing is due: read again.
    ReadMore,
    /// Write these bytes, then read again.
    WriteThenRead(Seq<u8>),
    /// The source has ended: write these bytes, then stop.
    WriteThenStop(Seq<u8>),
    /// The source has ended and nothing is held back: stop.
    Stop,
}

impl Decision {
    /// The write that the decision asks for, if it asks for one.
    pub open spec fn due(self) -> Seq<Seq<u8>> {
        match self {
            Decision::WriteThenRead(bytes) => seq![bytes],
            Decision::WriteThenStop(bytes) => seq![bytes],
            _ => Seq::empty(),
        }
    }

    /// Whether the decision ends the copy.
    pub open spec fn stops(self) -> bool {
        self is WriteThenStop || self is Stop
    }
}

/// The decision after a read that delivered `chunk`, with `held` in the
/// accumulation buffer. An empty chunk is the end of the source.
pub open spec fn decide(unbuffered: bool, held: Seq<u8>, chunk: Seq<u8>) -> Decision {
    if chunk.len() == 0 {
        if !unbuffered && held.len() > 0 {
            Decision::WriteThenStop(held)
        } else {
            Decision::Stop
        }
    } else if unbuffered {
        Decision::WriteThenRead(chunk)
    } else if (held + chunk).len() >= BLOCK_SIZE {
        Decision::WriteThenRead(held + chunk)
    } else {
        Decision::ReadMore
    }
}

/// The accumulation buffer after that decision: the bytes gathered so far
/// while they are fewer than `BLOCK_SIZE` and the source goes on, and
/// nothing otherwise.
pub open spec fn held_after(unbuffered: bool, held: Seq<u8>, chunk: Seq<u8>) -> Seq<u8> {
    if unbuffered {
        held
    } else if chunk.len() == 0 || (held + chunk).len() >= BLOCK_SIZE {
        Seq::empty()
    } else {
        held + chunk
    }
}

/// Every chunk holds at least one byte and fits the transfer buffer.
pub open spec fn fits_transfer(chunks: Seq<Seq<u8>>) -> bool {
    forall|i: int| 0 <= i < chunks.len() ==> 0 < (#[trigger] chunks[i]).len() <= BLOCK_SIZE
}

/// The accumulation buffer of a batching copy once `chunks` have been read.
pub open spec fn pending(chunks: Seq<Seq<u8>>) -> Seq<u8>
    decreases chunks.len(),
{
    if chunks.len() == 0 {
        Seq::empty()
    } else {
        let held = pending(chunks.drop_last()) + chunks.last();
        if held.len() >= BLOCK_SIZE {
            Seq::empty()
        } else {
            held
        }
    }
}

/// The writes that a batching copy has made once `chunks` have been read:
/// one each time the accumulation buffer reached `BLOCK_SIZE`.
pub open spec fn batches(chunks: Seq<Seq<u8>>) -> Seq<Seq<u8>>
    decreases chunks.len(),
{
    if chunks.len() == 0 {
        Seq::empty()
    } else {
        let held = pending(chunks.drop_last()) + chunks.last();
        if held.len() >= BLOCK_SIZE {
            batches(chunks.drop_last()).push(held)
        } else {
            batches(chunks.drop_last())
        }
    }
}

/// The writes made while the source still delivers: each chunk by itself
/// when unbuffered, the full blocks otherwise.
pub open spec fn streamed(chunks: Seq<Seq<u8>>, unbuffered: bool) -> Seq<Seq<u8>> {
    if unbuffered {
        chunks
    } else {
        batches(chunks)
    }
}

/// What the end of the stream adds: the rest of the accumulation buffer, if
/// it holds anything.
pub open spec fn final_flush(chunks: Seq<Seq<u8>>, unbuffered: bool) -> Seq<Seq<u8>> {
    if !unbuffered && pending(chunks).len() > 0 {
        seq![pending(chunks)]
    } else {
        Seq::empty()
    }
}

/// All writes of a copy that read `chunks` and then met the end of the
/// stream.
pub open spec fn flushed(chunks: Seq<Seq<u8>>, unbuffered: bool) -> Seq<Seq<u8>> {
    streamed(chunks, unbuffered) + final_flush(chunks, unbuffered)
}

/// The accumulation buffer once `chunks` have been read: always empty when
/// unbuffered.
pub open spec fn held(chunks: Seq<Seq<u8>>, unbuffered: bool) -> Seq<u8> {
    if unbuffered {
        Seq::empty()
    } else {
        pending(chunks)
    }
}

/// One more read that delivered bytes: the decision taken on it adds its
/// write, if it asks for one, to those made so far, leaves the accumulation
/// buffer as the policy has it, and does not end the copy.
pub proof fn lemma_decision_on_chunk(chunks: Seq<Seq<u8>>, chunk: Seq<u8>, unbuffered: bool)
    requires
        chunk.len() > 0,
    ensures
        !decide(unbuffered, held(chunks, unbuffered), chunk).stops(),
        streamed(chunks.push(chunk), unbuffered) == streamed(chunks, unbuffered) + decide(
            unbuffered,
            held(chunks, unbuffered),
            chunk,
        ).due(),
        held(chunks.push(chunk), unbuffered) == held_after(
            unbuffered,
            held(chunks, unbuffered),
            chunk,
        ),
{
    let more = chunks.push(chunk);
    assert(more.drop_last() =~= chunks);
    assert(more.last() == chunk);
    let decision = decide(unbuffered, held(chunks, unbuffered), chunk);
    assert(streamed(more, unbuffered) =~= streamed(chunks, unbuffered) + decision.due());
}

/// The end of the source: the decision taken on it ends the copy and adds
/// the final write, if one is due, and the accumulation buffer is empty
/// after it.
pub proof fn lemma_decision_at_end(chunks: Seq<Seq<u8>>, unbuffered: bool)
    ensures
        decide(unbuffered, held(chunks, unbuffered), Seq::empty()).stops(),
        flushed(chunks, unbuffered) == streamed(chunks, unbuffered) + decide(
            unbuffered,
            held(chunks, unbuffered),
            Seq::empty(),
        ).due(),
        held_after(unbuffered, held(chunks, unbuffered), Seq::empty()) == Seq::<u8>::empty(),
{
    let decision = decide(unbuffered, held(chunks, unbuffered), Seq::empty());
    assert(final_flush(chunks, unbuffered) =~= decision.due());
}

/// A batching copy neither loses nor repeats a byte: what was written and
/// what is still held make up what was read.
pub proof fn lemma_batches_then_pending(chunks: Seq<Seq<u8>>)
    ensures
        batches(chunks).flatten() + pending(chunks) == chunks.flatten(),
    decreases chunks.len(),
{
    if chunks.len() == 0 {
        assert(batches(chunks).flatten() + pending(chunks) =~= chunks.flatten());
    } else {
        let front = chunks.drop_last();
        let held = pending(front) + chunks.last();
        lemma_batches_then_pending(front);
        assert(chunks == front.push(chunks.last()));
        front.lemma_flatten_push(chunks.last());
        if held.len() >= BLOCK_SIZE {
            batches(front).lemma_flatten_push(held);
            assert(batches(chunks).flatten() + pending(chunks) =~= batches(front).flatten()
                + pending(front) + chunks.last());
        } else {
            assert(batches(chunks).flatten() + pending(chunks) =~= batches(front).flatten()
                + pending(front) + chunks.last());
        }
    }
}

/// While the source still delivers, the writes carry the front of the bytes
/// that were read, and the accumulation buffer the rest.
pub proof fn lemma_streamed_then_held(chunks: Seq<Seq<u8>>, unbuffered: bool)
    ensures
        streamed(chunks, unbuffered).flatten() + held(chunks, unbuffered) == chunks.flatten(),
{
    if unbuffered {
        assert(chunks.flatten() + Seq::<u8>::empty() =~= chunks.flatten());
    } else {
        lemma_batches_then_pending(chunks);
    }
}

/// Whatever the mode, the writes of a finished copy carry the bytes that
/// were read, all of them, once, in order.
pub proof fn lemma_flushed_keeps_bytes(chunks: Seq<Seq<u8>>, unbuffered: bool)
    ensures
        flushed(chunks, unbuffered).flatten() == chunks.flatten(),
{
    if unbuffered {
        assert(flushed(chunks, unbuffered) =~= chunks);
    } else {
        lemma_batches_then_pending(chunks);
        if pending(chunks).len() > 0 {
            assert(flushed(chunks, unbuffered) =~= batches(chunks).push(pending(chunks)));
            batches(chunks).lemma_flatten_push(pending(chunks));
        } else {
            assert(flushed(chunks, unbuffered) =~= batches(chunks));
            assert(batches(chunks).flatten() + pending(chunks) =~= batches(chunks).flatten());
        }
    }
}

/// A batching copy writes only when its accumulation buffer has reached
/// `BLOCK_SIZE`: every write before the end of the stream carries at least
/// that many bytes, and what is held back is less than that.
pub proof fn lemma_batches_are_full(chunks: Seq<Seq<u8>>)
    ensures
        pending(chunks).len() < BLOCK_SIZE,
        forall|i: int| 0 <= i < batches(chunks).len() ==> (#[trigger] batches(chunks)[i]).len()
            >= BLOCK_SIZE,
    decreases chunks.len(),
{
    if chunks.len() > 0 {
        let front = chunks.drop_last();
        lemma_batches_are_full(front);
        assert forall|i: int| 0 <= i < batches(chunks).len() implies (#[trigger] batches(
            chunks,
        )[i]).len() >= BLOCK_SIZE by {
            if i < batches(front).len() {
                assert(batches(chunks)[i] == batches(front)[i]);
            }
        }
    }
}

/// Fed by reads that fit the transfer buffer, a batching copy never writes
/// two blocks' worth at once.
pub proof fn lemma_batches_are_bounded(chunks: Seq<Seq<u8>>)
    requires
        fits_transfer(chunks),
    ensures
        forall|i: int| 0 <= i < batches(chunks).len() ==> (#[trigger] batches(chunks)[i]).len() < 2
            * BLOCK_SIZE,
    decreases chunks.len(),
{
    if chunks.len() > 0 {
        let front = chunks.drop_last();
        assert forall|i: int| 0 <= i < front.len() implies 0 < (#[trigger] front[i]).len()
            <= BLOCK_SIZE by {
            assert(front[i] == chunks[i]);
        }
        lemma_batches_are_full(front);
        lemma_batches_are_bounded(front);
        assert(0 < chunks[chunks.len() - 1].len() <= BLOCK_SIZE);
        assert forall|i: int| 0 <= i < batches(chunks).len() implies (#[trigger] batches(
            chunks,
        )[i]).len() < 2 * BLOCK_SIZE by {
            if i < batches(front).len() {
                assert(batches(chunks)[i] == batches(front)[i]);
            }
        }
    }
}

/// The writes of a finished batching copy: full blocks, and after them at
/// most one shorter write, which is not empty.
pub proof fn lemma_flushed_shape(chunks: Seq<Seq<u8>>)
    ensures
        forall|i: int|
            0 <= i < flushed(chunks, false).len() ==> {
                ||| (#[trigger] flushed(chunks, false)[i]).len() >= BLOCK_SIZE
                ||| i == flushed(chunks, false).len() - 1 && flushed(chunks, false)[i].len() > 0
            },
{
    lemma_batches_are_full(chunks);
}

} // verus!
