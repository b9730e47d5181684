//! What a copy leaves in the records of its source and its sink, for every
//! way it can end.

use vstd::prelude::*;
use crate::batching::{
    batches, final_flush, fits_transfer, flushed, lemma_batches_are_bounded, lemma_batches_are_full,
    lemma_flushed_keeps_bytes, lemma_streamed_then_held, pending, streamed, BLOCK_SIZE,
};
use crate::stream::{ReadRecord, WriteRecord};

verus! {

/// Why a copy stopped early: the failure of the source or of the sink, as it
/// was reported.
#[derive(Debug, PartialEq, Eq)]
pub enum CopyError<R, W> {
    /// A read failed.
    Read(R),
    /// A write failed.
    Write(W),
}

/// The bytes that one read delivered.
pub open spec fn payload<R>(read: ReadRecord<R>) -> Seq<u8> {
    match read.outcome {
        Ok(bytes) => bytes,
        Err(_) => Seq::empty(),
    }
}

/// The bytes that each read delivered; none for a read that failed.
pub open spec fn payloads<R>(reads: Seq<ReadRecord<R>>) -> Seq<Seq<u8>> {
    Seq::new(reads.len(), |i: int| payload(reads[i]))
}

/// The byte strings that were handed to the sink, whatever came of them.
pub open spec fn offered<W>(writes: Seq<WriteRecord<W>>) -> Seq<Seq<u8>> {
    Seq::new(writes.len(), |i: int| writes[i].data)
}

/// The byte strings that the sink took: those whose write did not fail.
pub open spec fn kept<W>(writes: Seq<WriteRecord<W>>) -> Seq<Seq<u8>>
    decreases writes.len(),
{
    if writes.len() == 0 {
        Seq::empty()
    } else if writes.last().failure is None {
        kept(writes.drop_last()).push(writes.last().data)
    } else {
        kept(writes.drop_last())
    }
}

/// One more read adds its bytes to those delivered before.
pub proof fn lemma_payloads_push<R>(reads: Seq<ReadRecord<R>>, read: ReadRecord<R>)
    ensures
        payloads(reads.push(read)) == payloads(reads).push(payload(read)),
        payloads(reads.push(read)).flatten() == payloads(reads).flatten() + payload(read),
{
    assert(payloads(reads.push(read)) =~= payloads(reads).push(payload(read)));
    payloads(reads).lemma_flatten_push(payload(read));
}

/// No read failed.
pub open spec fn all_delivered<R>(reads: Seq<ReadRecord<R>>) -> bool {
    forall|i: int| 0 <= i < reads.len() ==> (#[trigger] reads[i]).outcome is Ok
}

/// Every read was given a buffer of `BLOCK_SIZE` bytes.
pub open spec fn all_block_sized<R>(reads: Seq<ReadRecord<R>>) -> bool {
    forall|i: int| 0 <= i < reads.len() ==> (#[trigger] reads[i]).room == BLOCK_SIZE
}

/// No write failed.
pub open spec fn all_accepted<W>(writes: Seq<WriteRecord<W>>) -> bool {
    forall|i: int| 0 <= i < writes.len() ==> (#[trigger] writes[i]).failure is None
}

/// The part of a record that was added since it read `before`.
pub open spec fn since<A>(before: Seq<A>, now: Seq<A>) -> Seq<A> {
    now.skip(before.len() as int)
}

/// The last read found the end of the source: it delivered nothing.
pub open spec fn source_ended<R>(reads: Seq<ReadRecord<R>>) -> bool {
    reads.len() > 0 && reads.last().outcome is Ok && payload(reads.last()).len() == 0
}

/// The reads and writes of one copy, and its result, belong together.
///
/// A copy reads into a buffer of `BLOCK_SIZE` bytes, time after time, until
/// a read delivers nothing or a call fails. It succeeds where the source
/// ended and every write went through. It reports the failure of its last
/// read, or of its last write, where that is what stopped it. Up to that
/// point its writes are those that the buffering policy derives from the
/// chunks read, and none failed.
pub open spec fn copy_trace<R, W>(
    reads: Seq<ReadRecord<R>>,
    writes: Seq<WriteRecord<W>>,
    unbuffered: bool,
    result: Result<(), CopyError<R, W>>,
) -> bool {
    let chunks = payloads(reads.drop_last());
    &&& reads.len() > 0
    &&& all_block_sized(reads)
    &&& all_delivered(reads.drop_last())
    &&& fits_transfer(chunks)
    &&& match result {
        Ok(_) => {
            &&& source_ended(reads)
            &&& all_accepted(writes)
            &&& offered(writes) == flushed(chunks, unbuffered)
        },
        Err(CopyError::Read(e)) => {
            &&& reads.last().outcome == Err::<Seq<u8>, R>(e)
            &&& all_accepted(writes)
            &&& offered(writes) == streamed(chunks, unbuffered)
        },
        Err(CopyError::Write(e)) => {
            &&& reads.last().outcome is Ok
            &&& payload(reads.last()).len() <= BLOCK_SIZE
            &&& writes.len() > 0
            &&& writes.last().failure == Some(e)
            &&& all_accepted(writes.drop_last())
            &&& if source_ended(reads) {
                &&& final_flush(chunks, unbuffered).len() > 0
                &&& offered(writes) == flushed(chunks, unbuffered)
            } else {
                &&& offered(writes) == streamed(chunks.push(payload(reads.last())), unbuffered)
                &&& offered(writes).drop_last() == streamed(chunks, unbuffered)
            }
        },
    }
}

/// Where no write failed, the sink took every byte string it was offered.
pub proof fn lemma_kept_all<W>(writes: Seq<WriteRecord<W>>)
    requires
        all_accepted(writes),
    ensures
        kept(writes) == offered(writes),
    decreases writes.len(),
{
    if writes.len() == 0 {
        assert(kept(writes) =~= offered(writes));
    } else {
        lemma_kept_all(writes.drop_last());
        assert(offered(writes) =~= offered(writes.drop_last()).push(writes.last().data));
    }
}

/// What the sink took in one stretch of writes and then in another is what
/// it took in the first, followed by what it took in the second.
pub proof fn lemma_kept_concat<W>(
    first: Seq<WriteRecord<W>>,
    second: Seq<WriteRecord<W>>,
)
    ensures
        kept(first + second) == kept(first) + kept(second),
    decreases second.len(),
{
    if second.len() == 0 {
        assert(first + second =~= first);
        assert(kept(first) + kept(second) =~= kept(first));
    } else {
        lemma_kept_concat(first, second.drop_last());
        assert((first + second).drop_last() =~= first + second.drop_last());
        assert(kept(first + second) =~= kept(first) + kept(second));
    }
}

/// A copy that succeeds neither loses nor repeats a byte, in either mode:
/// the bytes that the sink took are the bytes that the source delivered, in
/// order.
pub proof fn lemma_copy_keeps_bytes<R, W>(
    reads: Seq<ReadRecord<R>>,
    writes: Seq<WriteRecord<W>>,
    unbuffered: bool,
    result: Result<(), CopyError<R, W>>,
)
    requires
        copy_trace(reads, writes, unbuffered, result),
        result is Ok,
    ensures
        kept(writes).flatten() == payloads(reads).flatten(),
{
    let chunks = payloads(reads.drop_last());
    lemma_kept_all(writes);
    lemma_flushed_keeps_bytes(chunks, unbuffered);
    assert(reads =~= reads.drop_last().push(reads.last()));
    lemma_payloads_push(reads.drop_last(), reads.last());
    assert(chunks.flatten() + Seq::<u8>::empty() =~= chunks.flatten());
}

/// However a copy ends, the bytes that it handed to its sink are the front
/// of the bytes that its source delivered.
pub proof fn lemma_offered_from_the_front<R, W>(
    reads: Seq<ReadRecord<R>>,
    writes: Seq<WriteRecord<W>>,
    unbuffered: bool,
    result: Result<(), CopyError<R, W>>,
)
    requires
        copy_trace(reads, writes, unbuffered, result),
    ensures
        offered(writes).flatten().is_prefix_of(payloads(reads).flatten()),
{
    let chunks = payloads(reads.drop_last());
    let last = payload(reads.last());
    assert(reads =~= reads.drop_last().push(reads.last()));
    lemma_payloads_push(reads.drop_last(), reads.last());
    let all = payloads(reads).flatten();
    assert(all == chunks.flatten() + last);
    if offered(writes) == flushed(chunks, unbuffered) {
        lemma_flushed_keeps_bytes(chunks, unbuffered);
        assert(offered(writes).flatten() =~= all.take(chunks.flatten().len() as int));
    } else if offered(writes) == streamed(chunks, unbuffered) {
        lemma_streamed_then_held(chunks, unbuffered);
        assert(offered(writes).flatten() =~= all.take(offered(writes).flatten().len() as int));
    } else {
        lemma_streamed_then_held(chunks.push(last), unbuffered);
        chunks.lemma_flatten_push(last);
        assert(offered(writes).flatten() =~= all.take(offered(writes).flatten().len() as int));
    }
}

/// The chunks that hold at least one byte, in order.
pub open spec fn nonempty(chunks: Seq<Seq<u8>>) -> Seq<Seq<u8>>
    decreases chunks.len(),
{
    if chunks.len() == 0 {
        Seq::empty()
    } else if chunks.last().len() > 0 {
        nonempty(chunks.drop_last()).push(chunks.last())
    } else {
        nonempty(chunks.drop_last())
    }
}

/// Chunks that all hold bytes are all kept.
proof fn lemma_nonempty_all(chunks: Seq<Seq<u8>>)
    requires
        fits_transfer(chunks),
    ensures
        nonempty(chunks) == chunks,
    decreases chunks.len(),
{
    if chunks.len() == 0 {
        assert(nonempty(chunks) =~= chunks);
    } else {
        let front = chunks.drop_last();
        assert forall|i: int| 0 <= i < front.len() implies 0 < (#[trigger] front[i]).len()
            <= BLOCK_SIZE by {
            assert(front[i] == chunks[i]);
        }
        lemma_nonempty_all(front);
        assert(chunks[chunks.len() - 1].len() > 0);
        assert(chunks =~= front.push(chunks.last()));
    }
}

/// An unbuffered copy makes one write for each read that delivered bytes,
/// with those bytes, and no other write, however it ends.
pub proof fn lemma_unbuffered_write_per_read<R, W>(
    reads: Seq<ReadRecord<R>>,
    writes: Seq<WriteRecord<W>>,
    result: Result<(), CopyError<R, W>>,
)
    requires
        copy_trace(reads, writes, true, result),
    ensures
        offered(writes) == nonempty(payloads(reads)),
        result is Ok ==> writes.len() == reads.len() - 1,
{
    let chunks = payloads(reads.drop_last());
    let all = payloads(reads);
    assert(all.drop_last() =~= chunks);
    assert(all.last() == payload(reads.last()));
    lemma_nonempty_all(chunks);
    assert(nonempty(all) == if all.last().len() > 0 {
        chunks.push(all.last())
    } else {
        chunks
    });
    assert(flushed(chunks, true) =~= chunks);
    assert(offered(writes).len() == writes.len());
}

/// A copy succeeds if and only if none of its reads and none of its writes
/// failed.
pub proof fn lemma_success_without_failure<R, W>(
    reads: Seq<ReadRecord<R>>,
    writes: Seq<WriteRecord<W>>,
    unbuffered: bool,
    result: Result<(), CopyError<R, W>>,
)
    requires
        copy_trace(reads, writes, unbuffered, result),
    ensures
        result is Ok <==> all_delivered(reads) && all_accepted(writes),
        result matches Err(CopyError::Read(e)) ==> reads.last().outcome == Err::<Seq<u8>, R>(e)
            && all_accepted(writes),
        result matches Err(CopyError::Write(e)) ==> writes.last().failure == Some(e)
            && all_delivered(reads),
{
    assert(reads =~= reads.drop_last().push(reads.last()));
    match result {
        Ok(_) => {
            assert forall|i: int| 0 <= i < reads.len() implies (#[trigger] reads[i]).outcome
                is Ok by {
                if i < reads.len() - 1 {
                    assert(reads.drop_last()[i] == reads[i]);
                }
            }
        },
        Err(CopyError::Read(e)) => {
            assert(reads[reads.len() - 1].outcome is Err);
        },
        Err(CopyError::Write(e)) => {
            assert(writes[writes.len() - 1].failure is Some);
            assert forall|i: int| 0 <= i < reads.len() implies (#[trigger] reads[i]).outcome
                is Ok by {
                if i < reads.len() - 1 {
                    assert(reads.drop_last()[i] == reads[i]);
                }
            }
        },
    }
}

/// A batching copy writes only when its accumulation buffer has reached
/// `BLOCK_SIZE` or the source has ended: each of its writes carries at least
/// `BLOCK_SIZE` bytes, but for one made last, after the source had ended,
/// which may carry fewer and is not empty. No write carries two blocks'
/// worth. Where the copy succeeds, the writes taken together carry the bytes
/// that were read.
pub proof fn lemma_buffered_writes_full_or_last<R, W>(
    reads: Seq<ReadRecord<R>>,
    writes: Seq<WriteRecord<W>>,
    result: Result<(), CopyError<R, W>>,
)
    requires
        copy_trace(reads, writes, false, result),
    ensures
        forall|i: int|
            0 <= i < writes.len() ==> {
                ||| (#[trigger] writes[i]).data.len() >= BLOCK_SIZE
                ||| {
                    &&& i == writes.len() - 1
                    &&& source_ended(reads)
                    &&& writes[i].data.len() > 0
                }
            },
        forall|i: int| 0 <= i < writes.len() ==> (#[trigger] writes[i]).data.len() < 2 * BLOCK_SIZE,
        result is Ok ==> offered(writes).flatten() == payloads(reads).flatten(),
{
    let chunks = payloads(reads.drop_last());
    let data = offered(writes);
    assert(data.len() == writes.len());
    let read_on = reads.last().outcome matches Ok(bytes) && bytes.len() > 0;
    let taken = if read_on {
        chunks.push(payload(reads.last()))
    } else {
        chunks
    };
    assert(fits_transfer(taken));
    lemma_batches_are_full(taken);
    lemma_batches_are_bounded(taken);
    let ended = source_ended(reads);
    match result {
        Ok(_) => {
            assert(ended && !read_on);
        },
        Err(CopyError::Read(e)) => {
            assert(!ended && !read_on);
            assert(streamed(chunks, false) == batches(chunks));
        },
        Err(CopyError::Write(e)) => {
            assert(streamed(taken, false) == batches(taken));
        },
    }
    assert(data == if ended {
        flushed(taken, false)
    } else {
        batches(taken)
    });
    assert forall|i: int| 0 <= i < writes.len() implies {
        &&& {
            ||| (#[trigger] writes[i]).data.len() >= BLOCK_SIZE
            ||| i == writes.len() - 1 && ended && writes[i].data.len() > 0
        }
        &&& writes[i].data.len() < 2 * BLOCK_SIZE
    } by {
        assert(data[i] == writes[i].data);
        if i < batches(taken).len() {
            assert(flushed(taken, false)[i] == batches(taken)[i]);
        } else {
            let rest = final_flush(taken, false);
            assert(flushed(taken, false).len() == batches(taken).len() + rest.len());
            assert(rest =~= seq![pending(taken)]);
            assert(flushed(taken, false)[i] == rest[i - batches(taken).len()]);
        }
    }
    if result is Ok {
        lemma_copy_keeps_bytes(reads, writes, false, result);
        lemma_kept_all(writes);
    }
}

/// A source that ends before it delivers anything is copied without a
/// write and without an error.
pub proof fn lemma_empty_source<R, W>(
    reads: Seq<ReadRecord<R>>,
    writes: Seq<WriteRecord<W>>,
    unbuffered: bool,
    result: Result<(), CopyError<R, W>>,
)
    requires
        copy_trace(reads, writes, unbuffered, result),
        reads[0].outcome is Ok,
        payload(reads[0]).len() == 0,
    ensures
        result is Ok,
        reads.len() == 1,
        writes.len() == 0,
{
    let chunks = payloads(reads.drop_last());
    if reads.len() > 1 {
        assert(chunks[0] == payload(reads.drop_last()[0]));
        assert(chunks[0].len() > 0);
    }
    assert(chunks =~= Seq::<Seq<u8>>::empty());
    assert(flushed(chunks, unbuffered) =~= Seq::<Seq<u8>>::empty());
    assert(offered(writes).len() == writes.len());
}

/// Copies that succeed one after the other into one sink leave in it the
/// bytes of the first source, then those of the second, and so on, with
/// nothing in between. Here `reads[i]` and `writes[i]` are the records of
/// the copy of the source in place `i`.
pub proof fn lemma_copies_in_order<R, W>(
    reads: Seq<Seq<ReadRecord<R>>>,
    writes: Seq<Seq<WriteRecord<W>>>,
    unbuffered: bool,
)
    requires
        reads.len() == writes.len(),
        forall|i: int|
            0 <= i < reads.len() ==> #[trigger] copy_trace(
                reads[i],
                writes[i],
                unbuffered,
                Ok::<(), CopyError<R, W>>(()),
            ),
    ensures
        kept(writes.flatten()).flatten() == payloads(reads.flatten()).flatten(),
    decreases reads.len(),
{
    if reads.len() == 0 {
        assert(writes.flatten() =~= Seq::<WriteRecord<W>>::empty());
        assert(reads.flatten() =~= Seq::<ReadRecord<R>>::empty());
        assert(payloads(reads.flatten()) =~= Seq::<Seq<u8>>::empty());
        assert(kept(writes.flatten()).flatten() =~= payloads(reads.flatten()).flatten());
    } else {
        let earlier_reads = reads.drop_last();
        let earlier_writes = writes.drop_last();
        assert forall|i: int| 0 <= i < earlier_reads.len() implies #[trigger] copy_trace(
            earlier_reads[i],
            earlier_writes[i],
            unbuffered,
            Ok::<(), CopyError<R, W>>(()),
        ) by {
            assert(copy_trace(reads[i], writes[i], unbuffered, Ok::<(), CopyError<R, W>>(())));
        }
        lemma_copies_in_order(earlier_reads, earlier_writes, unbuffered);
        let last = reads.len() - 1;
        assert(copy_trace(reads[last], writes[last], unbuffered, Ok::<(), CopyError<R, W>>(())));
        lemma_copy_keeps_bytes(
            reads.last(),
            writes.last(),
            unbuffered,
            Ok::<(), CopyError<R, W>>(()),
        );
        assert(reads =~= earlier_reads.push(reads.last()));
        assert(writes =~= earlier_writes.push(writes.last()));
        earlier_reads.lemma_flatten_push(reads.last());
        earlier_writes.lemma_flatten_push(writes.last());
        lemma_kept_concat(earlier_writes.flatten(), writes.last());
        vstd::seq_lib::lemma_flatten_concat(kept(earlier_writes.flatten()), kept(writes.last()));
        assert(payloads(earlier_reads.flatten() + reads.last()) =~= payloads(
            earlier_reads.flatten(),
        ) + payloads(reads.last()));
        vstd::seq_lib::lemma_flatten_concat(
            payloads(earlier_reads.flatten()),
            payloads(reads.last()),
        );
    }
}

} // verus!
