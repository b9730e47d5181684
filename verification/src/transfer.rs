//! The copy routine.

use vstd::prelude::*;
use vstd::slice::slice_subrange;
use crate::batching::{
    decide, final_flush, fits_transfer, flushed, held, lemma_decision_at_end,
    lemma_decision_on_chunk, pending, streamed, BLOCK_SIZE,
};
use crate::copier::{Action, StreamCopier};
use crate::stream::{ByteSink, ByteSource, ReadRecord, WriteRecord};
use crate::trace::{
    all_accepted, all_block_sized, all_delivered, copy_trace, kept, lemma_copy_keeps_bytes, offered,
    payloads, since, CopyError,
};

verus! {

/// Copies `reader` to `writer` until the reader reports its end.
///
/// Reads take up to `BLOCK_SIZE` bytes, and a `StreamCopier` decides what
/// follows each. With `unbuffered`, each read that delivered bytes is
/// written at once. Otherwise reads gather in an accumulation buffer, which
/// is written and emptied whenever it holds `BLOCK_SIZE` bytes or more, and
/// once more at the end if anything is left in it. The first read or write
/// that fails ends the copy, and its error is returned.
pub fn copy_reader<R: ByteSource, W: ByteSink>(
    reader: &mut R,
    writer: &mut W,
    unbuffered: bool,
) -> (result: Result<(), CopyError<R::Error, W::Error>>)
    ensures
        final(reader).setup() == old(reader).setup(),
        final(writer).setup() == old(writer).setup(),
        old(reader).reads().is_prefix_of(final(reader).reads()),
        old(writer).writes().is_prefix_of(final(writer).writes()),
        copy_trace(
            since(old(reader).reads(), final(reader).reads()),
            since(old(writer).writes(), final(writer).writes()),
            unbuffered,
            result,
        ),
        result is Ok ==> kept(since(old(writer).writes(), final(writer).writes())).flatten()
            == payloads(since(old(reader).reads(), final(reader).reads())).flatten(),
{
    let mut buf = [0u8; BLOCK_SIZE];
    let mut copier = StreamCopier::new(unbuffered);
    let ghost reads0 = reader.reads();
    let ghost writes0 = writer.writes();
    let ghost mut chunks = Seq::<Seq<u8>>::empty();
    proof {
        assert(reads0 + delivered::<R::Error>(chunks) =~= reads0);
        assert(writes0 + accepted::<W::Error>(streamed(chunks, unbuffered)) =~= writes0);
    }
    loop
        invariant
            reader.setup() == old(reader).setup(),
            writer.setup() == old(writer).setup(),
            reads0 == old(reader).reads(),
            writes0 == old(writer).writes(),
            reader.reads() == reads0 + delivered::<R::Error>(chunks),
            writer.writes() == writes0 + accepted::<W::Error>(streamed(chunks, unbuffered)),
            fits_transfer(chunks),
            copier.unbuffered() == unbuffered,
            copier.held() == held(chunks, unbuffered),
        decreases reader.remaining(),
    {
        let n = match reader.read(&mut buf) {
            Ok(n) => n,
            Err(e) => {
                proof {
                    lemma_trace_read_failed(reads0, writes0, chunks, unbuffered, e);
                }
                return Err(CopyError::Read(e));
            },
        };
        let chunk = slice_subrange(buf.as_slice(), 0, n);
        proof {
            assert(chunk@ == buf@.take(n as int));
            if n > 0 {
                lemma_decision_on_chunk(chunks, chunk@, unbuffered);
                lemma_read_recorded(reads0, chunks, chunk@);
            } else {
                assert(chunk@ =~= Seq::<u8>::empty());
                lemma_decision_at_end(chunks, unbuffered);
            }
        }
        match copier.step(chunk) {
            Action::ReadMore => {
                assert(streamed(chunks.push(chunk@), unbuffered) =~= streamed(chunks, unbuffered));
            },
            Action::WriteThenRead(block) => {
                proof {
                    assert(streamed(chunks.push(chunk@), unbuffered) =~= streamed(
                        chunks,
                        unbuffered,
                    ).push(block@));
                    lemma_write_recorded(writes0, streamed(chunks, unbuffered), block@);
                }
                match writer.write_all(block.as_slice()) {
                    Ok(()) => {},
                    Err(e) => {
                        proof {
                            lemma_trace_write_failed(
                                reads0,
                                writes0,
                                chunks,
                                chunk@,
                                unbuffered,
                                e,
                            );
                        }
                        return Err(CopyError::Write(e));
                    },
                }
            },
            Action::WriteThenStop(rest) => {
                proof {
                    assert(flushed(chunks, unbuffered) =~= streamed(chunks, unbuffered).push(
                        rest@,
                    ));
                    lemma_write_recorded(writes0, streamed(chunks, unbuffered), rest@);
                }
                match writer.write_all(rest.as_slice()) {
                    Ok(()) => {},
                    Err(e) => {
                        proof {
                            lemma_trace_flush_failed(reads0, writes0, chunks, unbuffered, e);
                        }
                        return Err(CopyError::Write(e));
                    },
                }
                proof {
                    lemma_trace_finished(reads0, writes0, chunks, unbuffered);
                }
                return Ok(());
            },
            Action::Stop => {
                proof {
                    assert(flushed(chunks, unbuffered) =~= streamed(chunks, unbuffered));
                    lemma_trace_finished(reads0, writes0, chunks, unbuffered);
                }
                return Ok(());
            },
        }
        proof {
            chunks = chunks.push(chunk@);
        }
    }
}

/// The record of reads that delivered `chunks`, one after the other.
spec fn delivered<R>(chunks: Seq<Seq<u8>>) -> Seq<ReadRecord<R>> {
    Seq::new(chunks.len(), |i: int| served::<R>(chunks[i]))
}

/// The record of a read into a transfer buffer that delivered `chunk`.
spec fn served<R>(chunk: Seq<u8>) -> ReadRecord<R> {
    ReadRecord { room: BLOCK_SIZE as nat, outcome: Ok(chunk) }
}

/// The record of a read into a transfer buffer that failed.
spec fn failed<R>(e: R) -> ReadRecord<R> {
    ReadRecord { room: BLOCK_SIZE as nat, outcome: Err(e) }
}

/// The record of writes that took `data`, one string after the other.
spec fn accepted<W>(data: Seq<Seq<u8>>) -> Seq<WriteRecord<W>> {
    Seq::new(data.len(), |i: int| WriteRecord { data: data[i], failure: None::<W> })
}

/// One more read that delivered bytes, as the record of reads shows it.
proof fn lemma_read_recorded<R>(
    reads0: Seq<ReadRecord<R>>,
    chunks: Seq<Seq<u8>>,
    chunk: Seq<u8>,
)
    requires
        fits_transfer(chunks),
        0 < chunk.len() <= BLOCK_SIZE,
    ensures
        fits_transfer(chunks.push(chunk)),
        (reads0 + delivered::<R>(chunks)).push(served(chunk)) == reads0 + delivered::<R>(
            chunks.push(chunk),
        ),
{
    assert((reads0 + delivered::<R>(chunks)).push(served(chunk)) =~= reads0 + delivered::<R>(
        chunks.push(chunk),
    ));
}

/// One more write that went through, as the record of writes shows it.
proof fn lemma_write_recorded<W>(
    writes0: Seq<WriteRecord<W>>,
    done: Seq<Seq<u8>>,
    data: Seq<u8>,
)
    ensures
        (writes0 + accepted::<W>(done)).push(WriteRecord { data, failure: None::<W> }) == writes0
            + accepted::<W>(done.push(data)),
{
    assert((writes0 + accepted::<W>(done)).push(WriteRecord { data, failure: None::<W> })
        =~= writes0 + accepted::<W>(done.push(data)));
}

/// The reads of a copy that read `chunks` and then made a last read, seen
/// apart from what the record held before.
proof fn lemma_reads_of_copy<R>(
    reads0: Seq<ReadRecord<R>>,
    chunks: Seq<Seq<u8>>,
    last: ReadRecord<R>,
)
    requires
        last.room == BLOCK_SIZE,
    ensures
        ({
            let reads = (reads0 + delivered::<R>(chunks)).push(last);
            let added = since(reads0, reads);
            &&& reads0.is_prefix_of(reads)
            &&& added.len() > 0
            &&& added.last() == last
            &&& all_block_sized(added)
            &&& all_delivered(added.drop_last())
            &&& payloads(added.drop_last()) == chunks
        }),
{
    let reads = (reads0 + delivered::<R>(chunks)).push(last);
    let added = since(reads0, reads);
    assert(added =~= delivered::<R>(chunks).push(last));
    assert(added.drop_last() =~= delivered::<R>(chunks));
    assert(payloads(delivered::<R>(chunks)) =~= chunks);
}

/// The writes of a copy that wrote `data` and then, perhaps, made a write
/// that failed, seen apart from what the record held before.
proof fn lemma_writes_of_copy<W>(
    writes0: Seq<WriteRecord<W>>,
    data: Seq<Seq<u8>>,
    refused: Option<WriteRecord<W>>,
)
    requires
        refused matches Some(record) ==> record.failure is Some,
    ensures
        ({
            let quiet = writes0 + accepted::<W>(data);
            let writes = match refused {
                Some(record) => quiet.push(record),
                None => quiet,
            };
            let added = since(writes0, writes);
            &&& writes0.is_prefix_of(writes)
            &&& match refused {
                Some(record) => {
                    &&& added.len() > 0
                    &&& added.last() == record
                    &&& all_accepted(added.drop_last())
                    &&& offered(added) == data.push(record.data)
                    &&& offered(added).drop_last() == data
                },
                None => all_accepted(added) && offered(added) == data,
            }
        }),
{
    let quiet = writes0 + accepted::<W>(data);
    match refused {
        Some(record) => {
            let added = since(writes0, quiet.push(record));
            assert(added =~= accepted::<W>(data).push(record));
            assert(added.drop_last() =~= accepted::<W>(data));
            assert(offered(added) =~= data.push(record.data));
            assert(offered(added).drop_last() =~= data);
        },
        None => {
            let added = since(writes0, quiet);
            assert(added =~= accepted::<W>(data));
            assert(offered(added) =~= data);
        },
    }
}

/// The records of a copy that a failed read ended.
proof fn lemma_trace_read_failed<R, W>(
    reads0: Seq<ReadRecord<R>>,
    writes0: Seq<WriteRecord<W>>,
    chunks: Seq<Seq<u8>>,
    unbuffered: bool,
    e: R,
)
    requires
        fits_transfer(chunks),
    ensures
        ({
            let reads = (reads0 + delivered::<R>(chunks)).push(failed(e));
            let writes = writes0 + accepted::<W>(streamed(chunks, unbuffered));
            &&& reads0.is_prefix_of(reads)
            &&& writes0.is_prefix_of(writes)
            &&& copy_trace(
                since(reads0, reads),
                since(writes0, writes),
                unbuffered,
                Err(CopyError::Read(e)),
            )
        }),
{
    lemma_reads_of_copy(reads0, chunks, failed(e));
    lemma_writes_of_copy(writes0, streamed(chunks, unbuffered), None);
}

/// The records of a copy that ended when the write after a read failed.
proof fn lemma_trace_write_failed<R, W>(
    reads0: Seq<ReadRecord<R>>,
    writes0: Seq<WriteRecord<W>>,
    chunks: Seq<Seq<u8>>,
    chunk: Seq<u8>,
    unbuffered: bool,
    e: W,
)
    requires
        fits_transfer(chunks),
        0 < chunk.len() <= BLOCK_SIZE,
        decide(unbuffered, held(chunks, unbuffered), chunk) is WriteThenRead,
    ensures
        ({
            let reads = (reads0 + delivered::<R>(chunks)).push(served(chunk));
            let data = decide(unbuffered, held(chunks, unbuffered), chunk)->WriteThenRead_0;
            let writes = (writes0 + accepted::<W>(streamed(chunks, unbuffered))).push(
                WriteRecord { data, failure: Some(e) },
            );
            &&& reads0.is_prefix_of(reads)
            &&& writes0.is_prefix_of(writes)
            &&& copy_trace(
                since(reads0, reads),
                since(writes0, writes),
                unbuffered,
                Err(CopyError::Write(e)),
            )
        }),
{
    let data = decide(unbuffered, held(chunks, unbuffered), chunk)->WriteThenRead_0;
    lemma_reads_of_copy(reads0, chunks, served::<R>(chunk));
    lemma_writes_of_copy(
        writes0,
        streamed(chunks, unbuffered),
        Some(WriteRecord { data, failure: Some(e) }),
    );
    lemma_decision_on_chunk(chunks, chunk, unbuffered);
    assert(streamed(chunks, unbuffered) + seq![data] =~= streamed(chunks, unbuffered).push(data));
}

/// The records of a copy that ended when its final write failed.
proof fn lemma_trace_flush_failed<R, W>(
    reads0: Seq<ReadRecord<R>>,
    writes0: Seq<WriteRecord<W>>,
    chunks: Seq<Seq<u8>>,
    unbuffered: bool,
    e: W,
)
    requires
        fits_transfer(chunks),
        final_flush(chunks, unbuffered).len() > 0,
    ensures
        ({
            let reads = (reads0 + delivered::<R>(chunks)).push(served(Seq::empty()));
            let writes = (writes0 + accepted::<W>(streamed(chunks, unbuffered))).push(
                WriteRecord { data: pending(chunks), failure: Some(e) },
            );
            &&& reads0.is_prefix_of(reads)
            &&& writes0.is_prefix_of(writes)
            &&& copy_trace(
                since(reads0, reads),
                since(writes0, writes),
                unbuffered,
                Err(CopyError::Write(e)),
            )
        }),
{
    lemma_reads_of_copy(reads0, chunks, served::<R>(Seq::empty()));
    lemma_writes_of_copy(
        writes0,
        streamed(chunks, unbuffered),
        Some(WriteRecord { data: pending(chunks), failure: Some(e) }),
    );
    assert(flushed(chunks, unbuffered) =~= streamed(chunks, unbuffered).push(pending(chunks)));
}

/// The records of a copy that reached the end of its source.
proof fn lemma_trace_finished<R, W>(
    reads0: Seq<ReadRecord<R>>,
    writes0: Seq<WriteRecord<W>>,
    chunks: Seq<Seq<u8>>,
    unbuffered: bool,
)
    requires
        fits_transfer(chunks),
    ensures
        ({
            let reads = (reads0 + delivered::<R>(chunks)).push(served(Seq::empty()));
            let writes = writes0 + accepted::<W>(flushed(chunks, unbuffered));
            &&& reads0.is_prefix_of(reads)
            &&& writes0.is_prefix_of(writes)
            &&& copy_trace(since(reads0, reads), since(writes0, writes), unbuffered, Ok(()))
            &&& kept(since(writes0, writes)).flatten() == payloads(since(reads0, reads)).flatten()
        }),
{
    let reads = (reads0 + delivered::<R>(chunks)).push(served(Seq::empty()));
    let writes = writes0 + accepted::<W>(flushed(chunks, unbuffered));
    lemma_reads_of_copy(reads0, chunks, served::<R>(Seq::empty()));
    lemma_writes_of_copy(writes0, flushed(chunks, unbuffered), None);
    lemma_copy_keeps_bytes(
        since(reads0, reads),
        since(writes0, writes),
        unbuffered,
        Ok::<(), CopyError<R, W>>(()),
    );
}

} // verus!
