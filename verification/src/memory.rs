//! A source and a sink that live in memory, and a copy from one to the
//! other.

use vstd::prelude::*;
use crate::batching::BLOCK_SIZE;
use crate::stream::{read_record, ByteSink, ByteSource, ReadRecord, WriteRecord};
use crate::trace::{
    all_delivered, kept, lemma_kept_all, lemma_offered_from_the_front, lemma_payloads_push,
    offered, payload, payloads, since, source_ended, CopyError,
};
use crate::transfer::copy_reader;

verus! {

/// A read of a `MemorySource` that failed.
#[derive(Debug, Clone, Copy, PartialEq, Eq)]
pub struct SourceFailure {
    /// How many bytes the source had delivered when it failed.
    pub offset: usize,
}

/// A write that a `MemorySink` refused for want of room.
#[derive(Debug, Clone, Copy, PartialEq, Eq)]
pub struct SinkFull {
    /// Length of the byte string that was refused.
    pub refused: usize,
}

/// What a `MemorySource` is made with.
pub struct SourceSetup {
    /// The bytes of the source.
    pub data: Seq<u8>,
    /// The most bytes that one read delivers.
    pub max_read: nat,
    /// Whether reads fail once all bytes are delivered, where they would
    /// else report the end.
    pub fails_at_end: bool,
}

/// How far a source has come: its place in the bytes, and its reads.
struct Progress {
    position: usize,
    log: Ghost<Seq<ReadRecord<SourceFailure>>>,
}

/// Bytes in memory, handed out from front to back.
pub struct MemorySource {
    data: Vec<u8>,
    max_read: usize,
    fails_at_end: bool,
    progress: Progress,
}

impl MemorySource {
    /// The reads so far have delivered the front of the bytes, up to the
    /// source's place in them. None has failed unless the source was cut
    /// short, and none has reported the end before the end.
    #[verifier::type_invariant]
    spec fn consistent(self) -> bool {
        let log = self.progress.log@;
        &&& self.progress.position <= self.data@.len()
        &&& payloads(log).flatten() == self.data@.take(self.progress.position as int)
        &&& !self.fails_at_end ==> all_delivered(log)
        &&& self.max_read > 0 && source_ended(log) && log.last().room > 0
            ==> self.progress.position == self.data@.len()
    }

    /// The bytes that the source was made with.
    pub closed spec fn data(&self) -> Seq<u8> {
        self.data@
    }

    /// How many of its bytes the source has delivered.
    pub closed spec fn position(&self) -> nat {
        self.progress.position as nat
    }

    /// The most bytes that one read delivers.
    pub closed spec fn max_read(&self) -> nat {
        self.max_read as nat
    }

    /// Whether reads fail once all bytes are delivered, where they would
    /// else report the end.
    pub closed spec fn fails_at_end(&self) -> bool {
        self.fails_at_end
    }

    /// A source of `data` whose reads deliver as much as the caller's buffer
    /// takes.
    pub fn new(data: Vec<u8>) -> (source: Self)
        ensures
            source.data() == data@,
            source.position() == 0,
            source.max_read() == usize::MAX,
            !source.fails_at_end(),
            source.reads() == Seq::<ReadRecord<SourceFailure>>::empty(),
    {
        MemorySource::with_max_read(data, usize::MAX)
    }

    /// A source of `data` whose reads deliver at most `max_read` bytes. With
    /// a `max_read` of zero every read reports the end.
    pub fn with_max_read(data: Vec<u8>, max_read: usize) -> (source: Self)
        ensures
            source.data() == data@,
            source.position() == 0,
            source.max_read() == max_read,
            !source.fails_at_end(),
            source.reads() == Seq::<ReadRecord<SourceFailure>>::empty(),
    {
        proof {
            assert(payloads(Seq::<ReadRecord<SourceFailure>>::empty()) =~= Seq::<
                Seq<u8>,
            >::empty());
            assert(Seq::<Seq<u8>>::empty().flatten() =~= data@.take(0));
        }
        MemorySource {
            data,
            max_read,
            fails_at_end: false,
            progress: Progress { position: 0, log: Ghost(Seq::empty()) },
        }
    }

    /// The same source, cut short: once its bytes are delivered, reads fail.
    pub fn failing_at_end(self) -> (source: Self)
        ensures
            source.data() == self.data(),
            source.position() == self.position(),
            source.max_read() == self.max_read(),
            source.fails_at_end(),
            source.reads() == self.reads(),
    {
        proof {
            use_type_invariant(&self);
        }
        MemorySource {
            data: self.data,
            max_read: self.max_read,
            fails_at_end: true,
            progress: self.progress,
        }
    }

    /// How many bytes the source has delivered. Taken together, the reads
    /// so far have delivered that many bytes from the front of the source.
    /// None of them has failed unless the source was cut short, and if the
    /// last of them reported the end, all bytes are delivered.
    pub fn consumed(&self) -> (n: usize)
        ensures
            n == self.position(),
            n <= self.data().len(),
            payloads(self.reads()).flatten() == self.data().take(n as int),
            !self.fails_at_end() ==> all_delivered(self.reads()),
            self.max_read() > 0 && source_ended(self.reads()) && self.reads().last().room > 0
                ==> n == self.data().len(),
    {
        proof {
            use_type_invariant(self);
        }
        self.progress.position
    }
}

impl ByteSource for MemorySource {
    type Error = SourceFailure;

    type Setup = SourceSetup;

    open spec fn setup(&self) -> SourceSetup {
        SourceSetup {
            data: self.data(),
            max_read: self.max_read(),
            fails_at_end: self.fails_at_end(),
        }
    }

    closed spec fn reads(&self) -> Seq<ReadRecord<SourceFailure>> {
        self.progress.log@
    }

    closed spec fn remaining(&self) -> nat {
        (self.data@.len() - self.progress.position) as nat
    }

    /// Delivers the next bytes: as many as are left, as `buf` takes and as
    /// one read may deliver. With nothing left, reports the end, or fails if
    /// the source was cut short.
    fn read(&mut self, buf: &mut [u8]) -> (r: Result<usize, SourceFailure>)
        ensures
            r is Err <==> old(self).fails_at_end() && old(self).position() == old(
                self,
            ).data().len(),
            r matches Err(e) ==> e.offset == old(self).position() && final(self).position() == old(
                self,
            ).position(),
            r matches Ok(n) ==> {
                &&& n == vstd::math::min(
                    old(buf)@.len() as int,
                    vstd::math::min(
                        old(self).max_read() as int,
                        old(self).data().len() - old(self).position(),
                    ),
                )
                &&& final(self).position() == old(self).position() + n
                &&& final(buf)@.take(n as int) == old(self).data().subrange(
                    old(self).position() as int,
                    old(self).position() + n,
                )
                &&& final(buf)@.skip(n as int) == old(buf)@.skip(n as int)
            },
    {
        proof {
            use_type_invariant(&*self);
        }
        let start = self.progress.position;
        let left = self.data.len() - start;
        if left == 0 && self.fails_at_end {
            let e = SourceFailure { offset: start };
            let ghost record = read_record(Err::<usize, SourceFailure>(e), buf@);
            proof {
                assert(self.progress.log@.push(record).last() == record);
                lemma_payloads_push(self.progress.log@, record);
                assert(payloads(self.progress.log@).flatten() + Seq::<u8>::empty() =~= payloads(
                    self.progress.log@,
                ).flatten());
            }
            self.progress = Progress {
                position: start,
                log: Ghost(self.progress.log@.push(record)),
            };
            return Err(e);
        }
        let mut n = buf.len();
        if self.max_read < n {
            n = self.max_read;
        }
        if left < n {
            n = left;
        }
        let mut i: usize = 0;
        while i < n
            invariant
                i <= n,
                n <= buf@.len(),
                buf@.len() == old(buf)@.len(),
                start + n <= self.data@.len() <= usize::MAX,
                self.data@ == old(self).data@,
                buf@.take(i as int) == self.data@.subrange(start as int, start + i),
                buf@.skip(i as int) == old(buf)@.skip(i as int),
            decreases n - i,
        {
            let ghost before = buf@;
            buf[i] = self.data[start + i];
            i += 1;
            assert(buf@.take(i as int) =~= self.data@.subrange(start as int, start + i));
            assert(buf@.skip(i as int) =~= before.skip(i - 1).skip(1));
            assert(old(buf)@.skip(i as int) =~= old(buf)@.skip(i - 1).skip(1));
        }
        let ghost record = read_record(Ok::<usize, SourceFailure>(n), buf@);
        proof {
            assert(self.progress.log@.push(record).last() == record);
            assert(payload(record).len() == n);
            lemma_payloads_push(self.progress.log@, record);
            assert(self.data@.take(start as int) + self.data@.subrange(start as int, start + n)
                =~= self.data@.take(start + n));
        }
        self.progress = Progress {
            position: start + n,
            log: Ghost(self.progress.log@.push(record)),
        };
        Ok(n)
    }
}

/// What a sink has taken and how much more it takes, and its writes.
struct Ledger {
    chunks: Vec<Vec<u8>>,
    room: usize,
    log: Ghost<Seq<WriteRecord<SinkFull>>>,
    capacity: Ghost<nat>,
}

/// A sink that keeps in memory what it is given, one byte string per write,
/// as long as it has room.
pub struct MemorySink {
    ledger: Ledger,
}

/// Each write that failed was refused for want of room: with what the sink
/// had taken before, its bytes would have come to more than `capacity`.
pub open spec fn refused_for_room(writes: Seq<WriteRecord<SinkFull>>, capacity: nat) -> bool {
    forall|j: int|
        0 <= j < writes.len() && (#[trigger] writes[j]).failure is Some ==> kept(
            writes.take(j),
        ).flatten().len() + writes[j].data.len() > capacity
}

impl MemorySink {
    /// The sink holds the byte strings of the writes that did not fail.
    /// They fill what is gone of its room, and the writes that failed did
    /// not fit what was left of it.
    #[verifier::type_invariant]
    spec fn consistent(self) -> bool {
        let log = self.ledger.log@;
        &&& self.ledger.chunks.deep_view() == kept(log)
        &&& self.ledger.room + kept(log).flatten().len() == self.ledger.capacity@
        &&& refused_for_room(log, self.ledger.capacity@)
    }

    /// How many more bytes the sink takes.
    pub closed spec fn room(&self) -> nat {
        self.ledger.room as nat
    }

    /// How many bytes the sink took when it was empty.
    pub closed spec fn capacity(&self) -> nat {
        self.ledger.capacity@
    }

    /// An empty sink that takes `room` bytes.
    pub fn with_room(room: usize) -> (sink: Self)
        ensures
            sink.room() == room,
            sink.capacity() == room,
            sink.writes() == Seq::<WriteRecord<SinkFull>>::empty(),
    {
        let chunks: Vec<Vec<u8>> = Vec::new();
        proof {
            assert(chunks.deep_view() =~= Seq::<Seq<u8>>::empty());
            assert(Seq::<Seq<u8>>::empty().flatten() =~= Seq::<u8>::empty());
        }
        MemorySink {
            ledger: Ledger { chunks, room, log: Ghost(Seq::empty()), capacity: Ghost(room as nat) },
        }
    }

    /// An empty sink that takes as many bytes as a `usize` counts.
    pub fn new() -> (sink: Self)
        ensures
            sink.room() == usize::MAX,
            sink.capacity() == usize::MAX,
            sink.writes() == Seq::<WriteRecord<SinkFull>>::empty(),
    {
        MemorySink::with_room(usize::MAX)
    }

    /// How many more bytes the sink takes: its capacity, less the bytes
    /// that it took. Each write that failed did not fit what was left then.
    pub fn room_left(&self) -> (room: usize)
        ensures
            room == self.room(),
            room + kept(self.writes()).flatten().len() == self.capacity(),
            refused_for_room(self.writes(), self.capacity()),
    {
        proof {
            use_type_invariant(self);
        }
        self.ledger.room
    }

    /// The byte strings that the sink took, oldest first.
    pub fn chunks(&self) -> (chunks: &Vec<Vec<u8>>)
        ensures
            chunks.deep_view() == kept(self.writes()),
    {
        proof {
            use_type_invariant(self);
        }
        &self.ledger.chunks
    }

    /// All bytes that the sink took, in order.
    pub fn bytes(&self) -> (bytes: Vec<u8>)
        ensures
            bytes@ == kept(self.writes()).flatten(),
    {
        proof {
            use_type_invariant(self);
        }
        let mut bytes: Vec<u8> = Vec::new();
        let mut i: usize = 0;
        proof {
            assert(self.ledger.chunks.deep_view().take(0) =~= Seq::<Seq<u8>>::empty());
            assert(Seq::<Seq<u8>>::empty().flatten() =~= Seq::<u8>::empty());
        }
        while i < self.ledger.chunks.len()
            invariant
                i <= self.ledger.chunks.len(),
                bytes@ == self.ledger.chunks.deep_view().take(i as int).flatten(),
            decreases self.ledger.chunks.len() - i,
        {
            let ghost before = bytes@;
            bytes.extend_from_slice(self.ledger.chunks[i].as_slice());
            proof {
                let all = self.ledger.chunks.deep_view();
                assert(bytes@ =~= before + all[i as int]);
                assert(all.take(i + 1) =~= all.take(i as int).push(all[i as int]));
                all.take(i as int).lemma_flatten_push(all[i as int]);
            }
            i += 1;
        }
        proof {
            let all = self.ledger.chunks.deep_view();
            assert(all.take(i as int) =~= all);
        }
        bytes
    }
}

/// One more write leaves the earlier refusals as they were.
proof fn lemma_refusals_stay(
    writes: Seq<WriteRecord<SinkFull>>,
    record: WriteRecord<SinkFull>,
    capacity: nat,
)
    requires
        refused_for_room(writes, capacity),
        record.failure is Some ==> kept(writes).flatten().len() + record.data.len() > capacity,
    ensures
        refused_for_room(writes.push(record), capacity),
{
    let more = writes.push(record);
    assert forall|j: int| 0 <= j < more.len() && (#[trigger] more[j]).failure is Some implies kept(
        more.take(j),
    ).flatten().len() + more[j].data.len() > capacity by {
        if j < writes.len() {
            assert(more.take(j) =~= writes.take(j));
            assert(more[j] == writes[j]);
        } else {
            assert(more.take(j) =~= writes);
        }
    }
}

impl ByteSink for MemorySink {
    type Error = SinkFull;

    type Setup = nat;

    open spec fn setup(&self) -> nat {
        self.capacity()
    }

    closed spec fn writes(&self) -> Seq<WriteRecord<SinkFull>> {
        self.ledger.log@
    }

    /// Takes `data` if it fits the room that is left, and refuses it
    /// otherwise.
    fn write_all(&mut self, data: &[u8]) -> (r: Result<(), SinkFull>)
        ensures
            r is Ok <==> data@.len() <= old(self).room(),
            r is Ok ==> final(self).room() == old(self).room() - data@.len(),
            r matches Err(e) ==> e.refused == data@.len() && final(self).room() == old(self).room(),
    {
        proof {
            use_type_invariant(&*self);
        }
        let mut ledger = Ledger {
            chunks: Vec::new(),
            room: 0,
            log: Ghost(Seq::empty()),
            capacity: Ghost(0),
        };
        proof {
            assert(ledger.chunks.deep_view() =~= Seq::<Seq<u8>>::empty());
            assert(Seq::<Seq<u8>>::empty().flatten() =~= Seq::<u8>::empty());
        }
        std::mem::swap(&mut self.ledger, &mut ledger);
        let ghost before = ledger.chunks.deep_view();
        let ghost log = ledger.log@;
        if data.len() > ledger.room {
            let e = SinkFull { refused: data.len() };
            let ghost record = WriteRecord { data: data@, failure: Some(e) };
            proof {
                assert(log.push(record).drop_last() =~= log);
                lemma_refusals_stay(log, record, ledger.capacity@);
            }
            ledger.log = Ghost(log.push(record));
            self.ledger = ledger;
            return Err(e);
        }
        let ghost record = WriteRecord { data: data@, failure: None::<SinkFull> };
        ledger.chunks.push(vstd::slice::slice_to_vec(data));
        ledger.room = ledger.room - data.len();
        ledger.log = Ghost(log.push(record));
        proof {
            assert(log.push(record).drop_last() =~= log);
            assert(ledger.chunks.deep_view() =~~= before.push(data@));
            kept(log).lemma_flatten_push(data@);
            lemma_refusals_stay(log, record, ledger.capacity@);
        }
        self.ledger = ledger;
        Ok(())
    }
}

/// Copies `data` from a source in memory to a sink in memory, and returns
/// what the sink took: `data` again, byte for byte, in either mode.
pub fn copy_bytes(data: Vec<u8>, unbuffered: bool) -> (copy: Vec<u8>)
    ensures
        copy@ == data@,
{
    let mut source = MemorySource::new(data);
    let mut sink = MemorySink::new();
    let result = copy_reader(&mut source, &mut sink, unbuffered);
    let n = source.consumed();
    let room = sink.room_left();
    let copy = sink.bytes();
    proof {
        let reads = source.reads();
        let writes = sink.writes();
        assert(since(Seq::<ReadRecord<SourceFailure>>::empty(), reads) =~= reads);
        assert(since(Seq::<WriteRecord<SinkFull>>::empty(), writes) =~= writes);
        lemma_offered_from_the_front(reads, writes, unbuffered, result);
        match result {
            Ok(_) => {
                assert(reads.last().room == BLOCK_SIZE);
                assert(data@.take(n as int) =~= data@);
            },
            Err(CopyError::Read(e)) => {
                assert(reads[reads.len() - 1].outcome is Err);
            },
            Err(CopyError::Write(e)) => {
                let last = writes.len() - 1;
                assert(writes[last].failure is Some);
                assert(writes.take(last) =~= writes.drop_last());
                lemma_kept_all(writes.drop_last());
                assert(offered(writes) =~= offered(writes.drop_last()).push(writes[last].data));
                offered(writes.drop_last()).lemma_flatten_push(writes[last].data);
            },
        }
    }
    copy
}

} // verus!
