//! Byte sources and sinks as the copy routine sees them, each with a record
//! of what every call on it has come to.

use vstd::prelude::*;

verus! {

/// One read, as the record of a source keeps it.
pub struct ReadRecord<E> {
    /// Length of the buffer that the read was given.
    pub room: nat,
    /// The bytes that the read delivered, or its failure. A delivery of no
    /// bytes into a buffer with room is how a source reports its end.
    pub outcome: Result<Seq<u8>, E>,
}

/// One write, as the record of a sink keeps it.
pub struct WriteRecord<E> {
    /// The bytes that the write was given.
    pub data: Seq<u8>,
    /// Its failure, if it failed.
    pub failure: Option<E>,
}

/// The record of a read that returned `r` and left `buf` in the buffer.
pub open spec fn read_record<E>(r: Result<usize, E>, buf: Seq<u8>) -> ReadRecord<E> {
    ReadRecord {
        room: buf.len(),
        outcome: match r {
            Ok(n) => Ok(buf.take(n as int)),
            Err(e) => Err(e),
        },
    }
}

/// The record of a write of `data` that returned `r`.
pub open spec fn write_record<E>(data: Seq<u8>, r: Result<(), E>) -> WriteRecord<E> {
    WriteRecord {
        data,
        failure: match r {
            Ok(_) => None,
            Err(e) => Some(e),
        },
    }
}

/// A stream of bytes that is read a piece at a time.
pub trait ByteSource {
    /// What a read that failed reports.
    type Error;

    /// What a source is made with and keeps for life.
    type Setup;

    /// What the source was made with. No read changes it.
    spec fn setup(&self) -> Self::Setup;

    /// Every read so far, oldest first.
    spec fn reads(&self) -> Seq<ReadRecord<Self::Error>>;

    /// A bound on the number of bytes that reads can still deliver: a source
    /// is a stream that ends.
    spec fn remaining(&self) -> nat;

    /// Moves up to `buf.len()` bytes to the front of `buf` and returns how
    /// many. With room in `buf`, zero means the end of the stream. A failed
    /// read delivers nothing.
    fn read(&mut self, buf: &mut [u8]) -> (r: Result<usize, Self::Error>)
        ensures
            final(buf)@.len() == old(buf)@.len(),
            r matches Ok(n) ==> n <= old(buf)@.len() && final(self).remaining() + n <= old(
                self,
            ).remaining(),
            final(self).reads() == old(self).reads().push(read_record(r, final(buf)@)),
            final(self).setup() == old(self).setup(),
    ;
}

/// A destination that takes byte strings whole.
pub trait ByteSink {
    /// What a write that failed reports.
    type Error;

    /// What a sink is made with and keeps for life.
    type Setup;

    /// What the sink was made with. No write changes it.
    spec fn setup(&self) -> Self::Setup;

    /// Every write so far, oldest first.
    spec fn writes(&self) -> Seq<WriteRecord<Self::Error>>;

    /// Writes all of `data`, or fails.
    fn write_all(&mut self, data: &[u8]) -> (r: Result<(), Self::Error>)
        ensures
            final(self).writes() == old(self).writes().push(write_record(data@, r)),
            final(self).setup() == old(self).setup(),
    ;
}

} // verus!
