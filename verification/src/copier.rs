//! The copier: the buffering policy as a machine that is told what each
//! read delivered and answers with what to do next.

use vstd::prelude::*;
use crate::batching::{decide, held_after, Decision, BLOCK_SIZE};

verus! {

/// What the driver of a `StreamCopier` is to do next.
#[derive(Debug, PartialEq, Eq)]
pub enum Action {
    /// Nothing is due: read again.
    ReadMore,
    /// Write these bytes, then read again.
    WriteThenRead(Vec<u8>),
    /// The source has ended: write these bytes, then stop.
    WriteThenStop(Vec<u8>),
    /// The source has ended and nothing is held back: stop.
    Stop,
}

impl View for Action {
    type V = Decision;

    open spec fn view(&self) -> Decision {
        match self {
            Action::ReadMore => Decision::ReadMore,
            Action::WriteThenRead(bytes) => Decision::WriteThenRead(bytes@),
            Action::WriteThenStop(bytes) => Decision::WriteThenStop(bytes@),
            Action::Stop => Decision::Stop,
        }
    }
}

/// The state of one copy: its mode and its accumulation buffer.
///
/// The copier does no reading or writing itself. Its driver reads up to
/// `BLOCK_SIZE` bytes, hands what was read to `step`, and carries out the
/// action that comes back, until that action says to stop. A read or write
/// that fails ends the copy then and there.
pub struct StreamCopier {
    unbuffered: bool,
    held: Vec<u8>,
}

impl StreamCopier {
    /// The accumulation buffer is used only when batching, and never keeps
    /// a full block.
    #[verifier::type_invariant]
    spec fn within_policy(self) -> bool {
        &&& self.held@.len() < BLOCK_SIZE
        &&& self.unbuffered ==> self.held@.len() == 0
    }

    /// Whether each read is written through at once.
    pub closed spec fn unbuffered(&self) -> bool {
        self.unbuffered
    }

    /// The accumulation buffer: bytes read and not yet handed on.
    pub closed spec fn held(&self) -> Seq<u8> {
        self.held@
    }

    /// A copier at the start of a stream.
    pub fn new(unbuffered: bool) -> (copier: Self)
        ensures
            copier.unbuffered() == unbuffered,
            copier.held() == Seq::<u8>::empty(),
    {
        StreamCopier { unbuffered, held: Vec::new() }
    }

    /// Takes in what one read delivered, an empty `chunk` for the end of the
    /// source, and says what to do next.
    pub fn step(&mut self, chunk: &[u8]) -> (action: Action)
        ensures
            final(self).unbuffered() == old(self).unbuffered(),
            final(self).held() == held_after(old(self).unbuffered(), old(self).held(), chunk@),
            action@ == decide(old(self).unbuffered(), old(self).held(), chunk@),
            final(self).held().len() < BLOCK_SIZE,
            final(self).unbuffered() ==> final(self).held().len() == 0,
    {
        proof {
            use_type_invariant(&*self);
        }
        if chunk.len() == 0 {
            if !self.unbuffered && !self.held.is_empty() {
                let mut rest: Vec<u8> = Vec::new();
                std::mem::swap(&mut rest, &mut self.held);
                Action::WriteThenStop(rest)
            } else {
                assert(self.held@ =~= Seq::<u8>::empty());
                Action::Stop
            }
        } else if self.unbuffered {
            Action::WriteThenRead(vstd::slice::slice_to_vec(chunk))
        } else {
            let mut gathered: Vec<u8> = Vec::new();
            std::mem::swap(&mut gathered, &mut self.held);
            gathered.extend_from_slice(chunk);
            assert(gathered@ =~= old(self).held@ + chunk@);
            if gathered.len() >= BLOCK_SIZE {
                Action::WriteThenRead(gathered)
            } else {
                self.held = gathered;
                Action::ReadMore
            }
        }
    }
}

} // verus!
