//! Per-connection read state machine: partial-frame reassembly.
//!
//! A connection is either awaiting a frame's 8-byte length prefix, or
//! accumulating exactly the declared number of payload bytes across any
//! number of readable events.  The prefix is consumed whole: a short read
//! of the prefix is retried in full on the next readable event, never
//! reassembled byte by byte.  A payload is handed out only once every
//! declared byte has arrived.

use vstd::prelude::*;

use crate::wire::{u64_from_le, LENGTH_PREFIX_LEN, MAX_COMMAND_FRAME_LEN};

verus! {

/// A fatal violation of the wire protocol by a client.
#[derive(Clone, Copy, Debug, PartialEq, Eq, Structural)]
pub enum ProtocolError {
    /// The declared payload length exceeds the accepted cap.
    FrameTooLong,
}

/// How many of the offered bytes a partially filled frame takes: all of
/// them, or just enough to fill the frame, whichever is less.
pub open spec fn spec_take_len(have: int, target: int, offered: int) -> int {
    if offered <= target - have {
        offered
    } else {
        target - have
    }
}

/// Reassembles length-prefixed frames from arbitrarily chunked reads.
#[derive(Debug)]
pub struct FrameReader {
    /// Whether a frame is in progress (its prefix has been accepted).
    pub in_frame: bool,
    /// Declared payload length of the frame in progress.
    pub target_len: usize,
    /// Payload bytes accumulated so far.
    pub buffer: Vec<u8>,
}

impl FrameReader {
    /// The reader's state is consistent: outside a frame the buffer is
    /// empty; inside one it never holds more than the declared length,
    /// which itself never exceeds the protocol cap.
    pub open spec fn wf(self) -> bool {
        &&& self.in_frame ==> self.buffer@.len() <= self.target_len
            && self.target_len <= MAX_COMMAND_FRAME_LEN
        &&& !self.in_frame ==> self.buffer@.len() == 0
    }

    /// Whether a frame is in progress.
    pub open spec fn spec_in_frame(self) -> bool {
        self.in_frame
    }

    /// Declared payload length of the frame in progress.
    pub open spec fn spec_target_len(self) -> int {
        self.target_len as int
    }

    /// Payload bytes accumulated so far.
    pub open spec fn spec_buffer(self) -> Seq<u8> {
        self.buffer@
    }

    /// A fresh reader, awaiting a length prefix.
    pub fn new() -> (r: FrameReader)
        ensures
            r.wf(),
            !r.spec_in_frame(),
            r.spec_buffer().len() == 0,
    {
        FrameReader { in_frame: false, target_len: 0, buffer: Vec::new() }
    }

    /// Whether the reader is awaiting a length prefix (no frame in
    /// progress).
    pub fn awaiting_length(&self) -> (r: bool)
        ensures
            r == !self.spec_in_frame(),
    {
        !self.in_frame
    }

    /// Accept a whole 8-byte length prefix and open a frame of the
    /// declared length.  A declared length over the cap is a fatal
    /// protocol violation and leaves the reader unchanged; the caller
    /// must drop the connection.
    pub fn start_frame(&mut self, prefix: &[u8]) -> (r: Result<(), ProtocolError>)
        requires
            old(self).wf(),
            !old(self).spec_in_frame(),
            prefix@.len() == LENGTH_PREFIX_LEN,
        ensures
            final(self).wf(),
            ({
                let declared = u64_from_le(prefix@);
                if declared > MAX_COMMAND_FRAME_LEN {
                    &&& r == Err::<(), ProtocolError>(ProtocolError::FrameTooLong)
                    &&& *final(self) == *old(self)
                } else {
                    &&& r == Ok::<(), ProtocolError>(())
                    &&& final(self).spec_in_frame()
                    &&& final(self).spec_target_len() == declared
                    &&& final(self).spec_buffer().len() == 0
                }
            }),
    {
        let declared = crate::wire::decode_u64_le(prefix);

        if declared > MAX_COMMAND_FRAME_LEN {
            return Err(ProtocolError::FrameTooLong);
        }

        self.in_frame = true;
        self.target_len = declared as usize;
        Ok(())
    }

    /// Accumulate payload bytes from one read.  Takes as many of the
    /// offered bytes as the frame still needs and reports how many were
    /// consumed; the caller keeps any remainder for the next frame.
    pub fn accept_payload(&mut self, data: &[u8]) -> (consumed: usize)
        requires
            old(self).wf(),
            old(self).spec_in_frame(),
        ensures
            final(self).wf(),
            final(self).spec_in_frame(),
            final(self).spec_target_len() == old(self).spec_target_len(),
            consumed == spec_take_len(
                old(self).spec_buffer().len() as int,
                old(self).spec_target_len(),
                data@.len() as int,
            ),
            final(self).spec_buffer() == old(self).spec_buffer() + data@.take(consumed as int),
    {
        let needed = self.target_len - self.buffer.len();
        let consumed: usize = if data.len() <= needed {
            data.len()
        } else {
            needed
        };

        let mut i: usize = 0;
        while i < consumed
            invariant
                i <= consumed,
                consumed <= data@.len(),
                self.buffer@.len() + consumed - i <= self.target_len,
                self.in_frame == old(self).in_frame,
                self.target_len == old(self).target_len,
                self.buffer@ == old(self).buffer@ + data@.take(i as int),
            decreases consumed - i,
        {
            self.buffer.push(data[i]);
            proof {
                assert(data@.take(i + 1) =~= data@.take(i as int).push(data@[i as int]));
                assert(old(self).buffer@ + data@.take(i + 1) =~= (old(self).buffer@ + data@.take(
                    i as int,
                )).push(data@[i as int]));
            }
            i = i + 1;
        }

        proof {
            assert(old(self).buffer@ + data@.take(0) =~= old(self).buffer@);
        }
        consumed
    }

    /// Whether the frame in progress has accumulated exactly its declared
    /// payload length.
    pub fn frame_complete(&self) -> (r: bool)
        requires
            self.wf(),
        ensures
            r == (self.spec_in_frame() && self.spec_buffer().len() == self.spec_target_len()),
    {
        self.in_frame && self.buffer.len() == self.target_len
    }

    /// Hand out the completed payload — exactly the declared number of
    /// bytes, never fewer — and reset to awaiting the next length prefix.
    pub fn take_payload(&mut self) -> (r: Vec<u8>)
        requires
            old(self).wf(),
            old(self).spec_in_frame(),
            old(self).spec_buffer().len() == old(self).spec_target_len(),
        ensures
            final(self).wf(),
            !final(self).spec_in_frame(),
            final(self).spec_buffer().len() == 0,
            r@ == old(self).spec_buffer(),
            r@.len() == old(self).spec_target_len(),
    {
        let mut payload: Vec<u8> = Vec::new();
        core::mem::swap(&mut payload, &mut self.buffer);
        self.in_frame = false;
        self.target_len = 0;
        payload
    }
}

/// Feeding a frame two chunks of payload one after the other accumulates
/// exactly what feeding their concatenation would: reassembly does not
/// depend on how reads are chunked.
pub proof fn lemma_chunking_independent(have: Seq<u8>, target: int, d1: Seq<u8>, d2: Seq<u8>)
    requires
        have.len() <= target,
    ensures
        ({
            let once = have + (d1 + d2).take(
                spec_take_len(have.len() as int, target, (d1 + d2).len() as int),
            );
            let first = have + d1.take(spec_take_len(have.len() as int, target, d1.len() as int));
            let twice = first + d2.take(spec_take_len(first.len() as int, target, d2.len() as int));
            once == twice
        }),
{
    let n1 = spec_take_len(have.len() as int, target, d1.len() as int);
    let first = have + d1.take(n1);
    let n2 = spec_take_len(first.len() as int, target, d2.len() as int);
    let n = spec_take_len(have.len() as int, target, (d1 + d2).len() as int);
    assert(have + (d1 + d2).take(n) =~= (have + d1.take(n1)) + d2.take(n2));
}

} // verus!
