//! Server core: the client map, detection broadcast, and per-client
//! write backlogs.
//!
//! The reactor thread owns one `ServerCore`.  Sockets and readiness
//! polling live outside; the core tracks each connection's identity, its
//! read state machine and its FIFO backlog of encoded frames awaiting
//! transmission.  A backlog entry leaves the backlog only once every one
//! of its bytes has been reported written.

use vstd::prelude::*;

use crate::frame_reader::{spec_take_len, FrameReader, ProtocolError};
use crate::pulse::Pulse;
use crate::payload::{encode_pulse, spec_pulse_payload};
use crate::wire::{copy_bytes, encode_frame, spec_frame, u64_from_le, LENGTH_PREFIX_LEN, MAX_COMMAND_FRAME_LEN};

verus! {

/// First id handed to an accepted client; smaller ids are reserved for
/// the listener and the detection-ready event source.
pub const FIRST_CLIENT_ID: usize = 2;

/// One accepted client connection, as the reactor sees it: its id, its
/// pending outbound frames, and its inbound read state.
pub struct ClientConnection {
    /// Locally unique id; never reused while the server runs.
    pub id: usize,
    /// Encoded frames awaiting transmission, oldest first.
    pub backlog: std::collections::VecDeque<Vec<u8>>,
    /// How many bytes of the oldest pending frame are already written.
    pub written: usize,
    /// Inbound partial-frame reassembly state.
    pub reader: FrameReader,
    /// All frames fully written to this client, oldest first.
    pub delivered: Ghost<Seq<Seq<u8>>>,
}

/// The pending frames of a connection, as byte sequences, oldest first.
pub open spec fn backlog_frames(c: ClientConnection) -> Seq<Seq<u8>> {
    c.backlog@.map_values(|v: Vec<u8>| v@)
}

/// Every frame ever queued for a connection, oldest first: the ones fully
/// written, then the ones still pending.
pub open spec fn enqueued_frames(c: ClientConnection) -> Seq<Seq<u8>> {
    c.delivered@ + backlog_frames(c)
}

impl ClientConnection {
    /// The write offset points inside the oldest pending frame (or is
    /// zero when nothing is pending), and the read state is consistent.
    pub open spec fn wf(self) -> bool {
        &&& self.reader.wf()
        &&& self.written > 0 ==> backlog_frames(self).len() > 0 && self.written < backlog_frames(
            self,
        )[0].len()
    }

    /// A fresh connection with the given id: empty backlog, nothing
    /// written, awaiting a length prefix.
    pub fn new(id: usize) -> (r: ClientConnection)
        ensures
            r.wf(),
            r.id == id,
            r.backlog@.len() == 0,
            r.written == 0,
            !r.reader.spec_in_frame(),
            r.delivered@.len() == 0,
    {
        ClientConnection {
            id,
            backlog: std::collections::VecDeque::new(),
            written: 0,
            reader: FrameReader::new(),
            delivered: Ghost(Seq::empty()),
        }
    }

    /// Whether any frame is pending transmission.
    pub fn has_pending(&self) -> (r: bool)
        ensures
            r == (self.backlog@.len() > 0),
    {
        self.backlog.len() > 0
    }

    /// The not-yet-written remainder of the oldest pending frame.
    pub fn next_write_chunk(&self) -> (r: Vec<u8>)
        requires
            self.wf(),
            self.backlog@.len() > 0,
        ensures
            r@ == backlog_frames(*self)[0].skip(self.written as int),
    {
        let front = &self.backlog[0];
        let mut out: Vec<u8> = Vec::new();
        let mut i: usize = self.written;
        while i < front.len()
            invariant
                self.written <= i <= front@.len(),
                front@ == self.backlog@[0]@,
                out@ == self.backlog@[0]@.subrange(self.written as int, i as int),
            decreases front@.len() - i,
        {
            out.push(front[i]);
            proof {
                assert(self.backlog@[0]@.subrange(self.written as int, i + 1) =~= self.backlog@[0]@
                    .subrange(self.written as int, i as int).push(self.backlog@[0]@[i as int]));
            }
            i = i + 1;
        }
        proof {
            assert(out@ =~= backlog_frames(*self)[0].skip(self.written as int));
        }
        out
    }

    /// Record that `n` more bytes of the oldest pending frame reached the
    /// socket.  Once the whole frame is written it leaves the backlog —
    /// and only then.  No frame is ever dropped or duplicated: the full
    /// enqueued sequence is preserved.
    pub fn note_written(&mut self, n: usize)
        requires
            old(self).wf(),
            old(self).backlog@.len() > 0,
            old(self).written + n <= backlog_frames(*old(self))[0].len(),
        ensures
            final(self).wf(),
            final(self).id == old(self).id,
            final(self).reader == old(self).reader,
            enqueued_frames(*final(self)) == enqueued_frames(*old(self)),
            ({
                let front = backlog_frames(*old(self))[0];
                if old(self).written + n == front.len() {
                    &&& final(self).delivered@ == old(self).delivered@.push(front)
                    &&& backlog_frames(*final(self)) == backlog_frames(*old(self)).drop_first()
                    &&& final(self).written == 0
                } else {
                    &&& final(self).delivered@ == old(self).delivered@
                    &&& backlog_frames(*final(self)) == backlog_frames(*old(self))
                    &&& final(self).written == old(self).written + n
                }
            }),
    {
        proof {
            assert(backlog_frames(*self)[0] == self.backlog@[0]@);
        }
        let front_len = self.backlog[0].len();
        if self.written + n == front_len {
            let ghost front = self.backlog@[0]@;
            let popped = self.backlog.pop_front();
            self.written = 0;
            proof {
                self.delivered@ = self.delivered@.push(front);
                assert(backlog_frames(*self) =~= backlog_frames(*old(self)).drop_first());
                assert(enqueued_frames(*self) =~= enqueued_frames(*old(self)));
            }
        } else {
            self.written = self.written + n;
            proof {
                assert(backlog_frames(*self) =~= backlog_frames(*old(self)));
            }
        }
    }
}

/// The frames fully written to a client are exactly the oldest part of
/// everything queued for it, in queue order: delivery is FIFO, with
/// nothing skipped.
pub proof fn lemma_delivered_is_fifo_prefix(c: ClientConnection)
    ensures
        c.delivered@ == enqueued_frames(c).take(c.delivered@.len() as int),
{
    assert(c.delivered@ =~= enqueued_frames(c).take(c.delivered@.len() as int));
}

/// A frame queued for one connection, everything else about it unchanged.
pub open spec fn queued_one_frame(c_old: ClientConnection, c_new: ClientConnection, f: Seq<u8>) -> bool {
    &&& c_new.id == c_old.id
    &&& c_new.reader == c_old.reader
    &&& c_new.written == c_old.written
    &&& c_new.delivered == c_old.delivered
    &&& backlog_frames(c_new) == backlog_frames(c_old).push(f)
}

/// The reactor's server state: the connected clients and the id counter.
pub struct ServerCore {
    /// Next id to assign; starts above the reserved ids and only grows.
    pub next_client_id: usize,
    /// All connected clients, in accept order.
    pub clients: Vec<ClientConnection>,
}

impl ServerCore {
    /// Every connection is consistent and ids are unique, below the
    /// counter, and outside the reserved range.
    pub open spec fn wf(self) -> bool {
        &&& FIRST_CLIENT_ID <= self.next_client_id
        &&& forall|i: int|
            0 <= i < self.clients@.len() ==> (#[trigger] self.clients@[i]).wf()
                && self.clients@[i].id < self.next_client_id && self.clients@[i].id
                >= FIRST_CLIENT_ID
        &&& forall|i: int, j: int|
            0 <= i < j < self.clients@.len() ==> (#[trigger] self.clients@[i]).id != (
            #[trigger] self.clients@[j]).id
    }

    /// A fresh server with no clients.
    pub fn new() -> (r: ServerCore)
        ensures
            r.wf(),
            r.clients@.len() == 0,
            r.next_client_id == FIRST_CLIENT_ID,
    {
        ServerCore { next_client_id: FIRST_CLIENT_ID, clients: Vec::new() }
    }

    /// Register a newly accepted connection under a freshly allocated id,
    /// which is returned.  Ids are never reused while the server runs.
    pub fn accept_client(&mut self) -> (id: usize)
        requires
            old(self).wf(),
            old(self).next_client_id < usize::MAX,
        ensures
            final(self).wf(),
            id == old(self).next_client_id,
            final(self).next_client_id == old(self).next_client_id + 1,
            final(self).clients@.len() == old(self).clients@.len() + 1,
            final(self).clients@.drop_last() == old(self).clients@,
            ({
                let c = final(self).clients@.last();
                &&& c.id == id
                &&& c.backlog@.len() == 0
                &&& c.written == 0
                &&& !c.reader.spec_in_frame()
                &&& c.delivered@.len() == 0
            }),
    {
        let id = self.next_client_id;
        self.next_client_id = self.next_client_id + 1;
        self.clients.push(ClientConnection::new(id));
        proof {
            assert(final(self).clients@.drop_last() =~= old(self).clients@);
        }
        id
    }

    /// Position of the client with the given id, if connected.
    pub fn client_index(&self, id: usize) -> (r: Option<usize>)
        ensures
            match r {
                Some(idx) => 0 <= idx < self.clients@.len() && self.clients@[idx as int].id == id,
                None => forall|i: int|
                    0 <= i < self.clients@.len() ==> (#[trigger] self.clients@[i]).id != id,
            },
    {
        let mut i: usize = 0;
        while i < self.clients.len()
            invariant
                i <= self.clients@.len(),
                forall|j: int| 0 <= j < i ==> (#[trigger] self.clients@[j]).id != id,
            decreases self.clients@.len() - i,
        {
            if self.clients[i].id == id {
                return Some(i);
            }
            i = i + 1;
        }
        None
    }

    /// Remove and drop the connection with the given id, if connected.
    /// Every other connection is left exactly as it was.
    pub fn drop_client(&mut self, id: usize) -> (r: Option<usize>)
        requires
            old(self).wf(),
        ensures
            final(self).wf(),
            final(self).next_client_id == old(self).next_client_id,
            match r {
                Some(idx) => 0 <= idx < old(self).clients@.len() && old(self).clients@[
                    idx as int
                ].id == id && final(self).clients@ == old(self).clients@.remove(idx as int),
                None => {
                    &&& *final(self) == *old(self)
                    &&& forall|i: int|
                        0 <= i < old(self).clients@.len() ==> (#[trigger] old(
                            self,
                        ).clients@[i]).id != id
                },
            },
    {
        let idx = match self.client_index(id) {
            Some(idx) => idx,
            None => {
                return None;
            },
        };
        self.clients.remove(idx);
        proof {
            assert forall|i: int, j: int|
                0 <= i < j < self.clients@.len() implies (#[trigger] self.clients@[i]).id != (
            #[trigger] self.clients@[j]).id by {
                assert(self.clients@[i] == if i < idx {
                    old(self).clients@[i]
                } else {
                    old(self).clients@[i + 1]
                });
                assert(self.clients@[j] == if j < idx {
                    old(self).clients@[j]
                } else {
                    old(self).clients@[j + 1]
                });
            }
        }
        Some(idx)
    }


    /// Queue one detection for every connected client: the detection is
    /// encoded once and framed, and each client's backlog gains exactly
    /// one copy, at the back, in broadcast order.  With no clients
    /// connected the detection is discarded and nothing at all changes.
    pub fn broadcast_pulse(&mut self, pulse: &Pulse)
        requires
            old(self).wf(),
        ensures
            final(self).wf(),
            final(self).next_client_id == old(self).next_client_id,
            final(self).clients@.len() == old(self).clients@.len(),
            forall|i: int|
                0 <= i < old(self).clients@.len() ==> queued_one_frame(
                    old(self).clients@[i],
                    #[trigger] final(self).clients@[i],
                    spec_frame(spec_pulse_payload(*pulse)),
                ),
            old(self).clients@.len() == 0 ==> *final(self) == *old(self),
    {
        if self.clients.len() == 0 {
            return ;
        }
        let payload = encode_pulse(pulse);
        self.broadcast_payload(&payload);
    }

    /// Feed one whole 8-byte length prefix read for the given client.
    ///
    /// A declared length over the protocol cap is a fatal violation: the
    /// offending connection is removed on the spot — and only it; every
    /// other connection is left exactly as it was.  Otherwise the
    /// client's read state opens a frame of the declared length; any
    /// partial frame still in progress is abandoned, so the caller
    /// should hand a prefix over only while the reader awaits one.
    pub fn client_prefix_arrived(&mut self, id: usize, prefix: &[u8]) -> (r: Result<
        (),
        ProtocolError,
    >)
        requires
            old(self).wf(),
            prefix@.len() == LENGTH_PREFIX_LEN,
        ensures
            final(self).wf(),
            final(self).next_client_id == old(self).next_client_id,
            ({
                let declared = u64_from_le(prefix@);
                match spec_client_index(old(self).clients@, id) {
                    Some(idx) => if declared > MAX_COMMAND_FRAME_LEN {
                        &&& r == Err::<(), ProtocolError>(ProtocolError::FrameTooLong)
                        &&& final(self).clients@ == old(self).clients@.remove(idx)
                    } else {
                        &&& r == Ok::<(), ProtocolError>(())
                        &&& final(self).clients@.len() == old(self).clients@.len()
                        &&& forall|j: int|
                            0 <= j < old(self).clients@.len() && j != idx
                                ==> final(self).clients@[j] == #[trigger] old(self).clients@[j]
                        &&& ({
                            let c_old = old(self).clients@[idx];
                            let c_new = final(self).clients@[idx];
                            &&& c_new.id == c_old.id
                            &&& c_new.backlog == c_old.backlog
                            &&& c_new.written == c_old.written
                            &&& c_new.delivered == c_old.delivered
                            &&& c_new.reader.spec_in_frame()
                            &&& c_new.reader.spec_target_len() == declared
                            &&& c_new.reader.spec_buffer().len() == 0
                        })
                    },
                    None => r == Ok::<(), ProtocolError>(()) && *final(self) == *old(self),
                }
            }),
    {
        let idx = match self.client_index(id) {
            Some(idx) => idx,
            None => {
                proof {
                    lemma_client_index_none(self.clients@, id);
                }
                return Ok(());
            },
        };
        proof {
            lemma_client_index_some(self.clients@, id, idx as int);
        }
        let c = &mut self.clients[idx];
        if !c.reader.awaiting_length() {
            let mut fresh = FrameReader::new();
            core::mem::swap(&mut c.reader, &mut fresh);
        }
        match c.reader.start_frame(prefix) {
            Ok(()) => Ok(()),
            Err(e) => {
                self.clients.remove(idx);
                proof {
                    assert forall|i: int, j: int|
                        0 <= i < j < self.clients@.len() implies (#[trigger] self.clients@[i]).id
                        != (#[trigger] self.clients@[j]).id by {
                        assert(self.clients@[i] == if i < idx {
                            old(self).clients@[i]
                        } else {
                            old(self).clients@[i + 1]
                        });
                        assert(self.clients@[j] == if j < idx {
                            old(self).clients@[j]
                        } else {
                            old(self).clients@[j + 1]
                        });
                    }
                }
                Err(e)
            },
        }
    }


    /// How many payload bytes the given client's frame in progress
    /// still needs; zero when no frame is open (or no such client).
    pub fn client_needed_bytes(&self, id: usize) -> (r: usize)
        requires
            self.wf(),
        ensures
            r == match spec_client_index(self.clients@, id) {
                Some(idx) => {
                    let rd = self.clients@[idx].reader;
                    if rd.spec_in_frame() {
                        rd.spec_target_len() - rd.spec_buffer().len()
                    } else {
                        0
                    }
                },
                None => 0,
            },
    {
        let idx = match self.client_index(id) {
            Some(idx) => idx,
            None => {
                proof {
                    lemma_client_index_none(self.clients@, id);
                }
                return 0;
            },
        };
        proof {
            lemma_client_index_some(self.clients@, id, idx as int);
        }
        let c = &self.clients[idx];
        if c.reader.awaiting_length() {
            0
        } else {
            c.reader.target_len - c.reader.buffer.len()
        }
    }

    /// Feed payload bytes read for the given client into its frame in
    /// progress.  As many of the offered bytes as the frame still needs
    /// are consumed; with no frame open (or no such client) nothing is.
    /// Every other connection is left exactly as it was.
    pub fn client_payload_arrived(&mut self, id: usize, data: &[u8]) -> (consumed: usize)
        requires
            old(self).wf(),
        ensures
            final(self).wf(),
            final(self).next_client_id == old(self).next_client_id,
            match spec_client_index(old(self).clients@, id) {
                Some(idx) => {
                    let rd = old(self).clients@[idx].reader;
                    if rd.spec_in_frame() {
                        &&& final(self).clients@.len() == old(self).clients@.len()
                        &&& forall|j: int|
                            0 <= j < old(self).clients@.len() && j != idx
                                ==> final(self).clients@[j] == #[trigger] old(self).clients@[j]
                        &&& consumed == spec_take_len(
                            rd.spec_buffer().len() as int,
                            rd.spec_target_len(),
                            data@.len() as int,
                        )
                        &&& ({
                            let c_old = old(self).clients@[idx];
                            let c_new = final(self).clients@[idx];
                            &&& c_new.id == c_old.id
                            &&& c_new.backlog == c_old.backlog
                            &&& c_new.written == c_old.written
                            &&& c_new.delivered == c_old.delivered
                            &&& c_new.reader.spec_in_frame()
                            &&& c_new.reader.spec_target_len() == rd.spec_target_len()
                            &&& c_new.reader.spec_buffer() == rd.spec_buffer() + data@.take(
                                consumed as int,
                            )
                        })
                    } else {
                        *final(self) == *old(self) && consumed == 0
                    }
                },
                None => *final(self) == *old(self) && consumed == 0,
            },
    {
        let idx = match self.client_index(id) {
            Some(idx) => idx,
            None => {
                proof {
                    lemma_client_index_none(self.clients@, id);
                }
                return 0;
            },
        };
        proof {
            lemma_client_index_some(self.clients@, id, idx as int);
        }
        if self.clients[idx].reader.awaiting_length() {
            return 0;
        }
        let c = &mut self.clients[idx];
        c.reader.accept_payload(data)
    }

    /// Hand out the given client's completed frame — exactly its
    /// declared number of payload bytes — and reset that client's read
    /// state to awaiting the next prefix.  With no completed frame (or
    /// no such client) nothing changes and nothing is returned.
    pub fn client_take_frame(&mut self, id: usize) -> (r: Option<Vec<u8>>)
        requires
            old(self).wf(),
        ensures
            final(self).wf(),
            final(self).next_client_id == old(self).next_client_id,
            match spec_client_index(old(self).clients@, id) {
                Some(idx) => {
                    let rd = old(self).clients@[idx].reader;
                    if rd.spec_in_frame() && rd.spec_buffer().len() == rd.spec_target_len() {
                        &&& final(self).clients@.len() == old(self).clients@.len()
                        &&& forall|j: int|
                            0 <= j < old(self).clients@.len() && j != idx
                                ==> final(self).clients@[j] == #[trigger] old(self).clients@[j]
                        &&& r is Some
                        &&& r->Some_0@ == rd.spec_buffer()
                        &&& r->Some_0@.len() == rd.spec_target_len()
                        &&& ({
                            let c_old = old(self).clients@[idx];
                            let c_new = final(self).clients@[idx];
                            &&& c_new.id == c_old.id
                            &&& c_new.backlog == c_old.backlog
                            &&& c_new.written == c_old.written
                            &&& c_new.delivered == c_old.delivered
                            &&& !c_new.reader.spec_in_frame()
                        })
                    } else {
                        *final(self) == *old(self) && r is None
                    }
                },
                None => *final(self) == *old(self) && r is None,
            },
    {
        let idx = match self.client_index(id) {
            Some(idx) => idx,
            None => {
                proof {
                    lemma_client_index_none(self.clients@, id);
                }
                return None;
            },
        };
        proof {
            lemma_client_index_some(self.clients@, id, idx as int);
        }
        if !self.clients[idx].reader.frame_complete() {
            return None;
        }
        let c = &mut self.clients[idx];
        Some(c.reader.take_payload())
    }

    /// Queue one framed payload for every connected client, in place.
    ///
    /// The payload is framed once; each client's backlog gains exactly
    /// one copy, at the back.  With no clients connected nothing at all
    /// changes.  Frames reach each backlog in broadcast order, so the
    /// wire order to every client is the production order.
    pub fn broadcast_payload(&mut self, payload: &Vec<u8>)
        requires
            old(self).wf(),
        ensures
            final(self).wf(),
            final(self).next_client_id == old(self).next_client_id,
            final(self).clients@.len() == old(self).clients@.len(),
            forall|i: int|
                0 <= i < old(self).clients@.len() ==> queued_one_frame(
                    old(self).clients@[i],
                    #[trigger] final(self).clients@[i],
                    spec_frame(payload@),
                ),
            old(self).clients@.len() == 0 ==> *final(self) == *old(self),
    {
        if self.clients.len() == 0 {
            return ;
        }

        let payload_len: usize = payload.len();
        proof {
            assert(payload_len <= usize::MAX);
        }
        let frame = encode_frame(payload);
        let n = self.clients.len();
        let mut i: usize = 0;
        while i < n
            invariant
                old(self).wf(),
                i <= n == self.clients@.len() == old(self).clients@.len(),
                self.next_client_id == old(self).next_client_id,
                frame@ == spec_frame(payload@),
                forall|k: int|
                    0 <= k < i ==> queued_one_frame(
                        old(self).clients@[k],
                        #[trigger] self.clients@[k],
                        spec_frame(payload@),
                    ),
                forall|k: int| i <= k < n ==> self.clients@[k] == old(self).clients@[k],
            decreases n - i,
        {
            let frame_copy = copy_bytes(&frame);
            let c = &mut self.clients[i];
            c.backlog.push_back(frame_copy);
            proof {
                assert(backlog_frames(self.clients@[i as int]) =~= backlog_frames(
                    old(self).clients@[i as int],
                ).push(spec_frame(payload@)));
            }
            i = i + 1;
        }
    }
}

/// Position of the client with the given id, or `None`: the smallest
/// matching index.
pub open spec fn spec_client_index(s: Seq<ClientConnection>, id: usize) -> Option<int>
    decreases s.len(),
{
    if s.len() == 0 {
        None
    } else if s[0].id == id {
        Some(0int)
    } else {
        match spec_client_index(s.drop_first(), id) {
            Some(i) => Some(i + 1),
            None => None,
        }
    }
}

/// Where no index matches, the lookup is `None`.
pub proof fn lemma_client_index_none(s: Seq<ClientConnection>, id: usize)
    requires
        forall|i: int| 0 <= i < s.len() ==> (#[trigger] s[i]).id != id,
    ensures
        spec_client_index(s, id) is None,
    decreases s.len(),
{
    if s.len() > 0 {
        assert(s[0].id != id);
        assert(forall|i: int|
            0 <= i < s.drop_first().len() ==> (#[trigger] s.drop_first()[i]).id != id);
        lemma_client_index_none(s.drop_first(), id);
    }
}

/// Where exactly one index matches, the lookup finds it.
pub proof fn lemma_client_index_some(s: Seq<ClientConnection>, id: usize, idx: int)
    requires
        0 <= idx < s.len(),
        s[idx].id == id,
        forall|i: int, j: int|
            0 <= i < j < s.len() ==> (#[trigger] s[i]).id != (#[trigger] s[j]).id,
    ensures
        spec_client_index(s, id) == Some(idx),
    decreases s.len(),
{
    if idx == 0 {
    } else {
        assert(s[0].id != id);
        assert(s.drop_first()[idx - 1] == s[idx]);
        assert(forall|i: int, j: int|
            0 <= i < j < s.drop_first().len() ==> (#[trigger] s.drop_first()[i]).id != (
            #[trigger] s.drop_first()[j]).id) by {
            assert(forall|i: int|
                0 <= i < s.drop_first().len() ==> s.drop_first()[i] == s[i + 1]);
        }
        lemma_client_index_some(s.drop_first(), id, idx - 1);
    }
}

/// Broadcasts compose in order: a connection that receives one frame
/// and then another holds both at the back of its backlog, in that
/// order — the wire order to every client is the production order.
pub proof fn lemma_broadcast_order(
    c0: ClientConnection,
    c1: ClientConnection,
    c2: ClientConnection,
    f1: Seq<u8>,
    f2: Seq<u8>,
)
    requires
        queued_one_frame(c0, c1, f1),
        queued_one_frame(c1, c2, f2),
    ensures
        backlog_frames(c2) == backlog_frames(c0) + seq![f1, f2],
        enqueued_frames(c2) == enqueued_frames(c0) + seq![f1, f2],
{
    assert(backlog_frames(c0).push(f1).push(f2) =~= backlog_frames(c0) + seq![f1, f2]);
    assert(enqueued_frames(c2) =~= enqueued_frames(c0) + seq![f1, f2]);
}

} // verus!
