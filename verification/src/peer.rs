//! One connection's state: the remote endpoint, whether a live socket is
//! attached, edge-triggered readiness bits, the read and write automata, the
//! packet queues, the activity clock, and the caller's data slot. All
//! transport work happens outside; this module holds every decision the
//! automata make between transport calls.

use vstd::prelude::*;
use std::collections::VecDeque;
use crate::addr::Address;
use crate::codec::{ReadState, DecModel, dec_run, dec_feed, out_model, frame_bytes, encode_frame,
    lemma_dec_run_append, lemma_dec_run_one};
use crate::error::IoErrorKind;

verus! {

/// The payloads a sequence of packet buffers holds, in order.
pub open spec fn packets_model(s: Seq<Vec<u8>>) -> Seq<Seq<u8>> {
    Seq::new(s.len(), |i: int| s[i]@)
}

/// A byte-for-byte copy of a packet buffer.
pub fn copy_packet(p: &Vec<u8>) -> (r: Vec<u8>)
    ensures
        r@ == p@,
{
    let mut r: Vec<u8> = Vec::new();
    let mut i: usize = 0;
    while i < p.len()
        invariant
            i <= p@.len(),
            r@ == p@.subrange(0, i as int),
        decreases p@.len() - i,
    {
        r.push(p[i]);
        proof {
            assert(p@.subrange(0, i as int).push(p@[i as int]) =~= p@.subrange(0, i as int + 1));
        }
        i = i + 1;
    }
    proof {
        assert(p@.subrange(0, p@.len() as int) =~= p@);
    }
    r
}

/// A frame in transmission: its wire bytes and how many were already written.
pub struct WriteState {
    pub data: Vec<u8>,
    pub done: usize,
}

/// The peer structure representing a connection to a remote endpoint.
pub struct Peer<T> {
    pub addr: Address,
    /// True iff a live socket is attached; false for a failed outbound
    /// attempt, and after `disconnect`.
    pub connected: bool,
    pub ready_readable: bool,
    pub ready_writable: bool,
    pub data: T,
    pub outgoing: VecDeque<Vec<u8>>,
    pub incoming: VecDeque<Vec<u8>>,
    pub write_state: Option<WriteState>,
    pub read_state: ReadState,
    /// The clock reading of the last successful nonzero-byte transfer.
    pub last_activity: u64,
    /// True once a Disconnect event for this peer has been queued; no further
    /// event may be produced for it, and its slot awaits deferred removal.
    pub closing: bool,
    pub idx: usize,
}

impl<T> Peer<T> {
    /// The queued outbound payloads, oldest first.
    pub open spec fn out_queue(&self) -> Seq<Seq<u8>> {
        packets_model(self.outgoing@)
    }

    /// The completed inbound payloads not yet drained, oldest first.
    pub open spec fn in_queue(&self) -> Seq<Seq<u8>> {
        packets_model(self.incoming@)
    }

    /// Whether a frame is in transmission with bytes still to write.
    pub open spec fn frame_in_progress(&self) -> bool {
        match self.write_state {
            Some(ws) => ws.done < ws.data@.len(),
            None => false,
        }
    }

    pub open spec fn wf(&self) -> bool {
        &&& self.read_state.wf()
        &&& match self.write_state {
            Some(ws) => ws.done <= ws.data@.len(),
            None => true,
        }
        &&& forall|i: int|
            0 <= i < self.outgoing@.len() ==> (#[trigger] self.outgoing@[i])@.len() <= u32::MAX
                && self.outgoing@[i]@.len() + 4 <= usize::MAX
    }

    /// The read half is untouched between the two states.
    pub open spec fn eq_read(pre: Peer<T>, post: Peer<T>) -> bool {
        &&& post.incoming == pre.incoming
        &&& post.read_state == pre.read_state
        &&& post.ready_readable == pre.ready_readable
    }

    /// The write half is untouched between the two states.
    pub open spec fn eq_write(pre: Peer<T>, post: Peer<T>) -> bool {
        &&& post.outgoing == pre.outgoing
        &&& post.write_state == pre.write_state
        &&& post.ready_writable == pre.ready_writable
    }

    /// Identity, socket state and user data are untouched between the states.
    pub open spec fn eq_meta(pre: Peer<T>, post: Peer<T>) -> bool {
        &&& post.addr == pre.addr
        &&& post.data == pre.data
        &&& post.idx == pre.idx
        &&& post.connected == pre.connected
        &&& post.closing == pre.closing
    }

    /// All fields agree between the two states but possibly the closing mark.
    pub open spec fn eq_but_closing(pre: Peer<T>, post: Peer<T>) -> bool {
        &&& Self::eq_read(pre, post)
        &&& Self::eq_write(pre, post)
        &&& post.addr == pre.addr
        &&& post.data == pre.data
        &&& post.idx == pre.idx
        &&& post.connected == pre.connected
        &&& post.last_activity == pre.last_activity
    }

    pub(crate) fn new(addr: Address, connected: bool, idx: usize, data: T, now: u64) -> (r: Peer<
        T,
    >)
        ensures
            r.wf(),
            r.addr == addr,
            r.connected == connected,
            !r.ready_readable,
            !r.ready_writable,
            r.data == data,
            r.out_queue() =~= Seq::<Seq<u8>>::empty(),
            r.in_queue() =~= Seq::<Seq<u8>>::empty(),
            r.write_state is None,
            r.read_state == ReadState::Start,
            r.last_activity == now,
            !r.closing,
            r.idx == idx,
    {
        Peer {
            addr,
            connected,
            ready_readable: false,
            ready_writable: false,
            data,
            outgoing: VecDeque::new(),
            incoming: VecDeque::new(),
            write_state: None,
            read_state: ReadState::Start,
            last_activity: now,
            closing: false,
            idx,
        }
    }

    /// True iff a live socket is attached (false for a failed outbound
    /// placeholder, and after `disconnect`).
    pub fn connected(&self) -> (r: bool)
        ensures
            r == self.connected,
    {
        self.connected
    }

    /// Merges newly reported readiness bits. Edge-triggered: a bit, once set,
    /// stays set until an I/O attempt reports it would block.
    pub fn update_ready(&mut self, readable: bool, writable: bool)
        ensures
            final(self).ready_readable == (old(self).ready_readable || readable),
            final(self).ready_writable == (old(self).ready_writable || writable),
            final(self).incoming == old(self).incoming,
            final(self).read_state == old(self).read_state,
            final(self).outgoing == old(self).outgoing,
            final(self).write_state == old(self).write_state,
            Self::eq_meta(*old(self), *final(self)),
            final(self).last_activity == old(self).last_activity,
    {
        self.ready_readable = self.ready_readable || readable;
        self.ready_writable = self.ready_writable || writable;
    }

    /// Queues a packet to be sent; a silent no-op once the socket is gone.
    pub fn send(&mut self, packet: Vec<u8>)
        requires
            old(self).wf(),
            packet@.len() <= u32::MAX,
            packet@.len() + 4 <= usize::MAX,
        ensures
            final(self).wf(),
            old(self).connected ==> final(self).out_queue() =~= old(self).out_queue().push(
                packet@,
            ),
            !old(self).connected ==> *final(self) == *old(self),
            Self::eq_read(*old(self), *final(self)),
            Self::eq_meta(*old(self), *final(self)),
            final(self).write_state == old(self).write_state,
            final(self).ready_writable == old(self).ready_writable,
            final(self).last_activity == old(self).last_activity,
    {
        if self.connected {
            let ghost pre = self.out_queue();
            self.outgoing.push_back(packet);
            proof {
                assert(self.out_queue() =~= pre.push(packet@));
            }
        }
    }

    /// Drops the socket immediately. No event is enqueued here: the reactor
    /// evicts the peer later, on inactivity or on a transport failure.
    pub fn disconnect(&mut self)
        ensures
            !final(self).connected,
            final(self).addr == old(self).addr,
            final(self).data == old(self).data,
            final(self).idx == old(self).idx,
            final(self).closing == old(self).closing,
            Self::eq_read(*old(self), *final(self)),
            Self::eq_write(*old(self), *final(self)),
            final(self).last_activity == old(self).last_activity,
    {
        self.connected = false;
    }

    /// Returns the socket address of the remote side.
    pub fn addr(&self) -> (r: Address)
        ensures
            r == self.addr,
    {
        self.addr
    }

    /// Returns a reference to associated data.
    pub fn data(&self) -> (r: &T)
        ensures
            *r == self.data,
    {
        &self.data
    }

    /// Returns a mutable reference to associated data.
    pub fn data_mut(&mut self) -> (r: &mut T)
        ensures
            *r == old(self).data,
            final(self).data == *final(r),
            final(self).addr == old(self).addr,
            final(self).idx == old(self).idx,
            final(self).connected == old(self).connected,
            final(self).closing == old(self).closing,
            Self::eq_read(*old(self), *final(self)),
            Self::eq_write(*old(self), *final(self)),
            final(self).last_activity == old(self).last_activity,
    {
        &mut self.data
    }

    /// Returns the index of this peer in the `Host` structure.
    pub fn idx(&self) -> (r: usize)
        ensures
            r == self.idx,
    {
        self.idx
    }

    /// The clock reading of the last successful nonzero-byte transfer.
    pub fn last_activity(&self) -> (r: u64)
        ensures
            r == self.last_activity,
    {
        self.last_activity
    }

    pub fn readable_ready(&self) -> (r: bool)
        ensures
            r == self.ready_readable,
    {
        self.ready_readable
    }

    pub fn writable_ready(&self) -> (r: bool)
        ensures
            r == self.ready_writable,
    {
        self.ready_writable
    }

    /// If no frame is in transmission, frames the next queued payload: the
    /// length header prepended to the payload, write offset zero. Returns
    /// whether a frame is now in transmission.
    pub fn prepare_write(&mut self) -> (r: bool)
        requires
            old(self).wf(),
        ensures
            final(self).wf(),
            r == final(self).frame_in_progress(),
            Self::eq_read(*old(self), *final(self)),
            Self::eq_meta(*old(self), *final(self)),
            final(self).ready_writable == old(self).ready_writable,
            final(self).last_activity == old(self).last_activity,
            old(self).frame_in_progress() ==> *final(self) == *old(self),
            !old(self).frame_in_progress() && old(self).out_queue().len() == 0 ==> {
                &&& final(self).write_state is None
                &&& final(self).out_queue() == old(self).out_queue()
                &&& !r
            },
            !old(self).frame_in_progress() && old(self).out_queue().len() > 0 ==> {
                &&& final(self).out_queue() =~= old(self).out_queue().drop_first()
                &&& final(self).write_state is Some
                &&& final(self).write_state->Some_0.data@ == frame_bytes(
                    old(self).out_queue()[0],
                )
                &&& final(self).write_state->Some_0.done == 0
                &&& r
            },
    {
        let in_progress = match &self.write_state {
            Some(ws) => ws.done < ws.data.len(),
            None => false,
        };
        if in_progress {
            return true;
        }
        match self.outgoing.pop_front() {
            Some(p) => {
                assert(p@ == old(self).out_queue()[0]);
                let frame = encode_frame(&p);
                self.write_state = Some(WriteState { data: frame, done: 0 });
                proof {
                    assert(self.out_queue() =~= old(self).out_queue().drop_first());
                }
                true
            },
            None => {
                self.write_state = None;
                false
            },
        }
    }

    /// Bytes of the frame in transmission; the transport is handed the suffix
    /// starting at the write offset.
    pub fn write_buf(&self) -> (r: &Vec<u8>)
        requires
            self.write_state is Some,
        ensures
            r@ == self.write_state->Some_0.data@,
    {
        match &self.write_state {
            Some(ws) => &ws.data,
            None => unreached(),
        }
    }

    /// The write offset of the frame in transmission.
    pub fn write_offset(&self) -> (r: usize)
        requires
            self.write_state is Some,
        ensures
            r == self.write_state->Some_0.done,
    {
        match &self.write_state {
            Some(ws) => ws.done,
            None => unreached(),
        }
    }

    /// Records that the transport accepted `n` more bytes of the frame in
    /// transmission; a nonzero transfer refreshes the activity clock.
    pub fn write_advance(&mut self, n: usize, now: u64)
        requires
            old(self).wf(),
            old(self).frame_in_progress(),
            n <= old(self).write_state->Some_0.data@.len() - old(self).write_state->Some_0.done,
        ensures
            final(self).wf(),
            final(self).write_state is Some,
            final(self).write_state->Some_0.data == old(self).write_state->Some_0.data,
            final(self).write_state->Some_0.done == old(self).write_state->Some_0.done + n,
            final(self).outgoing == old(self).outgoing,
            final(self).ready_writable == old(self).ready_writable,
            Self::eq_read(*old(self), *final(self)),
            Self::eq_meta(*old(self), *final(self)),
            final(self).last_activity == if n > 0 {
                now
            } else {
                old(self).last_activity
            },
    {
        let mut taken: Option<WriteState> = None;
        core::mem::swap(&mut taken, &mut self.write_state);
        match taken {
            Some(ws) => {
                let total = ws.data.len();
                assert(ws.done + n <= total);
                self.write_state = Some(WriteState { data: ws.data, done: ws.done + n });
            },
            None => {
                proof {
                    assert(false);
                }
            },
        }
        if n > 0 {
            self.last_activity = now;
        }
    }

    /// The transport reported it would block on writing: clear the writable
    /// readiness bit; it stays clear until the poller reports again.
    pub fn write_would_block(&mut self)
        ensures
            !final(self).ready_writable,
            final(self).outgoing == old(self).outgoing,
            final(self).write_state == old(self).write_state,
            Self::eq_read(*old(self), *final(self)),
            Self::eq_meta(*old(self), *final(self)),
            final(self).last_activity == old(self).last_activity,
    {
        self.ready_writable = false;
    }

    /// The transport reported it would block on reading: clear the readable
    /// readiness bit; it stays clear until the poller reports again.
    pub fn read_would_block(&mut self)
        ensures
            !final(self).ready_readable,
            final(self).incoming == old(self).incoming,
            final(self).read_state == old(self).read_state,
            Self::eq_write(*old(self), *final(self)),
            Self::eq_meta(*old(self), *final(self)),
            final(self).last_activity == old(self).last_activity,
    {
        self.ready_readable = false;
    }

    /// Feeds a chunk the transport delivered through the read automaton.
    /// Completed payloads join the inbound queue in arrival order; a nonzero
    /// chunk refreshes the activity clock. Fails, with the malformed-frame
    /// kind, exactly when the bytes contain a header that encodes length zero.
    pub fn on_read(&mut self, chunk: &[u8], now: u64) -> (r: Result<(), IoErrorKind>)
        requires
            old(self).wf(),
        ensures
            final(self).wf(),
            Self::eq_write(*old(self), *final(self)),
            Self::eq_meta(*old(self), *final(self)),
            final(self).ready_readable == old(self).ready_readable,
            r is Ok <==> dec_run(old(self).read_state.model(), chunk@) is Some,
            r is Ok ==> final(self).read_state.model() == dec_run(
                old(self).read_state.model(),
                chunk@,
            )->Some_0.0,
            r is Ok ==> final(self).in_queue() == old(self).in_queue() + dec_run(
                old(self).read_state.model(),
                chunk@,
            )->Some_0.1,
            r is Ok ==> final(self).last_activity == if chunk@.len() > 0 {
                now
            } else {
                old(self).last_activity
            },
            r is Err ==> r->Err_0 == IoErrorKind::InvalidData,
    {
        let ghost m0 = self.read_state.model();
        let ghost pre_in = self.in_queue();
        let ghost mut drained: Seq<Seq<u8>> = Seq::empty();
        proof {
            assert(chunk@.subrange(0, 0) =~= Seq::<u8>::empty());
            assert(pre_in + drained =~= pre_in);
        }
        let mut i: usize = 0;
        while i < chunk.len()
            invariant
                self.wf(),
                i <= chunk@.len(),
                m0 == old(self).read_state.model(),
                pre_in == old(self).in_queue(),
                dec_run(m0, chunk@.subrange(0, i as int)) == Some(
                    (self.read_state.model(), drained),
                ),
                self.in_queue() == pre_in + drained,
                Self::eq_write(*old(self), *self),
                Self::eq_meta(*old(self), *self),
                self.ready_readable == old(self).ready_readable,
                self.last_activity == old(self).last_activity,
            decreases chunk@.len() - i,
        {
            let x = chunk[i];
            let ghost mi = self.read_state.model();
            let mut st = ReadState::Start;
            core::mem::swap(&mut st, &mut self.read_state);
            match dec_feed(st, x) {
                Ok((st2, completed)) => {
                    self.read_state = st2;
                    proof {
                        lemma_dec_run_one(mi, x);
                        assert(dec_run(mi, seq![x]) == Some(
                            (
                                st2.model(),
                                match out_model(completed) {
                                    Some(p) => seq![p],
                                    None => Seq::<Seq<u8>>::empty(),
                                },
                            ),
                        ));
                        lemma_dec_run_append(m0, chunk@.subrange(0, i as int), seq![x]);
                        assert(chunk@.subrange(0, i as int) + seq![x] =~= chunk@.subrange(
                            0,
                            i as int + 1,
                        ));
                    }
                    match completed {
                        Some(p) => {
                            let ghost before_q = self.in_queue();
                            let ghost d0 = drained;
                            let ghost pv = p@;
                            self.incoming.push_back(p);
                            proof {
                                assert(self.in_queue() =~= before_q.push(pv));
                                drained = d0.push(pv);
                                assert(pre_in + drained =~= (pre_in + d0).push(pv));
                                assert(self.in_queue() == pre_in + drained);
                                assert(drained =~= dec_run(
                                    m0,
                                    chunk@.subrange(0, i as int + 1),
                                )->Some_0.1);
                            }
                        },
                        None => {
                            proof {
                                assert(drained =~= dec_run(
                                    m0,
                                    chunk@.subrange(0, i as int + 1),
                                )->Some_0.1);
                            }
                        },
                    }
                },
                Err(u) => {
                    self.read_state = ReadState::Start;
                    proof {
                        let suffix = chunk@.subrange(i as int, chunk@.len() as int);
                        assert(suffix[0] == x);
                        assert(dec_run(mi, suffix) is None);
                        lemma_dec_run_append(m0, chunk@.subrange(0, i as int), suffix);
                        assert(chunk@.subrange(0, i as int) + suffix =~= chunk@);
                        assert(dec_run(m0, chunk@) is None);
                    }
                    return Err(IoErrorKind::InvalidData);
                },
            }
            i = i + 1;
        }
        proof {
            assert(chunk@.subrange(0, chunk@.len() as int) =~= chunk@);
        }
        if chunk.len() > 0 {
            self.last_activity = now;
        }
        Ok(())
    }

    /// Drains and returns all payloads completed since the last call, in
    /// arrival order.
    pub fn incoming_packets(&mut self) -> (r: Vec<Vec<u8>>)
        ensures
            packets_model(r@) == old(self).in_queue(),
            final(self).in_queue() =~= Seq::<Seq<u8>>::empty(),
            final(self).read_state == old(self).read_state,
            final(self).ready_readable == old(self).ready_readable,
            Self::eq_write(*old(self), *final(self)),
            Self::eq_meta(*old(self), *final(self)),
            final(self).last_activity == old(self).last_activity,
    {
        let mut r: Vec<Vec<u8>> = Vec::new();
        proof {
            assert(packets_model(r@) + self.in_queue() =~= old(self).in_queue());
        }
        loop
            invariant
                packets_model(r@) + self.in_queue() == old(self).in_queue(),
                self.read_state == old(self).read_state,
                self.ready_readable == old(self).ready_readable,
                Self::eq_write(*old(self), *self),
                Self::eq_meta(*old(self), *self),
                self.last_activity == old(self).last_activity,
            decreases self.incoming@.len(),
        {
            match self.incoming.pop_front() {
                Some(p) => {
                    r.push(p);
                    proof {
                        assert(packets_model(r@) + self.in_queue() =~= old(self).in_queue());
                    }
                },
                None => {
                    proof {
                        assert(packets_model(r@) =~= old(self).in_queue());
                    }
                    return r;
                },
            }
        }
    }
}

} // verus!
