//! The reactor core: the peer slot table, the pending-event queue, and every
//! decision of the tick algorithm — deferred slot removal, timeout eviction,
//! the error taxonomy, readiness merging, and event ordering. The transport
//! calls themselves (poll, accept, read, write) happen outside; they hand this
//! module plain values and take plain values back.

use vstd::prelude::*;
use vstd::pervasive::VecAdditionalExecFns;
use std::collections::VecDeque;
use crate::addr::Address;
use crate::error::{IoErrorKind, recoverable, spec_recoverable};
use crate::event::{Event, EventKind};
use crate::peer::Peer;

verus! {

/// The default inactivity timeout, in milliseconds.
pub const DEFAULT_TIMEOUT_MS: u64 = 5000;

/// The default poller batch size hint.
pub const DEFAULT_EVENTS_CAPACITY: usize = 256;

/// The host structure representing all connections.
pub struct Host<T> {
    /// Whether this host was built to own a listening socket.
    pub is_server: bool,
    /// Disconnect a peer after this much inactivity, in milliseconds.
    pub timeout_ms: u64,
    /// Poller batch size hint, recorded for the shell that owns the poller.
    pub events_capacity: usize,
    /// The pending events, delivered one per call in FIFO order.
    pub events: VecDeque<Event>,
    /// The peer table; a slot is free when it holds nothing.
    pub peers: Vec<Option<Peer<T>>>,
    /// A slot whose Disconnect was just delivered, freed on the next call.
    pub remove: Option<usize>,
    /// The events delivered to the caller so far, oldest first.
    pub history: Ghost<Seq<Event>>,
}

/// The stage one slot is in, as the delivered events tell it: no connection,
/// or a connection open.
pub enum LifePhase {
    Idle,
    Open,
}

/// Replays the delivered events and yields the stage slot `i` is in after
/// them, or `None` if the sequence ever violated the per-peer order: a
/// Connect is accepted only when idle, a Receive or Disconnect only while
/// open, so a valid history reads, per peer, Connect first, then Receives,
/// then at most one Disconnect ending the lifecycle.
pub open spec fn phase_after(hist: Seq<Event>, i: int) -> Option<LifePhase>
    decreases hist.len(),
{
    if hist.len() == 0 {
        Some(LifePhase::Idle)
    } else {
        match phase_after(hist.drop_last(), i) {
            None => None,
            Some(ph) => {
                let e = hist.last();
                if e.peer != i {
                    Some(ph)
                } else {
                    match ph {
                        LifePhase::Idle => match e.kind {
                            EventKind::Connect => Some(LifePhase::Open),
                            _ => None,
                        },
                        LifePhase::Open => match e.kind {
                            EventKind::Connect => None,
                            EventKind::Disconnect => Some(LifePhase::Idle),
                            EventKind::Receive(u) => Some(LifePhase::Open),
                        },
                    }
                }
            },
        }
    }
}

/// One delivered event moves each slot's stage by one step of the lifecycle
/// automaton.
pub proof fn lemma_phase_push(hist: Seq<Event>, e: Event, i: int)
    ensures
        phase_after(hist.push(e), i) == match phase_after(hist, i) {
            None => None::<LifePhase>,
            Some(ph) => {
                if e.peer != i {
                    Some(ph)
                } else {
                    match ph {
                        LifePhase::Idle => match e.kind {
                            EventKind::Connect => Some(LifePhase::Open),
                            _ => None::<LifePhase>,
                        },
                        LifePhase::Open => match e.kind {
                            EventKind::Connect => None::<LifePhase>,
                            EventKind::Disconnect => Some(LifePhase::Idle),
                            EventKind::Receive(u) => Some(LifePhase::Open),
                        },
                    }
                }
            },
        },
{
    assert(hist.push(e).drop_last() =~= hist);
    assert(hist.push(e).last() == e);
}

impl<T> Host<T> {
    /// Slot `i` holds a peer.
    pub open spec fn occupied(&self, i: int) -> bool {
        0 <= i < self.peers@.len() && self.peers@[i] is Some
    }

    /// The peer in slot `i`.
    pub open spec fn peer_at(&self, i: int) -> Peer<T>
        recommends
            self.occupied(i),
    {
        self.peers@[i]->Some_0
    }

    /// The pending events, head first.
    pub open spec fn evs(&self) -> Seq<Event> {
        self.events@
    }

    /// A Disconnect event for slot `i` is pending.
    pub open spec fn has_disconnect_for(&self, i: int) -> bool {
        exists|j: int|
            0 <= j < self.evs().len() && (#[trigger] self.evs()[j]).peer == i
                && self.evs()[j].kind is Disconnect
    }

    /// A Connect event for slot `i` is pending.
    pub open spec fn has_connect_for(&self, i: int) -> bool {
        exists|j: int|
            0 <= j < self.evs().len() && (#[trigger] self.evs()[j]).peer == i
                && self.evs()[j].kind is Connect
    }

    /// Slot `i` is in an open lifecycle as the caller sees it: it holds a
    /// peer whose Connect has been delivered and whose Disconnect has not.
    pub open spec fn lifecycle_open(&self, i: int) -> bool {
        self.occupied(i) && !self.has_connect_for(i) && !(self.remove is Some && self.remove->0
            == i)
    }

    /// The well-formedness of the reactor state. Besides each peer's own
    /// well-formedness it pins the event-ordering discipline: every pending
    /// event names an occupied slot; per slot, a Disconnect is the last and a
    /// Connect the first pending event; a Disconnect is pending only for a
    /// peer marked closing, and a closing peer always has its Disconnect
    /// either pending or just delivered (slot awaiting removal); a slot
    /// awaiting removal has no pending events at all.
    pub open spec fn wf(&self) -> bool {
        &&& forall|i: int|
            #[trigger] self.occupied(i) ==> self.peer_at(i).wf() && self.peer_at(i).idx == i
        &&& forall|j: int|
            0 <= j < self.evs().len() ==> self.occupied((#[trigger] self.evs()[j]).peer as int)
        &&& forall|j1: int, j2: int|
            #![trigger self.evs()[j1], self.evs()[j2]]
            0 <= j1 < j2 < self.evs().len() && self.evs()[j1].peer == self.evs()[j2].peer ==> !(
            self.evs()[j1].kind is Disconnect) && !(self.evs()[j2].kind is Connect)
        &&& forall|j: int|
            0 <= j < self.evs().len() && (#[trigger] self.evs()[j]).kind is Disconnect
                ==> self.peer_at(self.evs()[j].peer as int).closing
        &&& forall|i: int|
            #[trigger] self.occupied(i) && self.peer_at(i).closing ==> ((self.remove is Some
                && self.remove->0 == i) || self.has_disconnect_for(i))
        &&& match self.remove {
            Some(ri) => self.occupied(ri as int) && self.peer_at(ri as int).closing && forall|
                j: int,
            |
                0 <= j < self.evs().len() ==> (#[trigger] self.evs()[j]).peer != ri,
            None => true,
        }
        &&& forall|i: int|
            #![trigger phase_after(self.history@, i)]
            phase_after(self.history@, i) == if self.lifecycle_open(i) {
                Some(LifePhase::Open)
            } else {
                Some(LifePhase::Idle)
            }
    }

    /// Creates a `HostBuilder`.
    ///
    /// Convenience method.
    pub fn builder() -> (r: HostBuilder<T>)
        ensures
            r.timeout_ms == DEFAULT_TIMEOUT_MS,
            r.events_capacity == DEFAULT_EVENTS_CAPACITY,
    {
        HostBuilder {
            events_capacity: DEFAULT_EVENTS_CAPACITY,
            timeout_ms: DEFAULT_TIMEOUT_MS,
            data: core::marker::PhantomData,
        }
    }

    /// Whether slot `idx` currently holds a peer.
    pub fn has_peer(&self, idx: usize) -> (r: bool)
        ensures
            r == self.occupied(idx as int),
    {
        idx < self.peers.len() && match &self.peers[idx] {
            Some(p) => true,
            None => false,
        }
    }

    /// Returns a reference to the peer in this slot, None if the slot is
    /// free or out of range.
    pub fn peer(&self, idx: usize) -> (r: Option<&Peer<T>>)
        ensures
            match r {
                Some(p) => self.occupied(idx as int) && *p == self.peer_at(idx as int),
                None => !self.occupied(idx as int),
            },
    {
        if idx < self.peers.len() {
            match &self.peers[idx] {
                Some(p) => Some(p),
                None => None,
            }
        } else {
            None
        }
    }

    /// Returns a mutable reference to the peer in this slot. The slot must be
    /// occupied; check with `has_peer` first.
    pub fn peer_mut(&mut self, idx: usize) -> (r: &mut Peer<T>)
        requires
            old(self).occupied(idx as int),
        ensures
            *r == old(self).peer_at(idx as int),
            final(self).peers@ == old(self).peers@.update(idx as int, Some(*final(r))),
            final(self).events == old(self).events,
            final(self).remove == old(self).remove,
            final(self).history == old(self).history,
            final(self).is_server == old(self).is_server,
            final(self).timeout_ms == old(self).timeout_ms,
            final(self).events_capacity == old(self).events_capacity,
    {
        let slot = vstd::std_specs::vec::vec_index_mut(&mut self.peers, idx);
        match slot {
            Some(p) => p,
            None => unreached(),
        }
    }

    /// The slot ids of the connected peers among the first `n` slots, in
    /// ascending order.
    pub open spec fn connected_slots_upto(&self, n: int) -> Seq<usize>
        decreases n,
    {
        if n <= 0 {
            Seq::empty()
        } else if self.occupied(n - 1) && self.peer_at(n - 1).connected {
            self.connected_slots_upto(n - 1).push((n - 1) as usize)
        } else {
            self.connected_slots_upto(n - 1)
        }
    }

    /// The slot ids of all currently connected peers, in ascending order.
    pub open spec fn connected_slots(&self) -> Seq<usize> {
        self.connected_slots_upto(self.peers@.len() as int)
    }

    /// Returns the slot ids of all currently connected peers, in ascending
    /// order.
    pub fn peers(&self) -> (r: Vec<usize>)
        ensures
            r@ == self.connected_slots(),
    {
        let mut r: Vec<usize> = Vec::new();
        let mut idx: usize = 0;
        while idx < self.peers.len()
            invariant
                idx <= self.peers@.len(),
                r@ == self.connected_slots_upto(idx as int),
            decreases self.peers@.len() - idx,
        {
            let keep = match &self.peers[idx] {
                Some(p) => p.connected(),
                None => false,
            };
            if keep {
                r.push(idx);
            }
            idx = idx + 1;
        }
        r
    }

    /// Every slot id that `connected_slots` lists is an occupied slot holding
    /// a connected peer, and every such slot is listed.
    pub proof fn lemma_connected_slots(&self, n: int)
        requires
            0 <= n <= self.peers@.len(),
        ensures
            forall|k: int|
                0 <= k < self.connected_slots_upto(n).len() ==> {
                    let s = (#[trigger] self.connected_slots_upto(n)[k]) as int;
                    self.occupied(s) && self.peer_at(s).connected && s < n
                },
            forall|i: int|
                0 <= i < n && self.occupied(i) && self.peer_at(i).connected
                    ==> self.connected_slots_upto(n).contains(i as usize),
        decreases n,
    {
        if n > 0 {
            assert(self.peers.len() == self.peers@.len());
            self.lemma_connected_slots(n - 1);
            let pre = self.connected_slots_upto(n - 1);
            let cur = self.connected_slots_upto(n);
            assert forall|k: int|
                0 <= k < cur.len() implies {
                let s = (#[trigger] cur[k]) as int;
                self.occupied(s) && self.peer_at(s).connected && s < n
            } by {
                if self.occupied(n - 1) && self.peer_at(n - 1).connected {
                    if k < pre.len() {
                        assert(cur[k] == pre[k]);
                    } else {
                        assert(cur[k] == (n - 1) as usize);
                    }
                } else {
                    assert(cur[k] == pre[k]);
                }
            }
            assert forall|i: int|
                0 <= i < n && self.occupied(i) && self.peer_at(i).connected implies cur.contains(
                i as usize,
            ) by {
                if i < n - 1 {
                    let k = choose|k: int| 0 <= k < pre.len() && pre[k] == i as usize;
                    assert(cur[k] == i as usize);
                } else {
                    assert(cur[cur.len() - 1] == i as usize);
                }
            }
        }
    }

    /// The first free slot, or the table's length if every slot is taken.
    fn first_free(&self) -> (r: usize)
        ensures
            r <= self.peers@.len(),
            r < self.peers@.len() ==> !self.occupied(r as int),
            forall|i: int| 0 <= i < r ==> self.occupied(i),
    {
        let mut idx: usize = 0;
        while idx < self.peers.len()
            invariant
                idx <= self.peers@.len(),
                forall|i: int| 0 <= i < idx ==> self.occupied(i),
            decreases self.peers@.len() - idx,
        {
            let free = match &self.peers[idx] {
                Some(p) => false,
                None => true,
            };
            if free {
                return idx;
            }
            idx = idx + 1;
        }
        idx
    }

    /// Installs `p` in slot `idx`, which must be free or one past the end.
    fn install(&mut self, idx: usize, p: Peer<T>)
        requires
            (idx as int) <= old(self).peers@.len(),
            (idx as int) < old(self).peers@.len() ==> !old(self).occupied(idx as int),
        ensures
            final(self).peers@.len() == if (idx as int) < old(self).peers@.len() {
                old(self).peers@.len()
            } else {
                old(self).peers@.len() + 1
            },
            final(self).occupied(idx as int),
            final(self).peer_at(idx as int) == p,
            forall|i: int|
                0 <= i < old(self).peers@.len() && i != idx ==> final(self).peers@[i] == old(
                    self,
                ).peers@[i],
            final(self).events == old(self).events,
            final(self).remove == old(self).remove,
            final(self).history == old(self).history,
            final(self).is_server == old(self).is_server,
            final(self).timeout_ms == old(self).timeout_ms,
            final(self).events_capacity == old(self).events_capacity,
    {
        if idx < self.peers.len() {
            self.peers.set(idx, Some(p));
        } else {
            self.peers.push(Some(p));
        }
    }
    /// The decision core of an outbound connection attempt: allocates the
    /// first free slot for the new peer and queues its Connect event. For an
    /// attempt the remote side refused synchronously (`connected` false) the
    /// peer gets no socket and its Disconnect event is queued immediately
    /// after the Connect, so the lifecycle stays symmetric.
    pub fn register_outgoing(&mut self, addr: Address, connected: bool, data: T, now: u64) -> (idx:
        usize)
        requires
            old(self).wf(),
        ensures
            final(self).wf(),
            !old(self).occupied(idx as int),
            (idx as int) <= old(self).peers@.len(),
            final(self).occupied(idx as int),
            forall|i: int|
                0 <= i < old(self).peers@.len() && i != idx ==> final(self).peers@[i] == old(
                    self,
                ).peers@[i],
            final(self).peers@.len() as int == if (idx as int) < old(self).peers@.len() {
                old(self).peers@.len() as int
            } else {
                old(self).peers@.len() as int + 1
            },
            ({
                let p = final(self).peer_at(idx as int);
                &&& p.addr == addr
                &&& p.connected == connected
                &&& p.data == data
                &&& p.idx == idx
                &&& p.last_activity == now
                &&& p.closing == !connected
                &&& p.in_queue().len() == 0
                &&& p.out_queue().len() == 0
            }),
            connected ==> final(self).evs() == old(self).evs().push(
                Event { kind: EventKind::Connect, peer: idx },
            ),
            !connected ==> final(self).evs() == old(self).evs().push(
                Event { kind: EventKind::Connect, peer: idx },
            ).push(Event { kind: EventKind::Disconnect, peer: idx }),
            final(self).remove == old(self).remove,
            final(self).history == old(self).history,
            final(self).is_server == old(self).is_server,
            final(self).timeout_ms == old(self).timeout_ms,
            final(self).events_capacity == old(self).events_capacity,
    {
        let idx = self.first_free();
        let mut p = Peer::new(addr, connected, idx, data, now);
        if !connected {
            p.closing = true;
        }
        self.install(idx, p);
        self.events.push_back(Event { kind: EventKind::Connect, peer: idx });
        if !connected {
            self.events.push_back(Event { kind: EventKind::Disconnect, peer: idx });
        }
        proof {
            let h0 = *old(self);
            assert forall|j: int|
                0 <= j < h0.evs().len() implies (#[trigger] h0.evs()[j]).peer != idx by {
                assert(h0.occupied(h0.evs()[j].peer as int));
            }
            assert forall|i: int|
                #[trigger] self.occupied(i) implies self.peer_at(i).wf() && self.peer_at(i).idx
                    == i by {
                if i != idx {
                    assert(h0.occupied(i));
                }
            }
            assert forall|j: int|
                0 <= j < self.evs().len() implies self.occupied(
                (#[trigger] self.evs()[j]).peer as int,
            ) by {
                if j < h0.evs().len() {
                    assert(self.evs()[j] == h0.evs()[j]);
                    assert(h0.occupied(h0.evs()[j].peer as int));
                } else {
                    assert(self.evs()[j].peer == idx);
                }
            }
            assert forall|j1: int, j2: int|
                #![trigger self.evs()[j1], self.evs()[j2]]
                0 <= j1 < j2 < self.evs().len() && self.evs()[j1].peer
                    == self.evs()[j2].peer implies !(self.evs()[j1].kind is Disconnect) && !(
            self.evs()[j2].kind is Connect) by {
                if j2 < h0.evs().len() {
                    assert(self.evs()[j1] == h0.evs()[j1] && self.evs()[j2] == h0.evs()[j2]);
                } else {
                    if j1 < h0.evs().len() {
                        assert(self.evs()[j2].peer == idx);
                        assert(h0.evs()[j1].peer != idx);
                    }
                }
            }
            assert forall|j: int|
                0 <= j < self.evs().len() && (#[trigger] self.evs()[j]).kind
                    is Disconnect implies self.peer_at(self.evs()[j].peer as int).closing by {
                if j < h0.evs().len() {
                    assert(self.evs()[j] == h0.evs()[j]);
                    assert(h0.peer_at(h0.evs()[j].peer as int).closing);
                    assert(h0.evs()[j].peer != idx);
                }
            }
            assert forall|i: int|
                #[trigger] self.occupied(i) && self.peer_at(i).closing implies ((self.remove
                    is Some && self.remove->0 == i) || self.has_disconnect_for(i)) by {
                if i == idx {
                    if !connected {
                        assert(self.evs()[self.evs().len() - 1].peer == idx && self.evs()[
                            self.evs().len() - 1].kind is Disconnect);
                        assert(self.has_disconnect_for(i));
                    }
                } else {
                    assert(h0.occupied(i) && h0.peer_at(i).closing);
                    if h0.has_disconnect_for(i) {
                        let j = choose|j: int|
                            0 <= j < h0.evs().len() && (#[trigger] h0.evs()[j]).peer == i
                                && h0.evs()[j].kind is Disconnect;
                        assert(self.evs()[j] == h0.evs()[j]);
                        assert(self.has_disconnect_for(i));
                    }
                }
            }
            match self.remove {
                Some(ri) => {
                    assert(h0.occupied(ri as int));
                    assert(ri != idx);
                    assert forall|j: int|
                        0 <= j < self.evs().len() implies (#[trigger] self.evs()[j]).peer
                            != ri by {
                        if j < h0.evs().len() {
                            assert(self.evs()[j] == h0.evs()[j]);
                        } else {
                            assert(self.evs()[j].peer == idx);
                        }
                    }
                },
                None => {},
            }
            assert forall|i: int|
                #![trigger phase_after(self.history@, i)]
                phase_after(self.history@, i) == if self.lifecycle_open(i) {
                Some(LifePhase::Open)
            } else {
                Some(LifePhase::Idle)
            } by {
                assert(phase_after(h0.history@, i) == if h0.lifecycle_open(i) {
                    Some(LifePhase::Open)
                } else {
                    Some(LifePhase::Idle)
                });
                if i == idx {
                    assert(!h0.occupied(i));
                    assert(self.evs()[h0.evs().len() as int].peer == idx && self.evs()[
                        h0.evs().len() as int].kind is Connect);
                    assert(self.has_connect_for(i));
                    assert(!self.lifecycle_open(i) && !h0.lifecycle_open(i));
                } else {
                    assert(self.occupied(i) == h0.occupied(i));
                    assert(self.has_connect_for(i) == h0.has_connect_for(i)) by {
                        if h0.has_connect_for(i) {
                            let j = choose|j: int|
                                0 <= j < h0.evs().len() && (#[trigger] h0.evs()[j]).peer == i
                                    && h0.evs()[j].kind is Connect;
                            assert(self.evs()[j] == h0.evs()[j]);
                        }
                        if self.has_connect_for(i) {
                            let j = choose|j: int|
                                0 <= j < self.evs().len() && (#[trigger] self.evs()[j]).peer == i
                                    && self.evs()[j].kind is Connect;
                            assert(j < h0.evs().len());
                            assert(h0.evs()[j] == self.evs()[j]);
                        }
                    }
                }
            }
        }
        idx
    }

    /// The decision core of accepting one inbound connection: allocates the
    /// first free slot for the new peer and queues its Connect event.
    pub fn register_incoming(&mut self, addr: Address, data: T, now: u64) -> (idx: usize)
        requires
            old(self).wf(),
        ensures
            final(self).wf(),
            !old(self).occupied(idx as int),
            (idx as int) <= old(self).peers@.len(),
            final(self).occupied(idx as int),
            forall|i: int|
                0 <= i < old(self).peers@.len() && i != idx ==> final(self).peers@[i] == old(
                    self,
                ).peers@[i],
            ({
                let p = final(self).peer_at(idx as int);
                &&& p.addr == addr
                &&& p.connected
                &&& p.data == data
                &&& p.idx == idx
                &&& p.last_activity == now
                &&& !p.closing
                &&& p.in_queue().len() == 0
                &&& p.out_queue().len() == 0
            }),
            final(self).evs() == old(self).evs().push(
                Event { kind: EventKind::Connect, peer: idx },
            ),
            final(self).remove == old(self).remove,
            final(self).history == old(self).history,
            final(self).is_server == old(self).is_server,
            final(self).timeout_ms == old(self).timeout_ms,
            final(self).events_capacity == old(self).events_capacity,
    {
        self.register_outgoing(addr, true, data, now)
    }

    /// One delivery step of the reactor: first frees the slot whose
    /// Disconnect the previous call delivered, then pops and returns the head
    /// pending event, if any. A returned Disconnect marks its slot for
    /// removal at the start of the next call, so the slot id stays valid
    /// while the caller handles the event; the slot cannot be reassigned
    /// before then.
    pub fn pop_event(&mut self) -> (r: Option<Event>)
        requires
            old(self).wf(),
        ensures
            final(self).wf(),
            final(self).peers@ == match old(self).remove {
                Some(ri) => old(self).peers@.update(ri as int, None::<Peer<T>>),
                None => old(self).peers@,
            },
            old(self).evs().len() == 0 ==> r is None && final(self).evs() == old(self).evs(),
            old(self).evs().len() > 0 ==> r == Some(old(self).evs()[0]) && final(self).evs()
                == old(self).evs().drop_first(),
            final(self).remove == if old(self).evs().len() > 0 && old(self).evs()[0].kind
                is Disconnect {
                Some(old(self).evs()[0].peer)
            } else {
                None::<usize>
            },
            final(self).history@ == match r {
                Some(e) => old(self).history@.push(e),
                None => old(self).history@,
            },
            final(self).is_server == old(self).is_server,
            final(self).timeout_ms == old(self).timeout_ms,
            final(self).events_capacity == old(self).events_capacity,
    {
        let mut rm: Option<usize> = None;
        core::mem::swap(&mut rm, &mut self.remove);
        match rm {
            Some(ri) => {
                assert(ri < self.peers.len());
                self.peers.set(ri, None);
            },
            None => {},
        }
        let ghost h1 = *self;
        proof {
            let h0 = *old(self);
            assert forall|j: int|
                0 <= j < h1.evs().len() implies h1.occupied(
                (#[trigger] h1.evs()[j]).peer as int,
            ) by {
                assert(h0.occupied(h0.evs()[j].peer as int));
                match h0.remove {
                    Some(ri) => {
                        assert(h0.evs()[j].peer != ri);
                    },
                    None => {},
                }
            }
        }
        let popped = self.events.pop_front();
        match popped {
            Some(ev) => {
                let is_d = match &ev.kind {
                    EventKind::Disconnect => true,
                    _ => false,
                };
                if is_d {
                    self.remove = Some(ev.peer);
                }
                proof {
                    self.history@ = self.history@.push(ev);
                }
                proof {
                    let h0 = *old(self);
                    assert(h1.evs() == h0.evs());
                    assert(self.evs() =~= h1.evs().drop_first());
                    assert forall|i: int|
                        #[trigger] self.occupied(i) implies self.peer_at(i).wf()
                            && self.peer_at(i).idx == i by {
                        assert(h0.occupied(i));
                    }
                    assert forall|j: int|
                        0 <= j < self.evs().len() implies self.occupied(
                        (#[trigger] self.evs()[j]).peer as int,
                    ) by {
                        assert(self.evs()[j] == h1.evs()[j + 1]);
                        assert(h1.occupied(h1.evs()[j + 1].peer as int));
                    }
                    assert forall|j1: int, j2: int|
                        #![trigger self.evs()[j1], self.evs()[j2]]
                        0 <= j1 < j2 < self.evs().len() && self.evs()[j1].peer
                            == self.evs()[j2].peer implies !(self.evs()[j1].kind is Disconnect)
                        && !(self.evs()[j2].kind is Connect) by {
                        assert(self.evs()[j1] == h1.evs()[j1 + 1]);
                        assert(self.evs()[j2] == h1.evs()[j2 + 1]);
                    }
                    assert forall|j: int|
                        0 <= j < self.evs().len() && (#[trigger] self.evs()[j]).kind
                            is Disconnect implies self.peer_at(
                        self.evs()[j].peer as int,
                    ).closing by {
                        assert(self.evs()[j] == h1.evs()[j + 1]);
                        assert(h0.peer_at(h0.evs()[j + 1].peer as int).closing);
                    }
                    assert forall|i: int|
                        #[trigger] self.occupied(i) && self.peer_at(i).closing implies ((
                        self.remove is Some && self.remove->0 == i) || self.has_disconnect_for(
                            i,
                        )) by {
                        assert(h0.occupied(i) && h0.peer_at(i).closing);
                        match h0.remove {
                            Some(ri) => {
                                assert(i != ri);
                            },
                            None => {},
                        }
                        assert(h0.has_disconnect_for(i));
                        let j = choose|j: int|
                            0 <= j < h0.evs().len() && (#[trigger] h0.evs()[j]).peer == i
                                && h0.evs()[j].kind is Disconnect;
                        if j == 0 {
                            assert(is_d && ev.peer == i);
                        } else {
                            assert(self.evs()[j - 1] == h1.evs()[j]);
                            assert(self.has_disconnect_for(i));
                        }
                    }
                    match self.remove {
                        Some(ri) => {
                            assert(ri == ev.peer);
                            assert(h1.occupied(ri as int));
                            assert(h0.evs()[0].kind is Disconnect);
                            assert(self.peer_at(ri as int).closing);
                            assert forall|j: int|
                                0 <= j < self.evs().len() implies (#[trigger] self.evs()[j]).peer
                                    != ri by {
                                assert(self.evs()[j] == h1.evs()[j + 1]);
                                if h1.evs()[j + 1].peer == ri {
                                    assert(h0.evs()[0].peer == h0.evs()[j + 1].peer);
                                    assert(!(h0.evs()[0].kind is Disconnect));
                                }
                            }
                        },
                        None => {},
                    }
                    assert forall|i: int|
                        #![trigger phase_after(self.history@, i)]
                        phase_after(self.history@, i) == if self.lifecycle_open(i) {
                        Some(LifePhase::Open)
                    } else {
                        Some(LifePhase::Idle)
                    } by {
                        assert(phase_after(h0.history@, i) == if h0.lifecycle_open(i) {
                            Some(LifePhase::Open)
                        } else {
                            Some(LifePhase::Idle)
                        });
                        lemma_phase_push(h0.history@, ev, i);
                        assert(self.history@ == h0.history@.push(ev));
                        assert(ev == h0.evs()[0]);
                        if ev.peer == i {
                            match h0.remove {
                                Some(ri) => {
                                    assert(h0.evs()[0].peer != ri);
                                },
                                None => {},
                            }
                            assert(h0.occupied(i));
                            assert(self.occupied(i) == h0.occupied(i));
                            match ev.kind {
                                EventKind::Connect => {
                                    assert(h0.has_connect_for(i));
                                    assert(!h0.lifecycle_open(i));
                                    assert(!self.has_connect_for(i)) by {
                                        if self.has_connect_for(i) {
                                            let j = choose|j: int|
                                                0 <= j < self.evs().len() && (#[trigger] self.evs()[
                                                    j]).peer == i && self.evs()[j].kind is Connect;
                                            assert(self.evs()[j] == h1.evs()[j + 1]);
                                            assert(h0.evs()[0].peer == h0.evs()[j + 1].peer);
                                            assert(!(h0.evs()[j + 1].kind is Connect));
                                        }
                                    }
                                    assert(self.remove is None);
                                    assert(self.lifecycle_open(i));
                                },
                                EventKind::Disconnect => {
                                    assert(!h0.has_connect_for(i)) by {
                                        if h0.has_connect_for(i) {
                                            let j = choose|j: int|
                                                0 <= j < h0.evs().len() && (#[trigger] h0.evs()[
                                                    j]).peer == i && h0.evs()[j].kind is Connect;
                                            assert(j > 0);
                                            assert(!(h0.evs()[j].kind is Connect));
                                        }
                                    }
                                    assert(h0.lifecycle_open(i));
                                    assert(self.remove == Some(ev.peer));
                                    assert(!self.lifecycle_open(i));
                                },
                                EventKind::Receive(u) => {
                                    assert(!h0.has_connect_for(i)) by {
                                        if h0.has_connect_for(i) {
                                            let j = choose|j: int|
                                                0 <= j < h0.evs().len() && (#[trigger] h0.evs()[
                                                    j]).peer == i && h0.evs()[j].kind is Connect;
                                            assert(j > 0);
                                            assert(!(h0.evs()[j].kind is Connect));
                                        }
                                    }
                                    assert(h0.lifecycle_open(i));
                                    assert(!self.has_connect_for(i)) by {
                                        if self.has_connect_for(i) {
                                            let j = choose|j: int|
                                                0 <= j < self.evs().len() && (#[trigger] self.evs()[
                                                    j]).peer == i && self.evs()[j].kind is Connect;
                                            assert(self.evs()[j] == h1.evs()[j + 1]);
                                            assert(!(h0.evs()[j + 1].kind is Connect));
                                        }
                                    }
                                    assert(self.remove is None);
                                    assert(self.lifecycle_open(i));
                                },
                            }
                        } else {
                            assert(self.lifecycle_open(i) == h0.lifecycle_open(i)) by {
                                let freed = match h0.remove {
                                    Some(ri) => i == ri,
                                    None => false,
                                };
                                if freed {
                                    assert(!h0.lifecycle_open(i));
                                    assert(!self.occupied(i));
                                } else {
                                    assert(self.occupied(i) == h0.occupied(i));
                                    assert(self.has_connect_for(i) == h0.has_connect_for(i)) by {
                                        if h0.has_connect_for(i) {
                                            let j = choose|j: int|
                                                0 <= j < h0.evs().len() && (#[trigger] h0.evs()[
                                                    j]).peer == i && h0.evs()[j].kind is Connect;
                                            assert(j != 0);
                                            assert(self.evs()[j - 1] == h1.evs()[j]);
                                            assert(self.has_connect_for(i));
                                        }
                                        if self.has_connect_for(i) {
                                            let j = choose|j: int|
                                                0 <= j < self.evs().len() && (#[trigger] self.evs()[
                                                    j]).peer == i && self.evs()[j].kind is Connect;
                                            assert(self.evs()[j] == h1.evs()[j + 1]);
                                            assert(h0.has_connect_for(i));
                                        }
                                    }
                                }
                            }
                        }
                    }
                }
                Some(ev)
            },
            None => {
                proof {
                    let h0 = *old(self);
                    assert forall|i: int|
                        #[trigger] self.occupied(i) implies self.peer_at(i).wf()
                            && self.peer_at(i).idx == i by {
                        assert(h0.occupied(i));
                    }
                    assert forall|i: int|
                        #[trigger] self.occupied(i) && self.peer_at(i).closing implies ((
                        self.remove is Some && self.remove->0 == i) || self.has_disconnect_for(
                            i,
                        )) by {
                        assert(h0.occupied(i) && h0.peer_at(i).closing);
                        match h0.remove {
                            Some(ri) => {
                                assert(i != ri);
                            },
                            None => {},
                        }
                        assert(h0.has_disconnect_for(i));
                        assert(false);
                    }
                    assert forall|i: int|
                        #![trigger phase_after(self.history@, i)]
                        phase_after(self.history@, i) == if self.lifecycle_open(i) {
                        Some(LifePhase::Open)
                    } else {
                        Some(LifePhase::Idle)
                    } by {
                        assert(phase_after(h0.history@, i) == if h0.lifecycle_open(i) {
                            Some(LifePhase::Open)
                        } else {
                            Some(LifePhase::Idle)
                        });
                        assert(self.history@ == h0.history@);
                        assert(self.lifecycle_open(i) == h0.lifecycle_open(i)) by {
                            let freed = match h0.remove {
                                Some(ri) => i == ri,
                                None => false,
                            };
                            if freed {
                                assert(!h0.lifecycle_open(i));
                                assert(!self.occupied(i));
                            } else {
                                assert(self.occupied(i) == h0.occupied(i));
                                assert(self.evs().len() == 0 && h0.evs().len() == 0);
                            }
                        }
                    }
                }
                None
            },
        }
    }
    /// Slot `i` has shown no activity for at least the inactivity timeout.
    pub open spec fn timed_out(&self, i: int, now: u64) -> bool {
        self.occupied(i) && now >= self.peer_at(i).last_activity && now - self.peer_at(
            i,
        ).last_activity >= self.timeout_ms
    }

    /// The slots among the first `n` that are due for transport work this
    /// tick: occupied, connected, and not timed out; in ascending order.
    pub open spec fn io_slots_upto(&self, n: int, now: u64) -> Seq<usize>
        decreases n,
    {
        if n <= 0 {
            Seq::empty()
        } else if self.occupied(n - 1) && self.peer_at(n - 1).connected && !self.timed_out(
            n - 1,
            now,
        ) {
            self.io_slots_upto(n - 1, now).push((n - 1) as usize)
        } else {
            self.io_slots_upto(n - 1, now)
        }
    }

    /// The slots due for transport work this tick, in ascending order.
    pub open spec fn io_slots(&self, now: u64) -> Seq<usize> {
        self.io_slots_upto(self.peers@.len() as int, now)
    }

    /// Marks the peer in this slot closing: its Disconnect is being queued
    /// and no further event may be produced for it.
    fn mark_closing(&mut self, idx: usize)
        requires
            old(self).occupied(idx as int),
        ensures
            final(self).peers@.len() == old(self).peers@.len(),
            forall|i: int|
                0 <= i < old(self).peers@.len() && i != idx ==> final(self).peers@[i] == old(
                    self,
                ).peers@[i],
            final(self).occupied(idx as int),
            Peer::eq_but_closing(old(self).peer_at(idx as int), final(self).peer_at(idx as int)),
            final(self).peer_at(idx as int).closing,
            final(self).events == old(self).events,
            final(self).remove == old(self).remove,
            final(self).history == old(self).history,
            final(self).is_server == old(self).is_server,
            final(self).timeout_ms == old(self).timeout_ms,
            final(self).events_capacity == old(self).events_capacity,
    {
        let p = self.peer_mut(idx);
        p.closing = true;
    }

    /// The timeout-eviction step of one reactor tick, run when no event was
    /// pending: queues a Disconnect for every peer whose inactivity has
    /// reached the timeout, and returns the slots that are due for transport
    /// work this tick — occupied, connected, and not timed out — in
    /// ascending order.
    pub fn scan_timeouts(&mut self, now: u64) -> (r: Vec<usize>)
        requires
            old(self).wf(),
            old(self).evs().len() == 0,
            old(self).remove is None,
        ensures
            final(self).wf(),
            r@ == old(self).io_slots(now),
            final(self).peers@.len() == old(self).peers@.len(),
            forall|i: int|
                0 <= i < final(self).peers@.len() ==> #[trigger] final(self).occupied(i) == old(
                    self,
                ).occupied(i),
            forall|i: int|
                #[trigger] final(self).occupied(i) ==> Peer::eq_but_closing(
                    old(self).peer_at(i),
                    final(self).peer_at(i),
                ) && (final(self).peer_at(i).closing <==> old(self).timed_out(i, now)),
            forall|j: int|
                0 <= j < final(self).evs().len() ==> (#[trigger] final(self).evs()[j]).kind
                    is Disconnect && old(self).timed_out(final(self).evs()[j].peer as int, now),
            forall|i: int|
                old(self).timed_out(i, now) ==> final(self).has_disconnect_for(i),
            final(self).remove is None,
            final(self).history == old(self).history,
            final(self).is_server == old(self).is_server,
            final(self).timeout_ms == old(self).timeout_ms,
            final(self).events_capacity == old(self).events_capacity,
    {
        proof {
            assert forall|i: int|
                #[trigger] old(self).occupied(i) implies !old(self).peer_at(i).closing by {
                if old(self).peer_at(i).closing {
                    assert(!(old(self).remove is Some));
                    assert(!old(self).has_disconnect_for(i));
                }
            }
        }
        let mut io: Vec<usize> = Vec::new();
        let mut idx: usize = 0;
        while idx < self.peers.len()
            invariant
                old(self).wf(),
                old(self).evs().len() == 0,
                forall|i: int| #[trigger] old(self).occupied(i) ==> !old(self).peer_at(i).closing,
                idx <= self.peers@.len(),
                self.peers@.len() == old(self).peers@.len(),
                forall|i: int|
                    0 <= i < self.peers@.len() ==> #[trigger] self.occupied(i) == old(
                        self,
                    ).occupied(i),
                forall|i: int|
                    #[trigger] self.occupied(i) ==> Peer::eq_but_closing(
                        old(self).peer_at(i),
                        self.peer_at(i),
                    ) && (self.peer_at(i).closing <==> (i < idx && old(self).timed_out(i, now))),
                forall|j: int|
                    0 <= j < self.evs().len() ==> (#[trigger] self.evs()[j]).kind is Disconnect
                        && (self.evs()[j].peer as int) < idx && old(self).timed_out(
                        self.evs()[j].peer as int,
                        now,
                    ) && self.occupied(self.evs()[j].peer as int),
                forall|i: int|
                    0 <= i < idx && old(self).timed_out(i, now) ==> self.has_disconnect_for(i),
                forall|j1: int, j2: int|
                    #![trigger self.evs()[j1], self.evs()[j2]]
                    0 <= j1 < j2 < self.evs().len() ==> self.evs()[j1].peer != self.evs()[j2].peer,
                io@ == old(self).io_slots_upto(idx as int, now),
                self.history == old(self).history,
                self.remove is None,
                self.is_server == old(self).is_server,
                self.timeout_ms == old(self).timeout_ms,
                self.events_capacity == old(self).events_capacity,
            decreases self.peers@.len() - idx,
        {
            let mut timed = false;
            let mut io_elig = false;
            match &self.peers[idx] {
                Some(p) => {
                    let la = p.last_activity();
                    if now >= la && now - la >= self.timeout_ms {
                        timed = true;
                    } else if p.connected() {
                        io_elig = true;
                    }
                },
                None => {},
            }
            proof {
                if self.occupied(idx as int) {
                    assert(timed == old(self).timed_out(idx as int, now));
                    assert(io_elig == (old(self).peer_at(idx as int).connected && !old(
                        self,
                    ).timed_out(idx as int, now)));
                }
            }
            if timed {
                let ghost hpre = *self;
                self.mark_closing(idx);
                self.events.push_back(Event { kind: EventKind::Disconnect, peer: idx });
                proof {
                    assert(self.evs() == hpre.evs().push(
                        Event { kind: EventKind::Disconnect, peer: idx },
                    ));
                    assert forall|i: int|
                        0 <= i < self.peers@.len() implies #[trigger] self.occupied(i) == old(
                        self,
                    ).occupied(i) by {
                        if i != idx {
                            assert(self.peers@[i] == hpre.peers@[i]);
                            assert(hpre.occupied(i) == old(self).occupied(i));
                            assert(self.occupied(i) == hpre.occupied(i));
                        } else {
                            assert(self.occupied(idx as int));
                            assert(hpre.occupied(idx as int));
                            assert(hpre.occupied(idx as int) == old(self).occupied(idx as int));
                        }
                    }
                    assert forall|i: int|
                        #[trigger] self.occupied(i) implies Peer::eq_but_closing(
                        old(self).peer_at(i),
                        self.peer_at(i),
                    ) && (self.peer_at(i).closing <==> (i < idx + 1 && old(self).timed_out(
                        i,
                        now,
                    ))) by {
                        if i != idx {
                            assert(self.peers@[i] == hpre.peers@[i]);
                            assert(hpre.occupied(i));
                        }
                    }
                    assert forall|i: int|
                        0 <= i < idx + 1 && old(self).timed_out(i, now) implies
                        self.has_disconnect_for(i) by {
                        if i < idx {
                            assert(hpre.has_disconnect_for(i));
                            let j = choose|j: int|
                                0 <= j < hpre.evs().len() && (#[trigger] hpre.evs()[j]).peer == i
                                    && hpre.evs()[j].kind is Disconnect;
                            assert(self.evs()[j] == hpre.evs()[j]);
                        } else {
                            assert(self.evs()[self.evs().len() - 1].peer == idx);
                        }
                    }
                    assert forall|j: int|
                        0 <= j < self.evs().len() implies (#[trigger] self.evs()[j]).kind
                        is Disconnect && (self.evs()[j].peer as int) < idx + 1 && old(
                        self,
                    ).timed_out(self.evs()[j].peer as int, now) && self.occupied(
                        self.evs()[j].peer as int,
                    ) by {
                        if j < hpre.evs().len() {
                            assert(self.evs()[j] == hpre.evs()[j]);
                            assert(hpre.occupied(hpre.evs()[j].peer as int));
                            assert(self.peers@[hpre.evs()[j].peer as int] == hpre.peers@[
                                hpre.evs()[j].peer as int]
                                || hpre.evs()[j].peer == idx);
                        }
                    }
                    assert forall|j1: int, j2: int|
                        #![trigger self.evs()[j1], self.evs()[j2]]
                        0 <= j1 < j2 < self.evs().len() implies self.evs()[j1].peer
                        != self.evs()[j2].peer by {
                        if j2 < hpre.evs().len() {
                            assert(self.evs()[j1] == hpre.evs()[j1]);
                            assert(self.evs()[j2] == hpre.evs()[j2]);
                        } else {
                            assert(self.evs()[j1] == hpre.evs()[j1]);
                            assert((hpre.evs()[j1].peer as int) < idx);
                        }
                    }
                }
            } else if io_elig {
                io.push(idx);
            }
            proof {
                assert(old(self).io_slots_upto(idx as int + 1, now) == if old(self).occupied(
                    idx as int,
                ) && old(self).peer_at(idx as int).connected && !old(self).timed_out(
                    idx as int,
                    now,
                ) {
                    old(self).io_slots_upto(idx as int, now).push(idx)
                } else {
                    old(self).io_slots_upto(idx as int, now)
                });
            }
            idx = idx + 1;
        }
        proof {
            assert forall|i: int|
                #![trigger phase_after(self.history@, i)]
                phase_after(self.history@, i) == if self.lifecycle_open(i) {
                Some(LifePhase::Open)
            } else {
                Some(LifePhase::Idle)
            } by {
                assert(phase_after(old(self).history@, i) == if old(self).lifecycle_open(i) {
                    Some(LifePhase::Open)
                } else {
                    Some(LifePhase::Idle)
                });
                assert(!self.has_connect_for(i)) by {
                    if self.has_connect_for(i) {
                        let j = choose|j: int|
                            0 <= j < self.evs().len() && (#[trigger] self.evs()[j]).peer == i
                                && self.evs()[j].kind is Connect;
                        assert(self.evs()[j].kind is Disconnect);
                    }
                }
                assert(!old(self).has_connect_for(i));
                assert(self.occupied(i) == old(self).occupied(i));
            }
        }
        io
    }

    /// Merges a readiness report from the poller into the slot's peer, if the
    /// slot is still occupied; a report for a freed slot is ignored. No
    /// transport work happens here: it runs on the next tick's scan.
    pub fn update_ready(&mut self, idx: usize, readable: bool, writable: bool)
        requires
            old(self).wf(),
        ensures
            final(self).wf(),
            !old(self).occupied(idx as int) ==> *final(self) == *old(self),
            old(self).occupied(idx as int) ==> {
                &&& final(self).peers@.len() == old(self).peers@.len()
                &&& forall|i: int|
                    0 <= i < old(self).peers@.len() && i != idx ==> final(self).peers@[i] == old(
                        self,
                    ).peers@[i]
                &&& final(self).occupied(idx as int)
                &&& ({
                    let p0 = old(self).peer_at(idx as int);
                    let p1 = final(self).peer_at(idx as int);
                    &&& p1.ready_readable == (p0.ready_readable || readable)
                    &&& p1.ready_writable == (p0.ready_writable || writable)
                    &&& p1.incoming == p0.incoming
                    &&& p1.read_state == p0.read_state
                    &&& p1.outgoing == p0.outgoing
                    &&& p1.write_state == p0.write_state
                    &&& Peer::eq_meta(p0, p1)
                    &&& p1.last_activity == p0.last_activity
                })
            },
            final(self).events == old(self).events,
            final(self).remove == old(self).remove,
            final(self).history == old(self).history,
            final(self).is_server == old(self).is_server,
            final(self).timeout_ms == old(self).timeout_ms,
            final(self).events_capacity == old(self).events_capacity,
    {
        if self.has_peer(idx) {
            let ghost hpre = *self;
            let p = self.peer_mut(idx);
            p.update_ready(readable, writable);
            proof {
                self.lemma_peer_local_change(hpre, idx as int);
            }
        }
    }

    /// From a state `hpre` that satisfied `wf`, a change confined to the peer
    /// in slot `idx` that keeps that peer's own well-formedness, its slot id
    /// and its closing mark keeps the whole host well-formed, provided the
    /// pending events are untouched.
    proof fn lemma_peer_local_change(&self, hpre: Host<T>, idx: int)
        requires
            hpre.wf(),
            hpre.occupied(idx),
            self.peers@.len() == hpre.peers@.len(),
            forall|i: int|
                0 <= i < hpre.peers@.len() && i != idx ==> self.peers@[i] == hpre.peers@[i],
            self.occupied(idx),
            self.peer_at(idx).wf(),
            self.peer_at(idx).idx == hpre.peer_at(idx).idx,
            self.peer_at(idx).closing == hpre.peer_at(idx).closing,
            self.events == hpre.events,
            self.remove == hpre.remove,
            self.history == hpre.history,
        ensures
            self.wf(),
    {
        assert forall|i: int|
            #![trigger phase_after(self.history@, i)]
            phase_after(self.history@, i) == if self.lifecycle_open(i) {
            Some(LifePhase::Open)
        } else {
            Some(LifePhase::Idle)
        } by {
            assert(phase_after(hpre.history@, i) == if hpre.lifecycle_open(i) {
                Some(LifePhase::Open)
            } else {
                Some(LifePhase::Idle)
            });
            if 0 <= i < hpre.peers@.len() && i != idx {
                assert(self.peers@[i] == hpre.peers@[i]);
            }
            assert(self.occupied(i) == hpre.occupied(i));
            assert(self.has_connect_for(i) == hpre.has_connect_for(i)) by {
                if hpre.has_connect_for(i) {
                    let j = choose|j: int|
                        0 <= j < hpre.evs().len() && (#[trigger] hpre.evs()[j]).peer == i
                            && hpre.evs()[j].kind is Connect;
                    assert(self.evs()[j] == hpre.evs()[j]);
                }
                if self.has_connect_for(i) {
                    let j = choose|j: int|
                        0 <= j < self.evs().len() && (#[trigger] self.evs()[j]).peer == i
                            && self.evs()[j].kind is Connect;
                    assert(hpre.evs()[j] == self.evs()[j]);
                }
            }
        }
        assert forall|i: int|
            #[trigger] self.occupied(i) implies self.peer_at(i).wf() && self.peer_at(i).idx
                == i by {
            assert(hpre.occupied(i));
            if i != idx {
                assert(self.peers@[i] == hpre.peers@[i]);
            }
        }
        assert forall|j: int|
            0 <= j < self.evs().len() implies self.occupied(
            (#[trigger] self.evs()[j]).peer as int,
        ) by {
            assert(hpre.occupied(hpre.evs()[j].peer as int));
        }
        assert forall|j: int|
            0 <= j < self.evs().len() && (#[trigger] self.evs()[j]).kind is Disconnect implies
            self.peer_at(self.evs()[j].peer as int).closing by {
            assert(hpre.peer_at(hpre.evs()[j].peer as int).closing);
            if self.evs()[j].peer != idx {
                assert(self.peers@[self.evs()[j].peer as int] == hpre.peers@[self.evs()[
                    j].peer as int]);
            }
        }
        assert forall|i: int|
            #[trigger] self.occupied(i) && self.peer_at(i).closing implies ((self.remove is Some
                && self.remove->0 == i) || self.has_disconnect_for(i)) by {
            assert(hpre.occupied(i));
            if i != idx {
                assert(self.peers@[i] == hpre.peers@[i]);
            }
            assert(hpre.peer_at(i).closing);
            if hpre.has_disconnect_for(i) {
                let j = choose|j: int|
                    0 <= j < hpre.evs().len() && (#[trigger] hpre.evs()[j]).peer == i
                        && hpre.evs()[j].kind is Disconnect;
                assert(self.evs()[j] == hpre.evs()[j]);
                assert(self.has_disconnect_for(i));
            }
        }
        match self.remove {
            Some(ri) => {
                assert(hpre.occupied(ri as int) && hpre.peer_at(ri as int).closing);
                if ri != idx {
                    assert(self.peers@[ri as int] == hpre.peers@[ri as int]);
                }
            },
            None => {},
        }
    }

    /// Resolves a failure the transport or the frame decoder reported for
    /// this peer. A recoverable kind queues the peer's Disconnect in place of
    /// propagating and returns false; any other kind changes nothing and
    /// returns true: the tick must abort and the failure surface to the
    /// caller. A report for a freed slot or one already closing changes
    /// nothing.
    pub fn peer_failed(&mut self, idx: usize, kind: IoErrorKind) -> (fatal: bool)
        requires
            old(self).wf(),
        ensures
            final(self).wf(),
            fatal == !spec_recoverable(kind),
            fatal ==> *final(self) == *old(self),
            !fatal && !(old(self).occupied(idx as int) && !old(self).peer_at(idx as int).closing)
                ==> *final(self) == *old(self),
            !fatal && old(self).occupied(idx as int) && !old(self).peer_at(idx as int).closing
                ==> {
                &&& final(self).evs() == old(self).evs().push(
                    Event { kind: EventKind::Disconnect, peer: idx },
                )
                &&& final(self).peers@.len() == old(self).peers@.len()
                &&& forall|i: int|
                    0 <= i < old(self).peers@.len() && i != idx ==> final(self).peers@[i] == old(
                        self,
                    ).peers@[i]
                &&& final(self).occupied(idx as int)
                &&& Peer::eq_but_closing(
                    old(self).peer_at(idx as int),
                    final(self).peer_at(idx as int),
                )
                &&& final(self).peer_at(idx as int).closing
            },
            final(self).remove == old(self).remove,
            final(self).history == old(self).history,
            final(self).is_server == old(self).is_server,
            final(self).timeout_ms == old(self).timeout_ms,
            final(self).events_capacity == old(self).events_capacity,
    {
        if !recoverable(kind) {
            return true;
        }
        let proceed = match self.peer(idx) {
            Some(p) => !p.closing,
            None => false,
        };
        if proceed {
            let ghost hpre = *self;
            self.mark_closing(idx);
            self.events.push_back(Event { kind: EventKind::Disconnect, peer: idx });
            proof {
                let h0 = *old(self);
                assert(self.evs() == h0.evs().push(Event { kind: EventKind::Disconnect, peer: idx },
                ));
                assert forall|j: int|
                    0 <= j < h0.evs().len() && (#[trigger] h0.evs()[j]).peer == idx implies !(
                h0.evs()[j].kind is Disconnect) by {
                    if h0.evs()[j].kind is Disconnect {
                        assert(h0.peer_at(idx as int).closing);
                    }
                }
                assert forall|i: int|
                    #[trigger] self.occupied(i) implies self.peer_at(i).wf() && self.peer_at(i).idx
                        == i by {
                    assert(h0.occupied(i));
                    if i != idx {
                        assert(self.peers@[i] == h0.peers@[i]);
                    }
                }
                assert forall|j: int|
                    0 <= j < self.evs().len() implies self.occupied(
                    (#[trigger] self.evs()[j]).peer as int,
                ) by {
                    if j < h0.evs().len() {
                        assert(self.evs()[j] == h0.evs()[j]);
                        assert(h0.occupied(h0.evs()[j].peer as int));
                    } else {
                        assert(self.evs()[j].peer == idx);
                    }
                }
                assert forall|j1: int, j2: int|
                    #![trigger self.evs()[j1], self.evs()[j2]]
                    0 <= j1 < j2 < self.evs().len() && self.evs()[j1].peer
                        == self.evs()[j2].peer implies !(self.evs()[j1].kind is Disconnect) && !(
                self.evs()[j2].kind is Connect) by {
                    assert(self.evs()[j1] == h0.evs()[j1]);
                    if j2 < h0.evs().len() {
                        assert(self.evs()[j2] == h0.evs()[j2]);
                    }
                }
                assert forall|j: int|
                    0 <= j < self.evs().len() && (#[trigger] self.evs()[j]).kind
                        is Disconnect implies self.peer_at(self.evs()[j].peer as int).closing by {
                    if j < h0.evs().len() {
                        assert(self.evs()[j] == h0.evs()[j]);
                        assert(h0.peer_at(h0.evs()[j].peer as int).closing);
                        assert(h0.evs()[j].peer != idx);
                    }
                }
                assert forall|i: int|
                    #[trigger] self.occupied(i) && self.peer_at(i).closing implies ((self.remove
                        is Some && self.remove->0 == i) || self.has_disconnect_for(i)) by {
                    if i == idx {
                        assert(self.evs()[self.evs().len() - 1].peer == idx);
                        assert(self.has_disconnect_for(i));
                    } else {
                        assert(self.peers@[i] == h0.peers@[i]);
                        assert(h0.occupied(i) && h0.peer_at(i).closing);
                        if h0.has_disconnect_for(i) {
                            let j = choose|j: int|
                                0 <= j < h0.evs().len() && (#[trigger] h0.evs()[j]).peer == i
                                    && h0.evs()[j].kind is Disconnect;
                            assert(self.evs()[j] == h0.evs()[j]);
                            assert(self.has_disconnect_for(i));
                        }
                    }
                }
                match self.remove {
                    Some(ri) => {
                        assert(h0.occupied(ri as int) && h0.peer_at(ri as int).closing);
                        assert(ri != idx);
                        assert forall|j: int|
                            0 <= j < self.evs().len() implies (#[trigger] self.evs()[j]).peer
                                != ri by {
                            if j < h0.evs().len() {
                                assert(self.evs()[j] == h0.evs()[j]);
                            } else {
                                assert(self.evs()[j].peer == idx);
                            }
                        }
                    },
                    None => {},
                }
            assert forall|i: int|
                #![trigger phase_after(self.history@, i)]
                phase_after(self.history@, i) == if self.lifecycle_open(i) {
                Some(LifePhase::Open)
            } else {
                Some(LifePhase::Idle)
            } by {
                assert(phase_after(h0.history@, i) == if h0.lifecycle_open(i) {
                    Some(LifePhase::Open)
                } else {
                    Some(LifePhase::Idle)
                });
                assert(self.occupied(i) == h0.occupied(i));
                assert(self.has_connect_for(i) == h0.has_connect_for(i)) by {
                    if h0.has_connect_for(i) {
                        let j = choose|j: int|
                            0 <= j < h0.evs().len() && (#[trigger] h0.evs()[j]).peer == i
                                && h0.evs()[j].kind is Connect;
                        assert(self.evs()[j] == h0.evs()[j]);
                    }
                    if self.has_connect_for(i) {
                        let j = choose|j: int|
                            0 <= j < self.evs().len() && (#[trigger] self.evs()[j]).peer == i
                                && self.evs()[j].kind is Connect;
                        assert(j < h0.evs().len());
                        assert(h0.evs()[j] == self.evs()[j]);
                    }
                }
                }
            }
            false
        } else {
            false
        }
    }

    /// Moves every payload this peer's read automaton has completed into the
    /// pending-event queue, one Receive event per payload in arrival order.
    /// A no-op for a free slot or one whose Disconnect is already queued.
    pub fn deliver_incoming(&mut self, idx: usize)
        requires
            old(self).wf(),
        ensures
            final(self).wf(),
            !(old(self).occupied(idx as int) && !old(self).peer_at(idx as int).closing)
                ==> *final(self) == *old(self),
            old(self).occupied(idx as int) && !old(self).peer_at(idx as int).closing ==> {
                let q = old(self).peer_at(idx as int).in_queue();
                &&& final(self).evs().len() == old(self).evs().len() + q.len()
                &&& forall|j: int|
                    0 <= j < old(self).evs().len() ==> final(self).evs()[j] == old(self).evs()[j]
                &&& forall|k: int|
                    0 <= k < q.len() ==> (#[trigger] final(self).evs()[old(self).evs().len()
                        + k]).peer == idx && final(self).evs()[old(self).evs().len()
                        + k].kind.is_receive_of(q[k])
                &&& final(self).peers@.len() == old(self).peers@.len()
                &&& forall|i: int|
                    0 <= i < old(self).peers@.len() && i != idx ==> final(self).peers@[i] == old(
                        self,
                    ).peers@[i]
                &&& final(self).occupied(idx as int)
                &&& ({
                    let p0 = old(self).peer_at(idx as int);
                    let p1 = final(self).peer_at(idx as int);
                    &&& p1.in_queue().len() == 0
                    &&& p1.read_state == p0.read_state
                    &&& p1.ready_readable == p0.ready_readable
                    &&& Peer::eq_write(p0, p1)
                    &&& Peer::eq_meta(p0, p1)
                    &&& p1.last_activity == p0.last_activity
                })
            },
            final(self).remove == old(self).remove,
            final(self).history == old(self).history,
            final(self).is_server == old(self).is_server,
            final(self).timeout_ms == old(self).timeout_ms,
            final(self).events_capacity == old(self).events_capacity,
    {
        let proceed = match self.peer(idx) {
            Some(p) => !p.closing,
            None => false,
        };
        if !proceed {
            return ;
        }
        let ghost h0 = *old(self);
        let mut pkts = {
            let ghost hpre = *self;
            let p = self.peer_mut(idx);
            let pkts = p.incoming_packets();
            proof {
                self.lemma_peer_local_change(hpre, idx as int);
            }
            pkts
        };
        let ghost h1 = *self;
        let ghost q = h0.peer_at(idx as int).in_queue();
        let ghost done: int = 0;
        proof {
            assert(crate::peer::packets_model(pkts@) == q);
        }
        while pkts.len() > 0
            invariant
                h0.wf(),
                self.wf(),
                h0.occupied(idx as int),
                !h0.peer_at(idx as int).closing,
                !self.peer_at(idx as int).closing,
                self.occupied(idx as int),
                0 <= done <= q.len(),
                crate::peer::packets_model(pkts@) =~= q.subrange(done, q.len() as int),
                self.peers == h1.peers,
                self.history == old(self).history,
                self.remove == h1.remove,
                self.remove == h0.remove,
                self.is_server == h1.is_server,
                self.timeout_ms == h1.timeout_ms,
                self.events_capacity == h1.events_capacity,
                self.evs().len() == h1.evs().len() + done,
                forall|j: int| 0 <= j < h1.evs().len() ==> self.evs()[j] == h1.evs()[j],
                forall|k: int|
                    0 <= k < done ==> (#[trigger] self.evs()[h1.evs().len() + k]).peer == idx
                        && self.evs()[h1.evs().len() + k].kind.is_receive_of(q[k]),
            decreases pkts@.len(),
        {
            let ghost hpre = *self;
            let ghost pk0 = pkts@;
            let p = pkts.remove(0);
            proof {
                pk0.remove_ensures(0);
                assert(crate::peer::packets_model(pk0).len() == pk0.len());
                assert(pk0.len() == q.len() - done);
                assert(crate::peer::packets_model(pk0)[0] == pk0[0]@);
                assert(q.subrange(done, q.len() as int)[0] == q[done]);
                assert(p@ == q[done]);
                assert forall|k: int|
                    0 <= k < pkts@.len() implies crate::peer::packets_model(pkts@)[k]
                    == q.subrange(done + 1, q.len() as int)[k] by {
                    assert(pkts@[k] == pk0[k + 1]);
                    assert(crate::peer::packets_model(pk0)[k + 1] == pk0[k + 1]@);
                    assert(crate::peer::packets_model(pk0)[k + 1] == q.subrange(
                        done,
                        q.len() as int,
                    )[k + 1]);
                }
                assert(crate::peer::packets_model(pkts@) =~= q.subrange(done + 1, q.len() as int));
            }
            self.events.push_back(Event { kind: EventKind::Receive(p), peer: idx });
            proof {
                assert(self.evs() == hpre.evs().push(
                    Event { kind: EventKind::Receive(p), peer: idx },
                ));
                assert forall|i: int|
                    #[trigger] self.occupied(i) implies self.peer_at(i).wf() && self.peer_at(i).idx
                        == i by {
                    assert(hpre.occupied(i));
                    assert(hpre.peer_at(i).wf() && hpre.peer_at(i).idx == i);
                }
                assert forall|j: int|
                    0 <= j < self.evs().len() implies self.occupied(
                    (#[trigger] self.evs()[j]).peer as int,
                ) by {
                    if j < hpre.evs().len() {
                        assert(self.evs()[j] == hpre.evs()[j]);
                        assert(hpre.occupied(hpre.evs()[j].peer as int));
                    }
                }
                assert forall|j: int|
                    0 <= j < hpre.evs().len() && (#[trigger] hpre.evs()[j]).peer == idx implies !(
                hpre.evs()[j].kind is Disconnect) by {
                    if hpre.evs()[j].kind is Disconnect {
                        assert(hpre.peer_at(idx as int).closing);
                    }
                }
                assert forall|j1: int, j2: int|
                    #![trigger self.evs()[j1], self.evs()[j2]]
                    0 <= j1 < j2 < self.evs().len() && self.evs()[j1].peer
                        == self.evs()[j2].peer implies !(self.evs()[j1].kind is Disconnect) && !(
                self.evs()[j2].kind is Connect) by {
                    assert(self.evs()[j1] == hpre.evs()[j1]);
                    if j2 < hpre.evs().len() {
                        assert(self.evs()[j2] == hpre.evs()[j2]);
                    }
                }
                assert forall|j: int|
                    0 <= j < self.evs().len() && (#[trigger] self.evs()[j]).kind
                        is Disconnect implies self.peer_at(self.evs()[j].peer as int).closing by {
                    assert(self.evs()[j] == hpre.evs()[j]);
                    assert(hpre.peer_at(hpre.evs()[j].peer as int).closing);
                }
                assert forall|i: int|
                    #[trigger] self.occupied(i) && self.peer_at(i).closing implies ((self.remove
                        is Some && self.remove->0 == i) || self.has_disconnect_for(i)) by {
                    assert(hpre.occupied(i) && hpre.peer_at(i).closing);
                    if hpre.has_disconnect_for(i) {
                        let j = choose|j: int|
                            0 <= j < hpre.evs().len() && (#[trigger] hpre.evs()[j]).peer == i
                                && hpre.evs()[j].kind is Disconnect;
                        assert(self.evs()[j] == hpre.evs()[j]);
                        assert(self.has_disconnect_for(i));
                    }
                }
                match self.remove {
                    Some(ri) => {
                        assert(hpre.occupied(ri as int) && hpre.peer_at(ri as int).closing);
                        assert(ri != idx);
                        assert forall|j: int|
                            0 <= j < self.evs().len() implies (#[trigger] self.evs()[j]).peer
                                != ri by {
                            if j < hpre.evs().len() {
                                assert(self.evs()[j] == hpre.evs()[j]);
                            }
                        }
                    },
                    None => {},
                }
            assert forall|i: int|
                #![trigger phase_after(self.history@, i)]
                phase_after(self.history@, i) == if self.lifecycle_open(i) {
                Some(LifePhase::Open)
            } else {
                Some(LifePhase::Idle)
            } by {
                assert(phase_after(hpre.history@, i) == if hpre.lifecycle_open(i) {
                    Some(LifePhase::Open)
                } else {
                    Some(LifePhase::Idle)
                });
                assert(self.history@ == hpre.history@);
                assert(self.occupied(i) == hpre.occupied(i));
                assert(self.has_connect_for(i) == hpre.has_connect_for(i)) by {
                    if hpre.has_connect_for(i) {
                        let j = choose|j: int|
                            0 <= j < hpre.evs().len() && (#[trigger] hpre.evs()[j]).peer == i
                                && hpre.evs()[j].kind is Connect;
                        assert(self.evs()[j] == hpre.evs()[j]);
                    }
                    if self.has_connect_for(i) {
                        let j = choose|j: int|
                            0 <= j < self.evs().len() && (#[trigger] self.evs()[j]).peer == i
                                && self.evs()[j].kind is Connect;
                        assert(j < hpre.evs().len());
                        assert(hpre.evs()[j] == self.evs()[j]);
                    }
                }
            }
                done = done + 1;
            }
        }
    }

    /// Broadcasts a packet to all connected peers: each gets its own copy on
    /// its outbound queue.
    ///
    /// Convenience method.
    pub fn broadcast(&mut self, packet: Vec<u8>)
        requires
            old(self).wf(),
            packet@.len() <= u32::MAX,
            packet@.len() + 4 <= usize::MAX,
        ensures
            final(self).wf(),
            final(self).peers@.len() == old(self).peers@.len(),
            forall|i: int|
                0 <= i < old(self).peers@.len() && !(old(self).occupied(i) && old(self).peer_at(
                    i,
                ).connected) ==> final(self).peers@[i] == old(self).peers@[i],
            forall|i: int|
                old(self).occupied(i) && old(self).peer_at(i).connected ==> {
                    let p0 = old(self).peer_at(i);
                    let p1 = final(self).peer_at(i);
                    &&& #[trigger] final(self).occupied(i)
                    &&& p1.out_queue() == p0.out_queue().push(packet@)
                    &&& p1.write_state == p0.write_state
                    &&& p1.ready_writable == p0.ready_writable
                    &&& Peer::eq_read(p0, p1)
                    &&& Peer::eq_meta(p0, p1)
                    &&& p1.last_activity == p0.last_activity
                },
            final(self).events == old(self).events,
            final(self).remove == old(self).remove,
            final(self).history == old(self).history,
            final(self).is_server == old(self).is_server,
            final(self).timeout_ms == old(self).timeout_ms,
            final(self).events_capacity == old(self).events_capacity,
    {
        let mut idx: usize = 0;
        while idx < self.peers.len()
            invariant
                old(self).wf(),
                self.wf(),
                packet@.len() <= u32::MAX,
                packet@.len() + 4 <= usize::MAX,
                idx <= self.peers@.len(),
                self.peers@.len() == old(self).peers@.len(),
                forall|i: int|
                    #![trigger self.peers@[i]]
                    0 <= i < old(self).peers@.len() && (i >= idx || !(old(self).occupied(i) && old(
                        self,
                    ).peer_at(i).connected)) ==> self.peers@[i] == old(self).peers@[i],
                forall|i: int|
                    #![trigger self.peer_at(i)]
                    0 <= i < idx && old(self).occupied(i) && old(self).peer_at(i).connected ==> {
                        let p0 = old(self).peer_at(i);
                        let p1 = self.peer_at(i);
                        &&& self.occupied(i)
                        &&& p1.out_queue() == p0.out_queue().push(packet@)
                        &&& p1.write_state == p0.write_state
                        &&& p1.ready_writable == p0.ready_writable
                        &&& Peer::eq_read(p0, p1)
                        &&& Peer::eq_meta(p0, p1)
                        &&& p1.last_activity == p0.last_activity
                    },
                self.events == old(self).events,
                self.remove == old(self).remove,
                self.history == old(self).history,
                self.is_server == old(self).is_server,
                self.timeout_ms == old(self).timeout_ms,
                self.events_capacity == old(self).events_capacity,
            decreases self.peers@.len() - idx,
        {
            let is_conn = match &self.peers[idx] {
                Some(p) => p.connected(),
                None => false,
            };
            if is_conn {
                let copy = crate::peer::copy_packet(&packet);
                let ghost hpre = *self;
                proof {
                    assert(hpre.occupied(idx as int));
                    assert(hpre.peer_at(idx as int).wf());
                }
                let p = self.peer_mut(idx);
                p.send(copy);
                proof {
                    self.lemma_peer_local_change(hpre, idx as int);
                    assert forall|i: int|
                        0 <= i < old(self).peers@.len() && (i >= idx + 1 || !(old(self).occupied(i)
                            && old(self).peer_at(i).connected)) implies self.peers@[i] == old(
                        self,
                    ).peers@[i] by {
                        assert(0 <= i < old(self).peers@.len());
                        assert((i >= idx || !(old(self).occupied(i) && old(self).peer_at(
                            i,
                        ).connected)) ==> hpre.peers@[i] == old(self).peers@[i]);
                        if i != idx {
                            assert(self.peers@[i] == hpre.peers@[i]);
                            assert(hpre.peers@[i] == old(self).peers@[i]);
                        }
                    }
                    assert forall|i: int|
                        #![trigger self.peer_at(i)]
                        0 <= i < idx + 1 && old(self).occupied(i) && old(self).peer_at(
                            i,
                        ).connected implies {
                        let p0 = old(self).peer_at(i);
                        let p1 = self.peer_at(i);
                        &&& self.occupied(i)
                        &&& p1.out_queue() == p0.out_queue().push(packet@)
                        &&& p1.write_state == p0.write_state
                        &&& p1.ready_writable == p0.ready_writable
                        &&& Peer::eq_read(p0, p1)
                        &&& Peer::eq_meta(p0, p1)
                        &&& p1.last_activity == p0.last_activity
                    } by {
                        if i != idx {
                            assert(self.peers@[i] == hpre.peers@[i]);
                            assert(hpre.peer_at(i) == self.peer_at(i));
                            assert(hpre.occupied(i));
                        } else {
                            assert(hpre.peers@[idx as int] == old(self).peers@[idx as int]);
                            assert(hpre.peer_at(idx as int) == old(self).peer_at(idx as int));
                            assert(hpre.peer_at(idx as int).connected);
                        }
                    }
                }
            } else {
                proof {
                    if self.occupied(idx as int) {
                        assert(self.peers@[idx as int] == old(self).peers@[idx as int]);
                    }
                }
            }
            idx = idx + 1;
        }
    }
}

/// Per-peer event order in the pending queue of any well-formed host: among
/// the queued events of one peer, a Disconnect can only stand last and a
/// Connect only first. Events are delivered from the head of that queue, one
/// per call, so the caller observes each peer's lifecycle as Connect first,
/// then its Receive events in order, then at most one terminal Disconnect.
pub proof fn lemma_event_order<T>(h: &Host<T>, j1: int, j2: int)
    requires
        h.wf(),
        0 <= j1 < j2 < h.evs().len(),
        h.evs()[j1].peer == h.evs()[j2].peer,
    ensures
        !(h.evs()[j1].kind is Disconnect),
        !(h.evs()[j2].kind is Connect),
{
}

/// Slot reuse safety of any well-formed host: the only slot that is ever
/// freed — and so the only one that can be reassigned — is the slot marked
/// for deferred removal, and that mark is set exactly when the slot's
/// Disconnect is delivered (`pop_event`). Such a slot is closing and has no
/// event still pending, so no stale event can name a reassigned slot.
pub proof fn lemma_deferred_slot_quiet<T>(h: &Host<T>, j: int)
    requires
        h.wf(),
        h.remove is Some,
        0 <= j < h.evs().len(),
    ensures
        h.evs()[j].peer != h.remove->0,
        h.peer_at(h.remove->0 as int).closing,
{
}

/// The order invariant over the whole delivered history: in every
/// well-formed state, replaying the events the caller has received never
/// violates the per-peer lifecycle — for each peer, a Connect came first,
/// every Receive arrived while that connection was open, and at most one
/// Disconnect ended it (`phase_after` never fails).
pub proof fn lemma_delivered_order<T>(h: &Host<T>, i: int)
    requires
        h.wf(),
    ensures
        phase_after(h.history@, i) is Some,
{
}

/// The builder for the `Host` structure.
pub struct HostBuilder<T> {
    pub events_capacity: usize,
    pub timeout_ms: u64,
    pub data: core::marker::PhantomData<T>,
}

impl<T> HostBuilder<T> {
    /// Sets the maximum time of inactivity, in milliseconds (that means no
    /// packets sent and received), after which the peer will be disconnected.
    ///
    /// The default is 5 seconds.
    pub fn timeout(self, timeout_ms: u64) -> (r: HostBuilder<T>)
        ensures
            r.timeout_ms == timeout_ms,
            r.events_capacity == self.events_capacity,
    {
        HostBuilder { timeout_ms, ..self }
    }

    /// Sets capacity for the poller's readiness batches.
    ///
    /// The default is 256.
    pub fn events_capacity(self, events_capacity: usize) -> (r: HostBuilder<T>)
        ensures
            r.events_capacity == events_capacity,
            r.timeout_ms == self.timeout_ms,
    {
        HostBuilder { events_capacity, ..self }
    }

    /// Creates a client host: no listening socket will be attached.
    pub fn client(self) -> (r: Host<T>)
        ensures
            r.wf(),
            !r.is_server,
            r.timeout_ms == self.timeout_ms,
            r.events_capacity == self.events_capacity,
            r.evs().len() == 0,
            r.peers@.len() == 0,
            r.remove is None,
            r.history@ == Seq::<Event>::empty(),
    {
        Host {
            is_server: false,
            timeout_ms: self.timeout_ms,
            events_capacity: self.events_capacity,
            events: VecDeque::new(),
            peers: Vec::new(),
            remove: None,
            history: Ghost(Seq::empty()),
        }
    }

    /// Creates a server host: the shell that builds it binds and registers
    /// the listening socket.
    pub fn server(self) -> (r: Host<T>)
        ensures
            r.wf(),
            r.is_server,
            r.timeout_ms == self.timeout_ms,
            r.events_capacity == self.events_capacity,
            r.evs().len() == 0,
            r.peers@.len() == 0,
            r.remove is None,
            r.history@ == Seq::<Event>::empty(),
    {
        Host {
            is_server: true,
            timeout_ms: self.timeout_ms,
            events_capacity: self.events_capacity,
            events: VecDeque::new(),
            peers: Vec::new(),
            remove: None,
            history: Ghost(Seq::empty()),
        }
    }
}

impl<T> Default for HostBuilder<T> {
    fn default() -> (r: HostBuilder<T>)
        ensures
            r.timeout_ms == DEFAULT_TIMEOUT_MS,
            r.events_capacity == DEFAULT_EVENTS_CAPACITY,
    {
        HostBuilder {
            events_capacity: DEFAULT_EVENTS_CAPACITY,
            timeout_ms: DEFAULT_TIMEOUT_MS,
            data: core::marker::PhantomData,
        }
    }
}

} // verus!
