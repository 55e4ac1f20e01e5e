//! Lifecycle events bound to a peer slot.

use vstd::prelude::*;

verus! {

/// The type of an event.
#[derive(Clone, Debug, PartialEq)]
pub enum EventKind {
    /// Peer was connected.
    Connect,
    /// Peer was disconnected.
    Disconnect,
    /// The remote side of a peer has sent a packet.
    Receive(Vec<u8>),
}

/// An event that occurred on a particular peer, named by its slot id. The slot
/// id stays valid until the Disconnect event for that peer has been delivered.
#[derive(Debug)]
pub struct Event {
    pub kind: EventKind,
    pub peer: usize,
}

impl EventKind {
    pub open spec fn is_receive_of(&self, p: Seq<u8>) -> bool {
        match self {
            EventKind::Receive(v) => v@ == p,
            _ => false,
        }
    }
}

} // verus!
