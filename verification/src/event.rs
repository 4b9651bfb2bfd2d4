//! Network notification events.

use crate::protocol::{Version, VERSION_NUMBER};
use vstd::prelude::*;

verus! {

/// Our protocol version and the highest one seen on a peer.
pub struct ProtocolVersions {
    pub our: Version,
    pub highest_seen: Version,
}

impl ProtocolVersions {
    pub fn new() -> (r: Self)
        ensures
            r.our.0 == VERSION_NUMBER,
            r.highest_seen.0 == 0,
    {
        ProtocolVersions { our: Version::current(), highest_seen: Version::zero() }
    }

    /// Notes the version of a peer, keeping the highest.
    pub fn observe(&mut self, peer: Version)
        ensures
            final(self).our == old(self).our,
            final(self).highest_seen.0 == if peer.0 > old(self).highest_seen.0 {
                peer.0
            } else {
                old(self).highest_seen.0
            },
    {
        if peer.0 > self.highest_seen.0 {
            self.highest_seen = peer;
        }
    }

    /// Whether a peer has appeared with a higher protocol version than ours.
    pub fn mismatch(&self) -> (r: bool)
        ensures
            r == (self.highest_seen.0 > self.our.0),
    {
        self.highest_seen.is_newer_than(&self.our)
    }
}

/// Network notification event.
#[derive(Clone, Copy, PartialEq, Eq, Debug, Structural)]
pub enum NetworkEvent {
    /// A peer has appeared with higher protocol version than us. Probably means we are using
    /// outdated library. This event can be used to notify the user that they should update the
    /// app.
    ProtocolVersionMismatch,
    /// The set of known peers has changed (e.g., a new peer has been discovered).
    PeerSetChange,
}

/// The number of an event on the wire.
pub open spec fn event_code(e: NetworkEvent) -> u8 {
    match e {
        NetworkEvent::ProtocolVersionMismatch => 0,
        NetworkEvent::PeerSetChange => 1,
    }
}

impl NetworkEvent {
    pub fn to_u8(self) -> (r: u8)
        ensures
            r == event_code(self),
    {
        match self {
            NetworkEvent::ProtocolVersionMismatch => 0,
            NetworkEvent::PeerSetChange => 1,
        }
    }

    /// The event with the given number, or `None` for an unknown number.
    pub fn try_from_u8(n: u8) -> (r: Option<NetworkEvent>)
        ensures
            r matches Some(e) ==> event_code(e) == n,
            r is None <==> n > 1,
    {
        if n == 0 {
            Some(NetworkEvent::ProtocolVersionMismatch)
        } else if n == 1 {
            Some(NetworkEvent::PeerSetChange)
        } else {
            None
        }
    }
}

/// The number of an event reads back as that event.
pub proof fn lemma_event_code_roundtrip(e: NetworkEvent)
    ensures
        event_code(e) <= 1,
        forall|f: NetworkEvent| event_code(f) == event_code(e) ==> f == e,
{
}

} // verus!
