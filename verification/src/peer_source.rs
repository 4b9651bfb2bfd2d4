//! How a peer was discovered, and the direction of the resulting connection.

use vstd::prelude::*;

verus! {

/// How was the peer discovered.
#[derive(Clone, Copy, Debug, PartialEq, Eq, Structural, PartialOrd, Ord, Hash)]
pub enum PeerSource {
    /// Explicitly added by the user.
    UserProvided,
    /// Peer connected to us.
    Listener,
    /// Discovered on the Local Discovery.
    LocalDiscovery,
    /// Discovered on the DHT.
    Dht,
    /// Discovered on the Peer Exchange.
    PeerExchange,
}

/// The number that stands for a peer source on the wire.
pub open spec fn source_code(source: PeerSource) -> u8 {
    match source {
        PeerSource::UserProvided => 0,
        PeerSource::Listener => 1,
        PeerSource::LocalDiscovery => 2,
        PeerSource::Dht => 3,
        PeerSource::PeerExchange => 4,
    }
}

impl PeerSource {
    /// The number of this source on the wire.
    pub fn to_u8(self) -> (r: u8)
        ensures
            r == source_code(self),
    {
        match self {
            PeerSource::UserProvided => 0,
            PeerSource::Listener => 1,
            PeerSource::LocalDiscovery => 2,
            PeerSource::Dht => 3,
            PeerSource::PeerExchange => 4,
        }
    }

    /// The source with the given number, if there is one.
    pub fn try_from_u8(value: u8) -> (r: Option<PeerSource>)
        ensures
            r matches Some(s) ==> source_code(s) == value,
            r is None <==> value > 4,
    {
        match value {
            0 => Some(PeerSource::UserProvided),
            1 => Some(PeerSource::Listener),
            2 => Some(PeerSource::LocalDiscovery),
            3 => Some(PeerSource::Dht),
            4 => Some(PeerSource::PeerExchange),
            _ => None,
        }
    }

    /// The direction of a connection to a peer found this way.
    pub fn direction(self) -> (r: ConnectionDirection)
        ensures
            r == direction_of(self),
    {
        ConnectionDirection::from_source(self)
    }
}

/// Converting a source to its number and back gives the source again.
pub proof fn lemma_source_code_roundtrip(source: PeerSource)
    ensures
        source_code(source) <= 4,
        forall|s: PeerSource| source_code(s) == source_code(source) ==> s == source,
{
}

/// Direction of a connection.
#[derive(Clone, Copy, Debug, PartialEq, Eq, Structural, PartialOrd, Ord, Hash)]
pub enum ConnectionDirection {
    Incoming,
    Outgoing,
}

pub open spec fn direction_of(source: PeerSource) -> ConnectionDirection {
    if source == PeerSource::Listener {
        ConnectionDirection::Incoming
    } else {
        ConnectionDirection::Outgoing
    }
}

impl ConnectionDirection {
    /// Only the peers that connected to us make an incoming connection.
    pub fn from_source(source: PeerSource) -> (r: Self)
        ensures
            r == direction_of(source),
    {
        match source {
            PeerSource::Listener => ConnectionDirection::Incoming,
            PeerSource::UserProvided
            | PeerSource::LocalDiscovery
            | PeerSource::Dht
            | PeerSource::PeerExchange => ConnectionDirection::Outgoing,
        }
    }
}

} // verus!
