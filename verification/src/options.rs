//! Network options.

use crate::gateway::{find_first, first_matching};
use crate::ip::{Ipv4Addr, Ipv6Addr, SocketAddr};
use crate::peer_addr::PeerAddr;
use vstd::prelude::*;

verus! {

/// Network options.
pub struct NetworkOptions {
    /// Addresses to bind to, in the form `{tcp,quic}/IP:PORT`. There may be at most one of each
    /// (protocol, IP version) combination; of several, the first is used.
    pub bind: Vec<PeerAddr>,
    /// Disable local discovery.
    pub disable_local_discovery: bool,
    /// Disable UPnP.
    pub disable_upnp: bool,
    /// Disable DHT.
    pub disable_dht: bool,
    /// Explicit list of `{tcp,quic}/IP:PORT` addresses of peers to connect to.
    pub peers: Vec<PeerAddr>,
}

impl NetworkOptions {
    /// Binding to QUIC on any IPv4 and any IPv6 address, with a random port each; everything
    /// enabled; no explicit peers.
    pub fn new() -> (r: Self)
        ensures
            r.bind@ == seq![
                PeerAddr::Quic(SocketAddr::V4(Ipv4Addr { o0: 0, o1: 0, o2: 0, o3: 0 }, 0)),
                PeerAddr::Quic(SocketAddr::V6(Ipv6Addr { s0: 0, s1: 0, s2: 0, s3: 0, s4: 0, s5: 0, s6: 0, s7: 0 }, 0)),
            ],
            !r.disable_local_discovery,
            !r.disable_upnp,
            !r.disable_dht,
            r.peers@.len() == 0,
    {
        let mut bind: Vec<PeerAddr> = Vec::new();
        bind.push(PeerAddr::Quic(SocketAddr::V4(Ipv4Addr::new(0, 0, 0, 0), 0)));
        bind.push(PeerAddr::Quic(SocketAddr::V6(Ipv6Addr::new(0, 0, 0, 0, 0, 0, 0, 0), 0)));
        let r = NetworkOptions {
            bind,
            disable_local_discovery: false,
            disable_upnp: false,
            disable_dht: false,
            peers: Vec::new(),
        };
        assert(r.bind@ =~= seq![
            PeerAddr::Quic(SocketAddr::V4(Ipv4Addr { o0: 0, o1: 0, o2: 0, o3: 0 }, 0)),
            PeerAddr::Quic(SocketAddr::V6(Ipv6Addr { s0: 0, s1: 0, s2: 0, s3: 0, s4: 0, s5: 0, s6: 0, s7: 0 }, 0)),
        ]);
        r
    }

    /// The first TCP IPv4 address to bind to.
    pub fn listen_tcp_addr_v4(&self) -> (r: Option<SocketAddr>)
        ensures
            r == first_matching(self.bind@, false, true),
    {
        find_first(self.bind.as_slice(), false, true)
    }

    /// The first TCP IPv6 address to bind to.
    pub fn listen_tcp_addr_v6(&self) -> (r: Option<SocketAddr>)
        ensures
            r == first_matching(self.bind@, false, false),
    {
        find_first(self.bind.as_slice(), false, false)
    }

    /// The first QUIC IPv4 address to bind to.
    pub fn listen_quic_addr_v4(&self) -> (r: Option<SocketAddr>)
        ensures
            r == first_matching(self.bind@, true, true),
    {
        find_first(self.bind.as_slice(), true, true)
    }

    /// The first QUIC IPv6 address to bind to.
    pub fn listen_quic_addr_v6(&self) -> (r: Option<SocketAddr>)
        ensures
            r == first_matching(self.bind@, true, false),
    {
        find_first(self.bind.as_slice(), true, false)
    }
}

} // verus!
