//! Legacy local discovery: a custom protocol that multicasts UDP packets over the found
//! interfaces. Kept so that older versions can still find newer ones.
//!
//! The sockets and timers are the caller's; here are the decisions: which interfaces to watch,
//! what to answer a discovery message and which peer it reveals, and how long to wait between
//! beacons.

use crate::ip::{IpAddr, Ipv4Addr, SocketAddr};
use crate::peer_addr::{PeerAddr, PeerPort};
use crate::random::random_in_range;
use vstd::prelude::*;

verus! {

/// Seconds to wait when an error occurs on a socket.
pub const ERROR_DELAY_SECS: u64 = 3;

/// Version of the discovery protocol.
pub const PROTOCOL_VERSION: u8 = 0;

/// The longest wait between two beacons, in seconds.
pub const MAX_DELAY_SECS: u64 = 8;

/// "OUISYNC_DISCOVERY"
pub open spec fn protocol_magic() -> Seq<u8> {
    seq![0x4fu8, 0x55, 0x49, 0x53, 0x59, 0x4e, 0x43, 0x5f, 0x44, 0x49, 0x53, 0x43, 0x4f, 0x56, 0x45, 0x52, 0x59]
}

/// The magic bytes at the start of every discovery message.
pub fn magic() -> (r: [u8; 17])
    ensures
        r@ == protocol_magic(),
{
    let r = [0x4fu8, 0x55, 0x49, 0x53, 0x59, 0x4e, 0x43, 0x5f, 0x44, 0x49, 0x53, 0x43, 0x4f, 0x56, 0x45, 0x52, 0x59];
    assert(r@ =~= protocol_magic());
    r
}

/// The magic is the ASCII text "OUISYNC_DISCOVERY", which the peers of every version put at the
/// front of their discovery messages: a message from such a peer, of version 0 and with an id
/// other than ours, is answered (when a beacon) and reveals its sender.
pub proof fn lemma_magic_is_the_protocol_text()
    ensures
        PROTOCOL_VERSION == 0,
        protocol_magic().len() == "OUISYNC_DISCOVERY"@.len(),
        forall|i: int| 0 <= i < protocol_magic().len() ==> protocol_magic()[i] as int == "OUISYNC_DISCOVERY"@[i] as int,
{
    reveal_strlit("OUISYNC_DISCOVERY");
    let t = "OUISYNC_DISCOVERY"@;
    let m = protocol_magic();
    assert(t.len() == 17);
    assert forall|i: int| 0 <= i < m.len() implies m[i] as int == t[i] as int by {
        assert(t[0] == 'O' && t[1] == 'U' && t[2] == 'I' && t[3] == 'S' && t[4] == 'Y' && t[5] == 'N');
        assert(t[6] == 'C' && t[7] == '_' && t[8] == 'D' && t[9] == 'I' && t[10] == 'S' && t[11] == 'C');
        assert(t[12] == 'O' && t[13] == 'V' && t[14] == 'E' && t[15] == 'R' && t[16] == 'Y');
    }
}

/// How a replica takes part in local discovery.
#[derive(Clone, Copy, PartialEq, Eq, Debug, Structural)]
pub enum Mode {
    /// Multicast beacons as well as receive those of others.
    ObserveAndSignal,
    /// Only receive beacons (of older versions); rounds are still counted, so that peers not
    /// seen for a while are forgotten.
    ObserveOnly,
}

/// A discovery message.
#[derive(Clone, Copy, PartialEq, Eq, Debug)]
pub enum DiscoveryMessage {
    /// A beacon: "I'm here, you all".
    ImHereYouAll { id: [u8; 16], port: PeerPort },
    /// The answer to a beacon.
    Reply { id: [u8; 16], port: PeerPort },
}

/// A discovery message with the protocol's magic and version.
#[derive(Clone, Copy, PartialEq, Eq, Debug)]
pub struct VersionedMessage {
    pub magic: [u8; 17],
    pub version: u8,
    pub message: DiscoveryMessage,
}

/// What to do about a received discovery message.
#[derive(Clone, Copy, PartialEq, Eq, Debug)]
pub struct Outcome {
    /// The answer to send back to the sender, if any.
    pub reply: Option<DiscoveryMessage>,
    /// The peer the message reveals.
    pub peer: PeerAddr,
}

/// The peer at `ip` listening on `port`.
pub open spec fn peer_at(ip: IpAddr, port: PeerPort) -> PeerAddr {
    match port {
        PeerPort::Tcp(p) => PeerAddr::Tcp(socket_of(ip, p)),
        PeerPort::Quic(p) => PeerAddr::Quic(socket_of(ip, p)),
    }
}

pub open spec fn socket_of(ip: IpAddr, port: u16) -> SocketAddr {
    match ip {
        IpAddr::V4(a) => SocketAddr::V4(a, port),
        IpAddr::V6(a) => SocketAddr::V6(a, port),
    }
}

fn make_socket(ip: IpAddr, port: u16) -> (r: SocketAddr)
    ensures
        r == socket_of(ip, port),
{
    match ip {
        IpAddr::V4(a) => SocketAddr::V4(a, port),
        IpAddr::V6(a) => SocketAddr::V6(a, port),
    }
}

fn bytes17_eq(a: &[u8; 17], b: &[u8; 17]) -> (r: bool)
    ensures
        r == (a@ == b@),
{
    let mut i: usize = 0;
    while i < 17
        invariant
            i <= 17,
            a@.len() == 17,
            b@.len() == 17,
            forall|j: int| 0 <= j < i ==> a@[j] == b@[j],
        decreases 17 - i,
    {
        if a[i] != b[i] {
            return false;
        }
        i = i + 1;
    }
    assert(a@ =~= b@);
    true
}

fn bytes16_eq(a: &[u8; 16], b: &[u8; 16]) -> (r: bool)
    ensures
        r == (a@ == b@),
{
    let mut i: usize = 0;
    while i < 16
        invariant
            i <= 16,
            a@.len() == 16,
            b@.len() == 16,
            forall|j: int| 0 <= j < i ==> a@[j] == b@[j],
        decreases 16 - i,
    {
        if a[i] != b[i] {
            return false;
        }
        i = i + 1;
    }
    assert(a@ =~= b@);
    true
}

/// What to do about a discovery message from `from`, for the replica with id `self_id`
/// listening on `listener_port`. Messages of another protocol or version, and our own
/// messages, are ignored. A beacon is answered with a reply carrying our id and port; beacons
/// and replies both reveal the sender at the port it announces.
pub fn handle_message(msg: &VersionedMessage, self_id: &[u8; 16], listener_port: PeerPort, from: SocketAddr) -> (r: Option<Outcome>)
    ensures
        ({
            let (id, port, is_beacon) = match msg.message {
                DiscoveryMessage::ImHereYouAll { id, port } => (id, port, true),
                DiscoveryMessage::Reply { id, port } => (id, port, false),
            };
            &&& r is None <==> msg.magic@ != protocol_magic() || msg.version != PROTOCOL_VERSION || id@ == self_id@
            &&& r matches Some(o) ==> o.peer == peer_at(from.spec_ip(), port)
                && (is_beacon ==> o.reply == Some(DiscoveryMessage::Reply { id: *self_id, port: listener_port }))
                && (!is_beacon ==> o.reply is None)
        }),
{
    let m = magic();
    if !bytes17_eq(&msg.magic, &m) || msg.version != PROTOCOL_VERSION {
        return None;
    }
    let (id, port, is_beacon) = match msg.message {
        DiscoveryMessage::ImHereYouAll { id, port } => (id, port, true),
        DiscoveryMessage::Reply { id, port } => (id, port, false),
    };
    if bytes16_eq(&id, self_id) {
        return None;
    }
    let reply = if is_beacon {
        Some(DiscoveryMessage::Reply { id: *self_id, port: listener_port })
    } else {
        None
    };
    let ip = from.ip();
    let peer = match port {
        PeerPort::Tcp(p) => PeerAddr::Tcp(make_socket(ip, p)),
        PeerPort::Quic(p) => PeerAddr::Quic(make_socket(ip, p)),
    };
    Some(Outcome { reply, peer })
}

/// The beacon of the replica with id `self_id` listening on `listener_port`.
pub fn beacon(self_id: [u8; 16], listener_port: PeerPort) -> (r: VersionedMessage)
    ensures
        r.magic@ == protocol_magic(),
        r.version == PROTOCOL_VERSION,
        r.message == (DiscoveryMessage::ImHereYouAll { id: self_id, port: listener_port }),
{
    VersionedMessage {
        magic: magic(),
        version: PROTOCOL_VERSION,
        message: DiscoveryMessage::ImHereYouAll { id: self_id, port: listener_port },
    }
}

/// Seconds to wait before the next beacon round: a random time from 2 up to 8 seconds when
/// signalling, the longest time when only observing.
pub fn beacon_delay_secs(mode: Mode) -> (r: u64)
    ensures
        mode == Mode::ObserveOnly ==> r == MAX_DELAY_SECS,
        mode == Mode::ObserveAndSignal ==> 2 <= r < MAX_DELAY_SECS,
{
    match mode {
        Mode::ObserveAndSignal => random_in_range(2, MAX_DELAY_SECS),
        Mode::ObserveOnly => MAX_DELAY_SECS,
    }
}

/// The interface to run discovery on when the interface with address `interface` comes up:
/// IPv4 interfaces other than loopback ones.
pub fn discovery_interface(interface: IpAddr) -> (r: Option<Ipv4Addr>)
    ensures
        r matches Some(a) ==> interface == IpAddr::V4(a),
        r is Some <==> interface is V4 && !crate::ip::v4_loopback(interface->V4_0),
{
    match interface {
        IpAddr::V4(a) => {
            if a.is_loopback() {
                None
            } else {
                Some(a)
            }
        },
        IpAddr::V6(_) => None,
    }
}

} // verus!
