//! Decisions of the connection gateway: which addresses may be connected to, when the listeners
//! need to be rebound and what connectivity the bound addresses give.

use crate::ip::{
    is_benchmarking, is_documentation, is_global, is_reserved, ip_global, ip_unspecified, v4_benchmarking,
    v4_broadcast, v4_documentation, v4_link_local, v4_loopback, v4_private, v4_reserved,
    v6_documentation, v6_loopback, v6_multicast, v6_unicast_link_local, v6_unique_local,
    v6_unspecified, IpAddr, Ipv4Addr, Ipv6Addr, SocketAddr,
};
use crate::peer_addr::PeerAddr;
use crate::peer_source::PeerSource;
use vstd::prelude::*;

verus! {

/// Whether connecting to `addr`, found through `source`, is allowed.
pub open spec fn connect_allowed(addr: SocketAddr, source: PeerSource) -> bool {
    if addr.spec_port() == 0 || addr.spec_port() == 1 {
        false
    } else {
        match addr {
            SocketAddr::V4(ip, _) => {
                &&& ip.o0 != 0
                &&& !v4_benchmarking(ip)
                &&& !v4_reserved(ip)
                &&& !v4_broadcast(ip)
                &&& !v4_documentation(ip)
                &&& !(source == PeerSource::Dht && (v4_private(ip) || v4_loopback(ip)
                    || v4_link_local(ip)))
            },
            SocketAddr::V6(ip, _) => {
                &&& !v6_multicast(ip)
                &&& !v6_unspecified(ip)
                &&& !v6_documentation(ip)
                &&& !(source == PeerSource::Dht && (v6_loopback(ip) || v6_unicast_link_local(ip)
                    || v6_unique_local(ip)))
            },
        }
    }
}

/// Filter out some weird socket addresses. We don't want to connect to those. Peers found on the
/// DHT are additionally refused when their address is private, loopback or link-local.
pub fn ok_to_connect(addr: &SocketAddr, source: PeerSource) -> (r: bool)
    ensures
        r == connect_allowed(*addr, source),
{
    if addr.port() == 0 || addr.port() == 1 {
        return false;
    }
    match addr {
        SocketAddr::V4(ip_addr, _) => {
            if ip_addr.o0 == 0 {
                return false;
            }
            if is_benchmarking(ip_addr) || is_reserved(ip_addr) || ip_addr.is_broadcast()
                || ip_addr.is_documentation() {
                return false;
            }
            if source == PeerSource::Dht && (ip_addr.is_private() || ip_addr.is_loopback()
                || ip_addr.is_link_local()) {
                return false;
            }
        },
        SocketAddr::V6(ip_addr, _) => {
            if ip_addr.is_multicast() || ip_addr.is_unspecified() || is_documentation(ip_addr) {
                return false;
            }
            if source == PeerSource::Dht && (ip_addr.is_loopback() || ip_addr.is_unicast_link_local()
                || ip_addr.is_unique_local()) {
                return false;
            }
        },
    }
    true
}

/// How a peer was found matters only for the DHT: every other source is treated alike, and no
/// address allowed for a DHT peer is refused for a peer found otherwise. In particular an IPv4
/// peer on a port above 1, with a nonzero first octet and outside the benchmarking, reserved,
/// broadcast and documentation ranges, may be connected to whatever its address when it was not
/// found on the DHT (a private address the user gave, say), while the DHT's private, loopback
/// and link-local addresses are refused.
pub proof fn lemma_only_dht_peers_are_restricted(addr: SocketAddr, s1: PeerSource, s2: PeerSource)
    ensures
        s1 != PeerSource::Dht && s2 != PeerSource::Dht ==> connect_allowed(addr, s1) == connect_allowed(addr, s2),
        connect_allowed(addr, PeerSource::Dht) ==> connect_allowed(addr, s1),
        // Whatever the source: ports 0 and 1 are refused, and so are the IPv4 addresses
        // 0.0.0.0/8 and those for benchmarking, reserved, broadcast or documentation, and the
        // IPv6 multicast, unspecified and documentation addresses.
        addr.spec_port() <= 1 ==> !connect_allowed(addr, s1),
        addr matches SocketAddr::V4(ip, port) ==> (ip.o0 == 0 || v4_benchmarking(ip) || v4_reserved(ip)
            || v4_broadcast(ip) || v4_documentation(ip) ==> !connect_allowed(addr, s1)),
        addr matches SocketAddr::V6(ip, port) ==> (v6_multicast(ip) || v6_unspecified(ip) || v6_documentation(ip)
            ==> !connect_allowed(addr, s1)),
        addr matches SocketAddr::V4(ip, port) ==> (port > 1 && ip.o0 != 0 && !v4_benchmarking(ip) && !v4_reserved(ip)
            && !v4_broadcast(ip) && !v4_documentation(ip) ==> {
            &&& s1 != PeerSource::Dht ==> connect_allowed(addr, s1)
            &&& connect_allowed(addr, PeerSource::Dht) <==> !(v4_private(ip) || v4_loopback(ip) || v4_link_local(ip))
        }),
        addr matches SocketAddr::V6(ip, port) ==> (port > 1 && !v6_multicast(ip) && !v6_unspecified(ip)
            && !v6_documentation(ip) ==> {
            &&& s1 != PeerSource::Dht ==> connect_allowed(addr, s1)
            &&& connect_allowed(addr, PeerSource::Dht) <==> !(v6_loopback(ip) || v6_unicast_link_local(ip)
                || v6_unique_local(ip))
        }),
{
}

/// Addresses the four stacks (QUIC and TCP, each over IPv4 and IPv6) are bound to.
#[derive(Clone, Copy, Debug, PartialEq, Eq, Structural)]
pub struct StackAddresses {
    pub quic_v4: Option<SocketAddr>,
    pub quic_v6: Option<SocketAddr>,
    pub tcp_v4: Option<SocketAddr>,
    pub tcp_v6: Option<SocketAddr>,
}

/// Whether moving a stack from the `old` address to the `new` one requires rebinding it. An
/// unspecified IP or a zero port in `new` means "any", which the old binding may already satisfy.
pub open spec fn rebind_needed(old: Option<SocketAddr>, new: Option<SocketAddr>) -> bool {
    match (old, new) {
        (Some(o), Some(n)) => {
            let ou = ip_unspecified(o.spec_ip());
            let op = o.spec_port() == 0;
            let nu = ip_unspecified(n.spec_ip());
            let np = n.spec_port() == 0;
            if nu && np {
                // Any address will do: rebind only if we are bound to a specific IP.
                !ou
            } else if np {
                // A specific IP, any port.
                ou || o.spec_ip() != n.spec_ip()
            } else if nu {
                // Any IP, a specific port.
                !(ou && !op && o.spec_port() == n.spec_port())
            } else {
                // A specific IP and port.
                ou || op || o.spec_ip() != n.spec_ip() || o.spec_port() != n.spec_port()
            }
        },
        (Some(_), None) => true,
        (None, Some(_)) => true,
        (None, None) => false,
    }
}

pub fn needs_rebind(old_addr: &Option<SocketAddr>, new_addr: &Option<SocketAddr>) -> (r: bool)
    ensures
        r == rebind_needed(*old_addr, *new_addr),
{
    match (old_addr, new_addr) {
        (Some(old_addr), Some(new_addr)) => {
            let old_ip = old_addr.ip();
            let old_port = old_addr.port();
            let new_ip = new_addr.ip();
            let new_port = new_addr.port();

            // The cases, in the order (old ip unspecified, old port zero, new ip unspecified,
            // new port zero).
            match (old_ip.is_unspecified(), old_port == 0, new_ip.is_unspecified(), new_port == 0) {
                (true, true, true, true) => false,
                (false, true, true, true) => true,
                (true, false, true, true) => false,
                (false, false, true, true) => true,
                (true, true, false, true) => true,
                (false, true, false, true) => old_ip != new_ip,
                (true, false, false, true) => true,
                (false, false, false, true) => old_ip != new_ip,
                (true, true, true, false) => true,
                (false, true, true, false) => true,
                (true, false, true, false) => old_port != new_port,
                (false, false, true, false) => true,
                (true, true, false, false) => true,
                (false, true, false, false) => true,
                (true, false, false, false) => true,
                (false, false, false, false) => old_ip != new_ip || old_port != new_port,
            }
        },
        (Some(_), None) => true,
        (None, Some(_)) => true,
        (None, None) => false,
    }
}

/// Staying on the same address never requires rebinding.
pub proof fn lemma_same_address_needs_no_rebind(addr: Option<SocketAddr>)
    ensures
        !rebind_needed(addr, addr),
{
}

pub open spec fn first_matching(addrs: Seq<PeerAddr>, quic: bool, v4: bool) -> Option<SocketAddr>
    decreases addrs.len(),
{
    if addrs.len() == 0 {
        None
    } else {
        let a = addrs[0];
        let hit = (a is Quic) == quic && (a.spec_socket_addr() is V4) == v4;
        if hit {
            Some(a.spec_socket_addr())
        } else {
            first_matching(addrs.drop_first(), quic, v4)
        }
    }
}

/// The first address in `addrs` with the given protocol and IP version.
pub fn find_first(addrs: &[PeerAddr], quic: bool, v4: bool) -> (r: Option<SocketAddr>)
    ensures
        r == first_matching(addrs@, quic, v4),
{
    let mut i: usize = 0;
    assert(addrs@.skip(0) =~= addrs@);
    while i < addrs.len()
        invariant
            i <= addrs@.len(),
            first_matching(addrs@, quic, v4) == first_matching(addrs@.skip(i as int), quic, v4),
        decreases addrs@.len() - i,
    {
        let a = addrs[i];
        proof {
            assert(addrs@.skip(i as int)[0] == a);
            assert(addrs@.skip(i as int).drop_first() =~= addrs@.skip(i + 1));
        }
        if a.is_quic() == quic && (match a.socket_addr() {
            SocketAddr::V4(..) => true,
            SocketAddr::V6(..) => false,
        }) == v4 {
            return Some(*a.socket_addr());
        }
        i = i + 1;
    }
    proof {
        assert(addrs@.skip(i as int).len() == 0);
    }
    None
}

impl StackAddresses {
    pub open spec fn spec_from(addrs: Seq<PeerAddr>) -> StackAddresses {
        StackAddresses {
            quic_v4: first_matching(addrs, true, true),
            quic_v6: first_matching(addrs, true, false),
            tcp_v4: first_matching(addrs, false, true),
            tcp_v6: first_matching(addrs, false, false),
        }
    }

    /// Picks, for each stack, the first address in `addrs` of its protocol and IP version.
    pub fn from_peer_addrs(addrs: &[PeerAddr]) -> (r: StackAddresses)
        ensures
            r == StackAddresses::spec_from(addrs@),
    {
        StackAddresses {
            quic_v4: find_first(addrs, true, true),
            quic_v6: find_first(addrs, true, false),
            tcp_v4: find_first(addrs, false, true),
            tcp_v6: find_first(addrs, false, false),
        }
    }

    pub open spec fn spec_addrs(self) -> Seq<SocketAddr> {
        opt_seq(self.quic_v4) + opt_seq(self.quic_v6) + opt_seq(self.tcp_v4) + opt_seq(
            self.tcp_v6,
        )
    }

    /// The bound addresses, in the order QUIC v4, QUIC v6, TCP v4, TCP v6.
    pub fn addrs(&self) -> (r: Vec<SocketAddr>)
        ensures
            r@ == self.spec_addrs(),
    {
        let mut v: Vec<SocketAddr> = Vec::new();
        if let Some(a) = self.quic_v4 {
            v.push(a);
        }
        if let Some(a) = self.quic_v6 {
            v.push(a);
        }
        if let Some(a) = self.tcp_v4 {
            v.push(a);
        }
        if let Some(a) = self.tcp_v6 {
            v.push(a);
        }
        assert(v@ =~= self.spec_addrs());
        v
    }

    pub fn is_empty(&self) -> (r: bool)
        ensures
            r == (self.spec_addrs().len() == 0),
    {
        self.quic_v4.is_none() && self.quic_v6.is_none() && self.tcp_v4.is_none()
            && self.tcp_v6.is_none()
    }

    pub open spec fn spec_any_needs_rebind(self, new: StackAddresses) -> bool {
        ||| rebind_needed(self.quic_v4, new.quic_v4)
        ||| rebind_needed(self.quic_v6, new.quic_v6)
        ||| rebind_needed(self.tcp_v4, new.tcp_v4)
        ||| rebind_needed(self.tcp_v6, new.tcp_v6)
    }

    pub fn any_stack_needs_rebind(&self, new_stack_addresses: &StackAddresses) -> (r: bool)
        ensures
            r == self.spec_any_needs_rebind(*new_stack_addresses),
    {
        needs_rebind(&self.quic_v4, &new_stack_addresses.quic_v4) || needs_rebind(
            &self.quic_v6,
            &new_stack_addresses.quic_v6,
        ) || needs_rebind(&self.tcp_v4, &new_stack_addresses.tcp_v4) || needs_rebind(
            &self.tcp_v6,
            &new_stack_addresses.tcp_v6,
        )
    }
}

pub open spec fn opt_seq(a: Option<SocketAddr>) -> Seq<SocketAddr> {
    match a {
        Some(a) => seq![a],
        None => Seq::empty(),
    }
}

/// How far this replica can reach, given the addresses it is bound to.
#[derive(Clone, Copy, Debug, PartialEq, Eq, Structural)]
pub enum Connectivity {
    Disabled,
    LocalOnly,
    Full,
}

pub open spec fn connectivity_of(addrs: Seq<SocketAddr>) -> Connectivity {
    if addrs.len() == 0 {
        Connectivity::Disabled
    } else if exists|i: int|
        0 <= i < addrs.len() && (ip_unspecified(#[trigger] addrs[i].spec_ip()) || ip_global(
            addrs[i].spec_ip(),
        )) {
        Connectivity::Full
    } else {
        Connectivity::LocalOnly
    }
}

pub open spec fn rank(c: Connectivity) -> int {
    match c {
        Connectivity::Disabled => 0,
        Connectivity::LocalOnly => 1,
        Connectivity::Full => 2,
    }
}

pub open spec fn allows(c: Connectivity, ip: IpAddr) -> bool {
    match c {
        Connectivity::Disabled => false,
        Connectivity::LocalOnly => !ip_global(ip),
        Connectivity::Full => true,
    }
}

impl Connectivity {
    /// `addrs` are the local addresses we're binding to.
    pub fn infer(addrs: &StackAddresses) -> (r: Self)
        ensures
            r == connectivity_of(addrs.spec_addrs()),
    {
        let v = addrs.addrs();
        if v.len() == 0 {
            return Connectivity::Disabled;
        }
        let mut i: usize = 0;
        while i < v.len()
            invariant
                i <= v@.len(),
                v@ == addrs.spec_addrs(),
                forall|j: int|
                    0 <= j < i ==> !(ip_unspecified(#[trigger] v@[j].spec_ip()) || ip_global(
                        v@[j].spec_ip(),
                    )),
            decreases v@.len() - i,
        {
            let ip = v[i].ip();
            if ip.is_unspecified() || is_global(&ip) {
                let ghost sa = addrs.spec_addrs();
                assert(sa[i as int] == v@[i as int]);
                assert(0 <= i < sa.len() && (ip_unspecified(sa[i as int].spec_ip()) || ip_global(
                    sa[i as int].spec_ip(),
                )));
                return Connectivity::Full;
            }
            i = i + 1;
        }
        Connectivity::LocalOnly
    }

    pub fn allows_connection_to(&self, addr: IpAddr) -> (r: bool)
        ensures
            r == allows(*self, addr),
    {
        match self {
            Connectivity::Disabled => false,
            Connectivity::LocalOnly => !is_global(&addr),
            Connectivity::Full => true,
        }
    }

    /// `Full` is less restrictive than `LocalOnly` which is less restrictive than `Disabled`.
    pub fn is_less_restrictive_than(&self, other: Connectivity) -> (r: bool)
        ensures
            r == (rank(*self) > rank(other)),
    {
        match (self, other) {
            (Connectivity::LocalOnly, Connectivity::Disabled)
            | (Connectivity::Full, Connectivity::Disabled)
            | (Connectivity::Full, Connectivity::LocalOnly) => true,
            (_, _) => false,
        }
    }
}

/// The connectivity the bound addresses give: none without any; full as soon as one stack is
/// bound to the unspecified address (0.0.0.0 or ::, which listens on every interface) or to a
/// global address; local only when every stack is bound to a specific address that is not
/// global.
pub proof fn lemma_connectivity_of_bound_addresses(addrs: StackAddresses)
    ensures
        addrs.quic_v4 is None && addrs.quic_v6 is None && addrs.tcp_v4 is None && addrs.tcp_v6 is None
            ==> connectivity_of(addrs.spec_addrs()) == Connectivity::Disabled,
        (exists|a: SocketAddr|
            (addrs.quic_v4 == Some(a) || addrs.quic_v6 == Some(a) || addrs.tcp_v4 == Some(a) || addrs.tcp_v6
                == Some(a)) && (ip_unspecified(a.spec_ip()) || ip_global(a.spec_ip())))
            ==> connectivity_of(addrs.spec_addrs()) == Connectivity::Full,
        (addrs.quic_v4 is Some || addrs.quic_v6 is Some || addrs.tcp_v4 is Some || addrs.tcp_v6 is Some) && (
        forall|a: SocketAddr|
            (addrs.quic_v4 == Some(a) || addrs.quic_v6 == Some(a) || addrs.tcp_v4 == Some(a) || addrs.tcp_v6
                == Some(a)) ==> !ip_unspecified(a.spec_ip()) && !ip_global(a.spec_ip()))
            ==> connectivity_of(addrs.spec_addrs()) == Connectivity::LocalOnly,
        // The unspecified address is not a global one: binding to it is what gives full
        // connectivity.
        !ip_global(IpAddr::V4(Ipv4Addr { o0: 0, o1: 0, o2: 0, o3: 0 })),
        !ip_global(IpAddr::V6(Ipv6Addr { s0: 0, s1: 0, s2: 0, s3: 0, s4: 0, s5: 0, s6: 0, s7: 0 })),
{
    assert((0u16 & 0xff00u16) == 0u16) by (bit_vector);
    let v = addrs.spec_addrs();
    let q4 = opt_seq(addrs.quic_v4);
    let q6 = opt_seq(addrs.quic_v6);
    let t4 = opt_seq(addrs.tcp_v4);
    let t6 = opt_seq(addrs.tcp_v6);
    assert forall|i: int| 0 <= i < v.len() implies (addrs.quic_v4 == Some(#[trigger] v[i]) || addrs.quic_v6 == Some(v[i])
        || addrs.tcp_v4 == Some(v[i]) || addrs.tcp_v6 == Some(v[i])) by {
        let n1 = q4.len() as int;
        let n2 = n1 + q6.len();
        let n3 = n2 + t4.len();
        if i < n1 {
            assert(v[i] == q4[i]);
        } else if i < n2 {
            assert(v[i] == q6[i - n1]);
        } else if i < n3 {
            assert(v[i] == t4[i - n2]);
        } else {
            assert(v[i] == t6[i - n3]);
        }
    }
    if exists|a: SocketAddr|
        (addrs.quic_v4 == Some(a) || addrs.quic_v6 == Some(a) || addrs.tcp_v4 == Some(a) || addrs.tcp_v6 == Some(a))
            && (ip_unspecified(a.spec_ip()) || ip_global(a.spec_ip())) {
        let a = choose|a: SocketAddr|
            (addrs.quic_v4 == Some(a) || addrs.quic_v6 == Some(a) || addrs.tcp_v4 == Some(a) || addrs.tcp_v6
                == Some(a)) && (ip_unspecified(a.spec_ip()) || ip_global(a.spec_ip()));
        let n1 = q4.len() as int;
        let n2 = n1 + q6.len();
        let n3 = n2 + t4.len();
        if addrs.quic_v4 == Some(a) {
            assert(v[0] == a);
        } else if addrs.quic_v6 == Some(a) {
            assert(v[n1] == a);
        } else if addrs.tcp_v4 == Some(a) {
            assert(v[n2] == a);
        } else {
            assert(v[n3] == a);
        }
    }
    if addrs.quic_v4 is Some || addrs.quic_v6 is Some || addrs.tcp_v4 is Some || addrs.tcp_v6 is Some {
        assert(v.len() > 0);
    } else {
        assert(v.len() == 0);
    }
}

/// "Less restrictive than" is a strict total order on connectivities, and a less restrictive
/// connectivity allows connections to every address a more restrictive one allows.
pub proof fn lemma_restrictiveness_order(a: Connectivity, b: Connectivity, c: Connectivity, ip: IpAddr)
    ensures
        !(rank(a) > rank(a)),
        rank(a) > rank(b) && rank(b) > rank(c) ==> rank(a) > rank(c),
        a != b ==> (rank(a) > rank(b) || rank(b) > rank(a)),
        rank(a) > rank(b) && allows(b, ip) ==> allows(a, ip),
{
}

/// Binding to nothing disables connectivity, and only then.
pub proof fn lemma_disabled_iff_unbound(addrs: StackAddresses)
    ensures
        (connectivity_of(addrs.spec_addrs()) == Connectivity::Disabled) <==> (addrs.quic_v4 is None
            && addrs.quic_v6 is None && addrs.tcp_v4 is None && addrs.tcp_v6 is None),
{
}

/// What happened while connecting to a peer.
#[derive(Clone, Copy, PartialEq, Eq, Debug, Structural)]
pub enum ConnectEvent {
    /// The discovery mechanism no longer sees the peer.
    Unseen,
    /// The stacks allow a connection to the peer, with this connectivity.
    Allowed(Connectivity),
    /// The connection was established; `still_allowed` tells whether the stacks still allow it
    /// (a rebind may have happened meanwhile).
    Connected { still_allowed: bool },
    /// The connection attempt failed; `locally_closed` when the connector was closed on our side.
    Failed { locally_closed: bool },
}

#[verifier::external_type_specification]
#[verifier::external_body]
#[verifier::reject_recursive_types(C)]
pub struct ExExponentialBackoff<C>(backoff::exponential::ExponentialBackoff<C>);

#[verifier::external_type_specification]
#[verifier::external_body]
pub struct ExSystemClock(backoff::SystemClock);

/// Milliseconds of the first retry interval of a connection.
pub const CONNECT_BACKOFF_INITIAL_MILLIS: u64 = 200;

/// Milliseconds that the retry interval of a connection grows to at most.
pub const CONNECT_BACKOFF_MAX_MILLIS: u64 = 10000;

/// The backoff between the attempts to connect to a peer: an exponential backoff of the
/// `backoff` crate without a limit on the elapsed time. Only `new_backoff` makes one.
pub struct ConnectBackoff {
    inner: backoff::exponential::ExponentialBackoff<backoff::SystemClock>,
}

/// `backoff::ExponentialBackoffBuilder` with the initial and the largest interval given in
/// milliseconds and no limit on the elapsed time (`with_max_elapsed_time(None)`), then `build`:
/// an exponential backoff with the crate's default randomisation (half the interval either way)
/// and growth (half again each time). Its intervals are the crate's to compute and draw; nothing
/// is claimed of them here.
#[verifier::external_body]
fn new_backoff(initial_millis: u64, max_millis: u64) -> ConnectBackoff {
    ConnectBackoff {
        inner: backoff::ExponentialBackoffBuilder::new()
            .with_initial_interval(std::time::Duration::from_millis(initial_millis))
            .with_max_interval(std::time::Duration::from_millis(max_millis))
            .with_max_elapsed_time(None)
            .build(),
    }
}

/// `backoff::backoff::Backoff::next_backoff`, in whole milliseconds. It gives `None` only past
/// the backoff's elapsed-time limit, and a `ConnectBackoff` has none, so there is always a next
/// wait. The wait is drawn at random; its length is not claimed here.
#[verifier::external_body]
fn next_backoff_millis(backoff: &mut ConnectBackoff) -> (r: Option<u64>)
    ensures
        r is Some,
{
    backoff::backoff::Backoff::next_backoff(&mut backoff.inner).map(|wait| wait.as_millis() as u64)
}

/// What to do next while connecting to a peer.
#[derive(Clone, Copy, PartialEq, Eq, Debug, Structural)]
pub enum ConnectAction {
    /// Wait until the stacks allow a connection to the peer (or it is no longer seen).
    AwaitConnectivity,
    /// Connect; first reset the backoff when asked, and start punching holes when asked.
    Connect { reset_backoff: bool, start_hole_punching: bool },
    /// Wait this many milliseconds (the next backoff interval), then wait for connectivity again.
    Backoff { delay_millis: u64 },
    /// Use the established connection.
    Done,
    /// Give up on the peer.
    GiveUp,
}

/// The decisions of connecting to one peer with retries.
pub struct ConnectAttempts {
    pub prev_connectivity: Connectivity,
    pub hole_punching_started: bool,
    /// The backoff between failed attempts, from 200 ms growing to 10 s.
    pub backoff: ConnectBackoff,
}

impl ConnectAttempts {
    /// Starts connecting to the peer at `addr`, found through `source`: addresses that may not
    /// be connected to give up at once.
    pub fn start(addr: &SocketAddr, source: PeerSource) -> (r: (ConnectAttempts, ConnectAction))
        ensures
            r.0.prev_connectivity == Connectivity::Disabled,
            !r.0.hole_punching_started,
            r.1 == if connect_allowed(*addr, source) { ConnectAction::AwaitConnectivity } else { ConnectAction::GiveUp },
    {
        let attempts = ConnectAttempts {
            prev_connectivity: Connectivity::Disabled,
            hole_punching_started: false,
            backoff: new_backoff(CONNECT_BACKOFF_INITIAL_MILLIS, CONNECT_BACKOFF_MAX_MILLIS),
        };
        if ok_to_connect(addr, source) {
            (attempts, ConnectAction::AwaitConnectivity)
        } else {
            (attempts, ConnectAction::GiveUp)
        }
    }

    /// The next action after `event`. The backoff starts over when the connectivity became less
    /// restrictive; hole punching is started once; an established connection is used only while
    /// the stacks still allow it; a failed attempt waits for the next backoff interval and tries
    /// again; a connector closed on our side, or a peer no longer seen, ends the attempts.
    pub fn step(&mut self, event: ConnectEvent) -> (r: ConnectAction)
        ensures
            event == ConnectEvent::Unseen ==> r == ConnectAction::GiveUp,
            event matches ConnectEvent::Allowed(next) ==> r == (ConnectAction::Connect {
                reset_backoff: rank(next) > rank(old(self).prev_connectivity),
                start_hole_punching: !old(self).hole_punching_started,
            }) && final(self).prev_connectivity == next && final(self).hole_punching_started,
            event matches ConnectEvent::Connected { still_allowed } ==> r == if still_allowed {
                ConnectAction::Done
            } else {
                ConnectAction::AwaitConnectivity
            },
            event matches ConnectEvent::Failed { locally_closed } ==> if locally_closed {
                r == ConnectAction::GiveUp
            } else {
                r is Backoff
            },
            !(event is Allowed) ==> final(self).prev_connectivity == old(self).prev_connectivity,
            final(self).hole_punching_started == (old(self).hole_punching_started || event is Allowed),
    {
        match event {
            ConnectEvent::Unseen => ConnectAction::GiveUp,
            ConnectEvent::Allowed(next) => {
                let reset_backoff = next.is_less_restrictive_than(self.prev_connectivity);
                if reset_backoff {
                    self.backoff = new_backoff(CONNECT_BACKOFF_INITIAL_MILLIS, CONNECT_BACKOFF_MAX_MILLIS);
                }
                self.prev_connectivity = next;
                let start_hole_punching = !self.hole_punching_started;
                self.hole_punching_started = true;
                ConnectAction::Connect { reset_backoff, start_hole_punching }
            },
            ConnectEvent::Connected { still_allowed } => {
                if still_allowed {
                    ConnectAction::Done
                } else {
                    ConnectAction::AwaitConnectivity
                }
            },
            ConnectEvent::Failed { locally_closed } => {
                if locally_closed {
                    ConnectAction::GiveUp
                } else {
                    match next_backoff_millis(&mut self.backoff) {
                        Some(delay_millis) => ConnectAction::Backoff { delay_millis },
                        None => ConnectAction::GiveUp,
                    }
                }
            },
        }
    }
}

} // verus!
