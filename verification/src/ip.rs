//! IP and socket addresses, and their classification into the standard ranges (private,
//! loopback, link-local, documentation, benchmarking, reserved, global, ...).

use vstd::prelude::*;

verus! {

/// An IPv4 address given by its four octets, most significant first.
#[derive(Clone, Copy, Debug, PartialEq, Eq, Structural, Hash, PartialOrd, Ord)]
pub struct Ipv4Addr {
    pub o0: u8,
    pub o1: u8,
    pub o2: u8,
    pub o3: u8,
}

/// An IPv6 address given by its eight 16-bit segments, most significant first.
#[derive(Clone, Copy, Debug, PartialEq, Eq, Structural, Hash, PartialOrd, Ord)]
pub struct Ipv6Addr {
    pub s0: u16,
    pub s1: u16,
    pub s2: u16,
    pub s3: u16,
    pub s4: u16,
    pub s5: u16,
    pub s6: u16,
    pub s7: u16,
}

/// Either an IPv4 or an IPv6 address.
#[derive(Clone, Copy, Debug, PartialEq, Eq, Structural, Hash, PartialOrd, Ord)]
pub enum IpAddr {
    V4(Ipv4Addr),
    V6(Ipv6Addr),
}

/// An IP address together with a port.
#[derive(Clone, Copy, Debug, PartialEq, Eq, Structural, Hash, PartialOrd, Ord)]
pub enum SocketAddr {
    V4(Ipv4Addr, u16),
    V6(Ipv6Addr, u16),
}

// ---------------------------------------------------------------------------------------------
// IPv4 ranges

pub open spec fn v4_unspecified(ip: Ipv4Addr) -> bool {
    ip.o0 == 0 && ip.o1 == 0 && ip.o2 == 0 && ip.o3 == 0
}

/// 127.0.0.0/8
pub open spec fn v4_loopback(ip: Ipv4Addr) -> bool {
    ip.o0 == 127
}

/// 10.0.0.0/8, 172.16.0.0/12 and 192.168.0.0/16
pub open spec fn v4_private(ip: Ipv4Addr) -> bool {
    ||| ip.o0 == 10
    ||| (ip.o0 == 172 && (ip.o1 & 0xf0) == 16)
    ||| (ip.o0 == 192 && ip.o1 == 168)
}

/// 169.254.0.0/16
pub open spec fn v4_link_local(ip: Ipv4Addr) -> bool {
    ip.o0 == 169 && ip.o1 == 254
}

/// 255.255.255.255
pub open spec fn v4_broadcast(ip: Ipv4Addr) -> bool {
    ip.o0 == 255 && ip.o1 == 255 && ip.o2 == 255 && ip.o3 == 255
}

/// 192.0.2.0/24, 198.51.100.0/24 and 203.0.113.0/24
pub open spec fn v4_documentation(ip: Ipv4Addr) -> bool {
    ||| (ip.o0 == 192 && ip.o1 == 0 && ip.o2 == 2)
    ||| (ip.o0 == 198 && ip.o1 == 51 && ip.o2 == 100)
    ||| (ip.o0 == 203 && ip.o1 == 0 && ip.o2 == 113)
}

/// 100.64.0.0/10
pub open spec fn v4_shared(ip: Ipv4Addr) -> bool {
    ip.o0 == 100 && (ip.o1 & 0b1100_0000) == 0b0100_0000
}

/// 240.0.0.0/4 except the broadcast address.
pub open spec fn v4_reserved(ip: Ipv4Addr) -> bool {
    (ip.o0 & 240) == 240 && !v4_broadcast(ip)
}

/// 198.18.0.0/15
pub open spec fn v4_benchmarking(ip: Ipv4Addr) -> bool {
    ip.o0 == 198 && (ip.o1 & 0xfe) == 18
}

/// Whether the address is globally routable.
pub open spec fn v4_global(ip: Ipv4Addr) -> bool {
    if ip.o0 == 192 && ip.o1 == 0 && ip.o2 == 0 && (ip.o3 == 9 || ip.o3 == 10) {
        true
    } else {
        &&& !v4_private(ip)
        &&& !v4_loopback(ip)
        &&& !v4_link_local(ip)
        &&& !v4_broadcast(ip)
        &&& !v4_documentation(ip)
        &&& !v4_shared(ip)
        &&& !(ip.o0 == 192 && ip.o1 == 0 && ip.o2 == 0)
        &&& !v4_reserved(ip)
        &&& !v4_benchmarking(ip)
        &&& ip.o0 != 0
    }
}

// ---------------------------------------------------------------------------------------------
// IPv6 ranges

/// ::
pub open spec fn v6_unspecified(ip: Ipv6Addr) -> bool {
    ip.s0 == 0 && ip.s1 == 0 && ip.s2 == 0 && ip.s3 == 0 && ip.s4 == 0 && ip.s5 == 0
        && ip.s6 == 0 && ip.s7 == 0
}

/// ::1
pub open spec fn v6_loopback(ip: Ipv6Addr) -> bool {
    ip.s0 == 0 && ip.s1 == 0 && ip.s2 == 0 && ip.s3 == 0 && ip.s4 == 0 && ip.s5 == 0
        && ip.s6 == 0 && ip.s7 == 1
}

/// ff00::/8
pub open spec fn v6_multicast(ip: Ipv6Addr) -> bool {
    (ip.s0 & 0xff00) == 0xff00
}

/// fe80::/10
pub open spec fn v6_unicast_link_local(ip: Ipv6Addr) -> bool {
    (ip.s0 & 0xffc0) == 0xfe80
}

/// fc00::/7
pub open spec fn v6_unique_local(ip: Ipv6Addr) -> bool {
    (ip.s0 & 0xfe00) == 0xfc00
}

/// 2001:db8::/32
pub open spec fn v6_documentation(ip: Ipv6Addr) -> bool {
    ip.s0 == 0x2001 && ip.s1 == 0xdb8
}

/// Scope of an IPv6 multicast address.
#[derive(Clone, Copy, Debug, PartialEq, Eq, Structural)]
pub enum Ipv6MulticastScope {
    InterfaceLocal,
    LinkLocal,
    RealmLocal,
    AdminLocal,
    SiteLocal,
    OrganizationLocal,
    Global,
}

pub open spec fn v6_multicast_scope(ip: Ipv6Addr) -> Option<Ipv6MulticastScope> {
    if v6_multicast(ip) {
        let s = ip.s0 & 0x000f;
        if s == 1 {
            Some(Ipv6MulticastScope::InterfaceLocal)
        } else if s == 2 {
            Some(Ipv6MulticastScope::LinkLocal)
        } else if s == 3 {
            Some(Ipv6MulticastScope::RealmLocal)
        } else if s == 4 {
            Some(Ipv6MulticastScope::AdminLocal)
        } else if s == 5 {
            Some(Ipv6MulticastScope::SiteLocal)
        } else if s == 8 {
            Some(Ipv6MulticastScope::OrganizationLocal)
        } else if s == 14 {
            Some(Ipv6MulticastScope::Global)
        } else {
            None
        }
    } else {
        None
    }
}

pub open spec fn v6_unicast_global(ip: Ipv6Addr) -> bool {
    &&& !v6_multicast(ip)
    &&& !v6_loopback(ip)
    &&& !v6_unicast_link_local(ip)
    &&& !v6_unique_local(ip)
    &&& !v6_unspecified(ip)
    &&& !v6_documentation(ip)
}

pub open spec fn v6_global(ip: Ipv6Addr) -> bool {
    match v6_multicast_scope(ip) {
        Some(Ipv6MulticastScope::Global) => true,
        None => v6_unicast_global(ip),
        _ => false,
    }
}

pub open spec fn ip_global(ip: IpAddr) -> bool {
    match ip {
        IpAddr::V4(ip) => v4_global(ip),
        IpAddr::V6(ip) => v6_global(ip),
    }
}

pub open spec fn ip_unspecified(ip: IpAddr) -> bool {
    match ip {
        IpAddr::V4(ip) => v4_unspecified(ip),
        IpAddr::V6(ip) => v6_unspecified(ip),
    }
}

// ---------------------------------------------------------------------------------------------
// Executable classification

impl Ipv4Addr {
    pub fn new(o0: u8, o1: u8, o2: u8, o3: u8) -> (r: Ipv4Addr)
        ensures
            r == (Ipv4Addr { o0, o1, o2, o3 }),
    {
        Ipv4Addr { o0, o1, o2, o3 }
    }

    pub fn is_unspecified(&self) -> (r: bool)
        ensures
            r == v4_unspecified(*self),
    {
        self.o0 == 0 && self.o1 == 0 && self.o2 == 0 && self.o3 == 0
    }

    pub fn is_loopback(&self) -> (r: bool)
        ensures
            r == v4_loopback(*self),
    {
        self.o0 == 127
    }

    pub fn is_private(&self) -> (r: bool)
        ensures
            r == v4_private(*self),
    {
        self.o0 == 10 || (self.o0 == 172 && (self.o1 & 0xf0) == 16) || (self.o0 == 192
            && self.o1 == 168)
    }

    pub fn is_link_local(&self) -> (r: bool)
        ensures
            r == v4_link_local(*self),
    {
        self.o0 == 169 && self.o1 == 254
    }

    pub fn is_broadcast(&self) -> (r: bool)
        ensures
            r == v4_broadcast(*self),
    {
        self.o0 == 255 && self.o1 == 255 && self.o2 == 255 && self.o3 == 255
    }

    pub fn is_documentation(&self) -> (r: bool)
        ensures
            r == v4_documentation(*self),
    {
        (self.o0 == 192 && self.o1 == 0 && self.o2 == 2) || (self.o0 == 198 && self.o1 == 51
            && self.o2 == 100) || (self.o0 == 203 && self.o1 == 0 && self.o2 == 113)
    }
}

impl Ipv6Addr {
    pub fn new(s0: u16, s1: u16, s2: u16, s3: u16, s4: u16, s5: u16, s6: u16, s7: u16) -> (r:
        Ipv6Addr)
        ensures
            r == (Ipv6Addr { s0, s1, s2, s3, s4, s5, s6, s7 }),
    {
        Ipv6Addr { s0, s1, s2, s3, s4, s5, s6, s7 }
    }

    pub fn is_unspecified(&self) -> (r: bool)
        ensures
            r == v6_unspecified(*self),
    {
        self.s0 == 0 && self.s1 == 0 && self.s2 == 0 && self.s3 == 0 && self.s4 == 0 && self.s5
            == 0 && self.s6 == 0 && self.s7 == 0
    }

    pub fn is_loopback(&self) -> (r: bool)
        ensures
            r == v6_loopback(*self),
    {
        self.s0 == 0 && self.s1 == 0 && self.s2 == 0 && self.s3 == 0 && self.s4 == 0 && self.s5
            == 0 && self.s6 == 0 && self.s7 == 1
    }

    pub fn is_multicast(&self) -> (r: bool)
        ensures
            r == v6_multicast(*self),
    {
        (self.s0 & 0xff00) == 0xff00
    }

    pub fn is_unicast_link_local(&self) -> (r: bool)
        ensures
            r == v6_unicast_link_local(*self),
    {
        (self.s0 & 0xffc0) == 0xfe80
    }

    pub fn is_unique_local(&self) -> (r: bool)
        ensures
            r == v6_unique_local(*self),
    {
        (self.s0 & 0xfe00) == 0xfc00
    }
}

impl IpAddr {
    pub fn is_unspecified(&self) -> (r: bool)
        ensures
            r == ip_unspecified(*self),
    {
        match self {
            IpAddr::V4(ip) => ip.is_unspecified(),
            IpAddr::V6(ip) => ip.is_unspecified(),
        }
    }
}

impl SocketAddr {
    pub open spec fn spec_ip(self) -> IpAddr {
        match self {
            SocketAddr::V4(ip, _) => IpAddr::V4(ip),
            SocketAddr::V6(ip, _) => IpAddr::V6(ip),
        }
    }

    pub open spec fn spec_port(self) -> u16 {
        match self {
            SocketAddr::V4(_, port) => port,
            SocketAddr::V6(_, port) => port,
        }
    }

    pub fn ip(&self) -> (r: IpAddr)
        ensures
            r == self.spec_ip(),
    {
        match self {
            SocketAddr::V4(ip, _) => IpAddr::V4(*ip),
            SocketAddr::V6(ip, _) => IpAddr::V6(*ip),
        }
    }

    pub fn port(&self) -> (r: u16)
        ensures
            r == self.spec_port(),
    {
        match self {
            SocketAddr::V4(_, port) => *port,
            SocketAddr::V6(_, port) => *port,
        }
    }

    pub fn set_port(&mut self, port: u16)
        ensures
            final(self).spec_ip() == old(self).spec_ip(),
            final(self).spec_port() == port,
            (*old(self) is V4) == (*final(self) is V4),
    {
        match self {
            SocketAddr::V4(_, p) => *p = port,
            SocketAddr::V6(_, p) => *p = port,
        }
    }
}

/// Whether the address is globally routable.
pub fn is_global(ip: &IpAddr) -> (r: bool)
    ensures
        r == ip_global(*ip),
{
    match ip {
        IpAddr::V4(ip) => is_global_ipv4(ip),
        IpAddr::V6(ip) => is_global_ipv6(ip),
    }
}

fn is_global_ipv4(ip: &Ipv4Addr) -> (r: bool)
    ensures
        r == v4_global(*ip),
{
    // 192.0.0.9 and 192.0.0.10 are the only globally routable addresses of 192.0.0.0/24.
    if ip.o0 == 192 && ip.o1 == 0 && ip.o2 == 0 && (ip.o3 == 9 || ip.o3 == 10) {
        return true;
    }
    !ip.is_private() && !ip.is_loopback() && !ip.is_link_local() && !ip.is_broadcast()
        && !ip.is_documentation() && !is_shared(ip) && !(ip.o0 == 192 && ip.o1 == 0 && ip.o2
        == 0) && !is_reserved(ip) && !is_benchmarking(ip) && ip.o0 != 0
}

fn is_shared(ip: &Ipv4Addr) -> (r: bool)
    ensures
        r == v4_shared(*ip),
{
    ip.o0 == 100 && (ip.o1 & 0b1100_0000) == 0b0100_0000
}

pub fn is_reserved(ip: &Ipv4Addr) -> (r: bool)
    ensures
        r == v4_reserved(*ip),
{
    (ip.o0 & 240) == 240 && !ip.is_broadcast()
}

fn is_global_ipv6(ip: &Ipv6Addr) -> (r: bool)
    ensures
        r == v6_global(*ip),
{
    match multicast_scope_ipv6(ip) {
        Some(Ipv6MulticastScope::Global) => true,
        None => is_unicast_global_ipv6(ip),
        _ => false,
    }
}

pub fn is_benchmarking(ip: &Ipv4Addr) -> (r: bool)
    ensures
        r == v4_benchmarking(*ip),
{
    ip.o0 == 198 && (ip.o1 & 0xfe) == 18
}

fn is_unicast(ip: &Ipv6Addr) -> (r: bool)
    ensures
        r == !v6_multicast(*ip),
{
    !ip.is_multicast()
}

fn is_unicast_global_ipv6(ip: &Ipv6Addr) -> (r: bool)
    ensures
        r == v6_unicast_global(*ip),
{
    is_unicast(ip) && !ip.is_loopback() && !ip.is_unicast_link_local() && !ip.is_unique_local()
        && !ip.is_unspecified() && !is_documentation(ip)
}

pub fn is_documentation(ip: &Ipv6Addr) -> (r: bool)
    ensures
        r == v6_documentation(*ip),
{
    ip.s0 == 0x2001 && ip.s1 == 0xdb8
}

fn multicast_scope_ipv6(ip: &Ipv6Addr) -> (r: Option<Ipv6MulticastScope>)
    ensures
        r == v6_multicast_scope(*ip),
{
    if ip.is_multicast() {
        let s = ip.s0 & 0x000f;
        if s == 1 {
            Some(Ipv6MulticastScope::InterfaceLocal)
        } else if s == 2 {
            Some(Ipv6MulticastScope::LinkLocal)
        } else if s == 3 {
            Some(Ipv6MulticastScope::RealmLocal)
        } else if s == 4 {
            Some(Ipv6MulticastScope::AdminLocal)
        } else if s == 5 {
            Some(Ipv6MulticastScope::SiteLocal)
        } else if s == 8 {
            Some(Ipv6MulticastScope::OrganizationLocal)
        } else if s == 14 {
            Some(Ipv6MulticastScope::Global)
        } else {
            None
        }
    } else {
        None
    }
}

} // verus!
