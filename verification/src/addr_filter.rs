//! Filter for socket addresses that are unlikely to belong to valid peers.

use crate::ip::{
    is_benchmarking, is_documentation, is_global, is_reserved, ip_global, ip_unspecified, v4_benchmarking,
    v4_broadcast, v4_documentation, v4_link_local, v4_loopback, v4_private, v4_reserved,
    v6_documentation, v6_loopback, v6_multicast, v6_unicast_link_local, v6_unique_local,
    v6_unspecified, IpAddr, SocketAddr,
};
use vstd::prelude::*;

verus! {

/// Filters out certain types of socket addresses which are unlikely to belong to valid peers (e.g.,
/// addresses from reserved ranges, etc...)
///
/// Using non-default filter typically only makes sense for testing (e.g., when the peers are given
/// addresses from the "benchmarking" range).
#[derive(Clone, Copy, Debug, PartialEq, Eq, Structural)]
#[non_exhaustive]
pub struct AddrFilter {
    /// Whether benchmarking (198.18.0.0/15) IPv4 addresses are allowed. Default is `false`.
    pub allow_benchmarking_v4: bool,
}

/// Whether `addr` passes the filter `filter`.
pub open spec fn passes(filter: AddrFilter, addr: SocketAddr) -> bool {
    if addr.spec_port() == 0 || addr.spec_port() == 1 {
        false
    } else {
        match addr {
            SocketAddr::V4(ip, _) => {
                &&& ip.o0 != 0
                &&& !(!filter.allow_benchmarking_v4 && v4_benchmarking(ip))
                &&& !v4_reserved(ip)
                &&& !v4_broadcast(ip)
                &&& !v4_documentation(ip)
            },
            SocketAddr::V6(ip, _) => {
                &&& !v6_multicast(ip)
                &&& !v6_unspecified(ip)
                &&& !v6_documentation(ip)
            },
        }
    }
}

impl AddrFilter {
    /// The same filter but one that lets benchmarking IPv4 addresses through.
    pub fn allow_benchmarking_v4(self) -> (r: Self)
        ensures
            r.allow_benchmarking_v4,
    {
        AddrFilter { allow_benchmarking_v4: true }
    }

    /// Apply the filter to the address. Returns whether the address passes the filter.
    pub fn apply(&self, addr: &SocketAddr) -> (r: bool)
        ensures
            r == passes(*self, *addr),
    {
        if addr.port() == 0 || addr.port() == 1 {
            return false;
        }
        match addr {
            SocketAddr::V4(ip_addr, _) => {
                if ip_addr.o0 == 0 {
                    return false;
                }
                if (!self.allow_benchmarking_v4 && is_benchmarking(ip_addr)) || is_reserved(ip_addr)
                    || ip_addr.is_broadcast() || ip_addr.is_documentation() {
                    return false;
                }
            },
            SocketAddr::V6(ip_addr, _) => {
                if ip_addr.is_multicast() || ip_addr.is_unspecified() || is_documentation(ip_addr) {
                    return false;
                }
            },
        }
        true
    }
}

impl Default for AddrFilter {
    fn default() -> (r: Self)
        ensures
            !r.allow_benchmarking_v4,
    {
        AddrFilter { allow_benchmarking_v4: false }
    }
}

/// Allowing benchmarking addresses only widens the filter: whatever passes the default filter
/// passes the permissive one too, and the two differ only on benchmarking IPv4 addresses.
pub proof fn lemma_benchmarking_only_widens(addr: SocketAddr)
    ensures
        passes(AddrFilter { allow_benchmarking_v4: false }, addr) ==> passes(
            AddrFilter { allow_benchmarking_v4: true },
            addr,
        ),
        passes(AddrFilter { allow_benchmarking_v4: true }, addr) && !passes(
            AddrFilter { allow_benchmarking_v4: false },
            addr,
        ) ==> (addr matches SocketAddr::V4(ip, _) && v4_benchmarking(ip)),
{
}

} // verus!
