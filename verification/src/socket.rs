//! Decisions of binding sockets.

use crate::ip::SocketAddr;
use vstd::prelude::*;

verus! {

/// Whether setting the reuse-address option on a socket must succeed.
#[derive(Clone, Copy, PartialEq, Eq, Debug, Structural)]
pub enum ReuseAddr {
    /// Reuse address is required: failing to set it fails the socket's creation.
    Required,
    /// Reuse address is a nice-to-have: the socket is created regardless.
    Preferred,
}

impl ReuseAddr {
    /// Whether failing to set the reuse-address option fails the socket's creation.
    pub fn failure_is_fatal(self) -> (r: bool)
        ensures
            r == (self == ReuseAddr::Required),
    {
        match self {
            ReuseAddr::Required => true,
            ReuseAddr::Preferred => false,
        }
    }
}

/// The address to try when binding to `addr` failed: the same with a random port (port zero),
/// unless a random port was asked for already.
pub fn retry_addr(addr: SocketAddr) -> (r: Option<SocketAddr>)
    ensures
        addr.spec_port() == 0 ==> r is None,
        addr.spec_port() != 0 ==> (r matches Some(a) && a.spec_port() == 0 && a.spec_ip() == addr.spec_ip()),
{
    if addr.port() != 0 {
        let mut a = addr;
        a.set_port(0);
        Some(a)
    } else {
        None
    }
}

/// Whether the two addresses are of the same family (both IPv4 or both IPv6).
pub fn is_same_family(a: &SocketAddr, b: &SocketAddr) -> (r: bool)
    ensures
        r == ((*a is V4) == (*b is V4)),
{
    match (a, b) {
        (SocketAddr::V4(..), SocketAddr::V4(..)) | (SocketAddr::V6(..), SocketAddr::V6(..)) => true,
        (SocketAddr::V4(..), SocketAddr::V6(..)) | (SocketAddr::V6(..), SocketAddr::V4(..)) => false,
    }
}

} // verus!
