//! States of a connection to a peer.

use crate::runtime_id::PublicRuntimeId;
use std::time::SystemTime;
use vstd::prelude::*;

verus! {

#[verifier::external_type_specification]
#[verifier::external_body]
pub struct ExSystemTime(std::time::SystemTime);

/// `std::time::SystemTime::now`: the current time. Nothing is claimed of it.
#[verifier::external_body]
pub(crate) fn system_now() -> SystemTime {
    SystemTime::now()
}

/// `==` on `std::time::SystemTime`, whose `PartialEq` is derived from its fields: two times are
/// equal exactly when they are the same value.
#[verifier::external_body]
pub(crate) fn system_time_eq(a: &SystemTime, b: &SystemTime) -> (r: bool)
    ensures
        r == (*a == *b),
{
    *a == *b
}

#[derive(Clone, Copy, PartialEq, Eq, Debug)]
pub enum PeerState {
    Known,
    Connecting,
    Handshaking,
    Active { id: PublicRuntimeId, since: SystemTime },
}

impl PeerState {
    /// Whether the two states are equal.
    pub fn same(&self, other: &Self) -> (r: bool)
        ensures
            r == (*self == *other),
    {
        match (self, other) {
            (PeerState::Known, PeerState::Known) => true,
            (PeerState::Connecting, PeerState::Connecting) => true,
            (PeerState::Handshaking, PeerState::Handshaking) => true,
            (PeerState::Active { id: a, since: s }, PeerState::Active { id: b, since: t }) => {
                crate::message::bytes32_eq(&a.public.0, &b.public.0) && system_time_eq(s, t)
            },
            _ => false,
        }
    }
}

} // verus!
