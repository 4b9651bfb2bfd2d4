//! Tracking of in-flight requests.

pub mod graph;
pub mod worker;

use crate::message::{presence_checksum, MultiBlockPresence, Request};
use std::sync::atomic::AtomicUsize;
use vstd::prelude::*;

verus! {

/// The 128-bit XXH3 hash (seed zero, default secret) of the bytes.
pub uninterp spec fn xxh3_128_of(data: Seq<u8>) -> u128;

/// `xxhash_rust::xxh3::xxh3_128`: the 128-bit XXH3 hash of `data` with the default seed and
/// secret; the streaming hasher with the same defaults gives the same value for the same bytes.
#[verifier::external_body]
fn xxh3_128(data: &[u8]) -> (r: u128)
    ensures
        r == xxh3_128_of(data@),
{
    xxhash_rust::xxh3::xxh3_128(data)
}

/// Tells apart requests for the same data made in different circumstances (the block presence
/// on each side when the request was made).
#[derive(Clone, Copy, PartialEq, Eq, Hash, Debug, Structural)]
pub struct RequestVariant(pub u128);

impl RequestVariant {
    /// The default variant.
    pub fn zero() -> (r: Self)
        ensures
            r.0 == 0,
    {
        RequestVariant(0)
    }

    /// The variant for the given local and remote block presence: the hash of their checksums,
    /// local first.
    pub fn new(local_block_presence: MultiBlockPresence, remote_block_presence: MultiBlockPresence) -> (r: Self)
        ensures
            r.0 == xxh3_128_of(presence_checksum(local_block_presence) + presence_checksum(
                remote_block_presence,
            )),
    {
        let local = local_block_presence.checksum();
        let remote = remote_block_presence.checksum();
        let mut data: Vec<u8> = Vec::new();
        let mut i: usize = 0;
        while i < 16
            invariant
                i <= 16,
                local@.len() == 16,
                data@ == local@.take(i as int),
            decreases 16 - i,
        {
            data.push(local[i]);
            i = i + 1;
        }
        let mut j: usize = 0;
        while j < 16
            invariant
                j <= 16,
                local@.len() == 16,
                remote@.len() == 16,
                data@ == local@ + remote@.take(j as int),
            decreases 16 - j,
        {
            data.push(remote[j]);
            j = j + 1;
        }
        assert(local@.take(16) =~= local@);
        assert(remote@.take(16) =~= remote@);
        RequestVariant(xxh3_128(data.as_slice()))
    }
}

/// Whether a request starts ready to be sent or suspended.
#[derive(Clone, Copy, PartialEq, Eq, Debug, Structural)]
pub enum InitialRequestState {
    Ready,
    Suspended,
}

/// Request that we want to send to the peer.
#[derive(Clone, Copy, Debug)]
pub struct CandidateRequest {
    pub payload: Request,
    pub variant: RequestVariant,
    pub state: InitialRequestState,
}

impl CandidateRequest {
    /// A ready candidate for the given request, of the default variant.
    pub fn new(payload: Request) -> (r: Self)
        ensures
            r.payload == payload,
            r.variant.0 == 0,
            r.state == InitialRequestState::Ready,
    {
        CandidateRequest { payload, variant: RequestVariant::zero(), state: InitialRequestState::Ready }
    }

    /// The same candidate, of the given variant.
    pub fn variant(self, variant: RequestVariant) -> (r: Self)
        ensures
            r.payload == self.payload,
            r.variant == variant,
            r.state == self.state,
    {
        CandidateRequest { variant, ..self }
    }

    /// The same candidate, starting suspended.
    pub fn suspended(self) -> (r: Self)
        ensures
            r.payload == self.payload,
            r.variant == self.variant,
            r.state == InitialRequestState::Suspended,
    {
        CandidateRequest { state: InitialRequestState::Suspended, ..self }
    }
}

/// Request that is ready to be sent to the peer, with the variant it was made in.
#[derive(Clone, Copy, PartialEq, Eq, Debug)]
pub struct PendingRequest {
    pub payload: Request,
    pub variant: RequestVariant,
}

impl PendingRequest {
    pub fn new(payload: Request) -> (r: Self)
        ensures
            r.payload == payload,
            r.variant.0 == 0,
    {
        PendingRequest { payload, variant: RequestVariant::zero() }
    }

    pub fn variant(self, variant: RequestVariant) -> (r: Self)
        ensures
            r.payload == self.payload,
            r.variant == variant,
    {
        PendingRequest { variant, ..self }
    }
}

/// Identifies a client of the request tracker.
#[derive(Clone, Copy, PartialEq, Eq, Hash, Debug, Structural)]
pub struct ClientId(pub usize);

impl ClientId {
    /// The next id from the process-wide counter, which it advances.
    pub fn next(counter: &AtomicUsize) -> Self {
        ClientId(counter.fetch_add(1, std::sync::atomic::Ordering::Relaxed))
    }
}

} // verus!
