//! Requests waiting for their response.

use crate::debug_payload::DebugRequest;
use crate::message::{BlockId, PublicKey, Request, ResponseDisambiguator};
use crate::repository_stats::Values;
use vstd::prelude::*;

verus! {

/// Whether the request asks for index nodes (a root node or child nodes) rather than a block.
pub open spec fn is_index_request(request: Request) -> bool {
    !(request is Block)
}

/// `stats` with one index request, or one block request, more in flight than `old`.
pub open spec fn inflight_changed(old: Values, new: Values, request: Request, delta: int) -> bool {
    &&& new.index_requests_inflight == old.index_requests_inflight + if is_index_request(request) {
        delta
    } else {
        0
    }
    &&& new.block_requests_inflight == old.block_requests_inflight + if is_index_request(request) {
        0
    } else {
        delta
    }
    &&& new.total_requests_cummulative == old.total_requests_cummulative
    &&& new.request_timeouts == old.request_timeouts
    &&& new.db_acquire_durations == old.db_acquire_durations
    &&& new.db_read_begin_durations == old.db_read_begin_durations
    &&& new.db_write_begin_durations == old.db_write_begin_durations
}

/// Counts the request as in flight: one more index request or block request.
pub fn stats_request_added(stats: &mut Values, request: &Request)
    requires
        is_index_request(*request) ==> old(stats).index_requests_inflight < u64::MAX,
        !is_index_request(*request) ==> old(stats).block_requests_inflight < u64::MAX,
    ensures
        inflight_changed(*old(stats), *final(stats), *request, 1),
{
    match request {
        Request::RootNode { .. } | Request::ChildNodes(..) => {
            stats.index_requests_inflight = stats.index_requests_inflight + 1;
        },
        Request::Block(..) => {
            stats.block_requests_inflight = stats.block_requests_inflight + 1;
        },
    }
}

/// Counts the request as no longer in flight: one index request or block request less.
pub fn stats_request_removed(stats: &mut Values, request: &Request)
    requires
        is_index_request(*request) ==> old(stats).index_requests_inflight > 0,
        !is_index_request(*request) ==> old(stats).block_requests_inflight > 0,
    ensures
        inflight_changed(*old(stats), *final(stats), *request, -1),
{
    match request {
        Request::RootNode { .. } | Request::ChildNodes(..) => {
            stats.index_requests_inflight = stats.index_requests_inflight - 1;
        },
        Request::Block(..) => {
            stats.block_requests_inflight = stats.block_requests_inflight - 1;
        },
    }
}

/// Counting a request in and then out again leaves the statistics as they were.
pub proof fn lemma_added_then_removed(a: Values, b: Values, c: Values, request: Request)
    requires
        inflight_changed(a, b, request, 1),
        inflight_changed(b, c, request, -1),
    ensures
        c == a,
{
}

/// What a sent request asked for.
#[derive(Clone, Copy, PartialEq, Eq, Debug)]
pub enum PendingRequest {
    RootNode(PublicKey),
    ChildNodes(crate::message::Hash, ResponseDisambiguator),
    Block(BlockId),
}

impl PendingRequest {
    /// The request message asking for it, created now, with the given cookie for a root node
    /// request.
    pub fn to_message(&self, cookie: u64) -> (r: Request)
        ensures
            match *self {
                PendingRequest::RootNode(k) => r matches Request::RootNode { writer_id, cookie: c, .. } && writer_id
                    == k && c == cookie,
                PendingRequest::ChildNodes(h, d) => r matches Request::ChildNodes(h2, d2, _) && h2 == h && d2 == d,
                PendingRequest::Block(b) => r matches Request::Block(b2, _) && b2 == b,
            },
    {
        match self {
            PendingRequest::RootNode(public_key) => Request::RootNode {
                writer_id: *public_key,
                cookie,
                debug: DebugRequest::start(),
            },
            PendingRequest::ChildNodes(hash, disambiguator) => Request::ChildNodes(
                *hash,
                *disambiguator,
                DebugRequest::start(),
            ),
            PendingRequest::Block(block_id) => Request::Block(*block_id, DebugRequest::start()),
        }
    }
}

} // verus!
