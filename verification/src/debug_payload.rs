//! Timestamps carried along requests and responses for diagnostics.

use std::time::Instant;
use crate::clock::now;
use vstd::prelude::*;

verus! {

#[derive(Clone, Copy, Eq, PartialEq, Hash, Debug)]
pub struct DebugRequest {
    pub created: Instant,
}

impl DebugRequest {
    /// A request created now.
    pub fn start() -> (r: Self) {
        DebugRequest { created: now() }
    }

    /// The payload of this request, sent now.
    pub fn send(self) -> (r: DebugRequestPayload)
        ensures
            r.created == self.created,
    {
        DebugRequestPayload { created: self.created, sent: now() }
    }
}

#[derive(Clone, Copy, Eq, PartialEq, Hash, Debug)]
pub struct DebugRequestPayload {
    pub created: Instant,
    pub sent: Instant,
}

impl DebugRequestPayload {
    /// The reply to this request, whose request is received now.
    pub fn begin_reply(self) -> (r: DebugResponse)
        ensures
            r.request_created == self.created,
            r.request_sent == self.sent,
    {
        DebugResponse {
            request_created: self.created,
            request_sent: self.sent,
            request_received: now(),
        }
    }
}

#[derive(Clone, Copy, Eq, PartialEq, Hash, Debug)]
pub struct DebugResponse {
    pub request_created: Instant,
    pub request_sent: Instant,
    pub request_received: Instant,
}

impl DebugResponse {
    /// The payload of this response, sent now.
    pub fn send(self) -> (r: DebugResponsePayload)
        ensures
            r.request == Some(self),
    {
        DebugResponsePayload { request: Some(self), response_sent: now() }
    }
}

#[derive(Clone, Copy, Eq, PartialEq, Hash, Debug)]
pub struct DebugResponsePayload {
    pub request: Option<DebugResponse>,
    pub response_sent: Instant,
}

impl DebugResponsePayload {
    /// The payload of a response that answers no request, sent now.
    pub fn unsolicited() -> (r: Self)
        ensures
            r.request is None,
    {
        DebugResponsePayload { request: None, response_sent: now() }
    }

    /// This response, enqueued now at the receiving side.
    pub fn received(self) -> (r: DebugReceivedResponse)
        ensures
            r.request == self.request,
            r.response_sent == self.response_sent,
    {
        DebugReceivedResponse {
            request: self.request,
            response_sent: self.response_sent,
            response_enqueued: now(),
        }
    }
}

#[derive(Clone, Copy, Eq, PartialEq, Hash, Debug)]
pub struct DebugReceivedResponse {
    pub request: Option<DebugResponse>,
    pub response_sent: Instant,
    pub response_enqueued: Instant,
}

} // verus!
