use ouisync_network::debug_payload::DebugRequest;
use ouisync_network::message::{MessageKey, MultiBlockPresence, PublicKey, Request};
use ouisync_network::request_tracker::worker::{Effect, FailureReason, Worker};
use ouisync_network::request_tracker::{CandidateRequest, ClientId, PendingRequest, RequestVariant};
use std::collections::VecDeque;

/// What a client's receiver yields: a request to send, or the hint that it is idle.
#[derive(Debug, PartialEq)]
enum Received {
    Request(PendingRequest),
    Idle,
}

/// Drives a worker as the runtime does: effects are routed to per-client queues, and a client
/// picks up a request it was handed by asking the worker to send it.
struct Harness {
    worker: Worker,
    queues: Vec<(ClientId, VecDeque<MessageKey>)>,
    timers: Vec<(ClientId, MessageKey)>,
}

impl Harness {
    fn new() -> Self {
        Harness { worker: Worker::new(), queues: Vec::new(), timers: Vec::new() }
    }

    fn new_client(&mut self, id: usize) -> ClientId {
        let c = ClientId(id);
        self.worker.insert_client(c);
        self.queues.push((c, VecDeque::new()));
        c
    }

    fn route(&mut self, effects: Vec<Effect>) {
        for effect in effects {
            match effect {
                Effect::Notify(c, key) => {
                    if let Some((_, q)) = self.queues.iter_mut().find(|(id, _)| *id == c) {
                        q.push_back(key);
                    }
                }
                Effect::StartTimer(c, key) => self.timers.push((c, key)),
                Effect::Received(c, key) | Effect::Cancelled(c, key, _) => {
                    self.timers.retain(|t| *t != (c, key));
                }
            }
        }
    }

    fn try_recv(&mut self, c: ClientId) -> Option<Received> {
        loop {
            let key = self.queues.iter_mut().find(|(id, _)| *id == c)?.1.pop_front()?;
            if key == MessageKey::Idle {
                return Some(Received::Idle);
            }
            let mut out = Vec::new();
            let request = self.worker.handle_send(c, key, &mut out);
            self.route(out);
            if let Some(request) = request {
                return Some(Received::Request(request));
            }
        }
    }

    fn initial(&mut self, c: ClientId, request: CandidateRequest) {
        let mut out = Vec::new();
        self.worker.handle_initial(c, request, &mut out);
        self.route(out);
    }

    /// A response came and was processed: the client marks the request received, then
    /// successful with its follow-ups.
    fn success(&mut self, c: ClientId, key: MessageKey, requests: Vec<CandidateRequest>) {
        let mut out = Vec::new();
        self.worker.handle_receive(c, key, &mut out);
        self.worker.handle_success(c, key, requests, &mut out);
        self.route(out);
    }

    fn failure(&mut self, c: ClientId, key: MessageKey, reason: FailureReason) {
        let mut out = Vec::new();
        self.worker.handle_receive(c, key, &mut out);
        self.worker.handle_failure(c, key, reason, &mut out);
        self.route(out);
    }

    fn timeout_all(&mut self) {
        let timers = std::mem::take(&mut self.timers);
        for (c, key) in timers {
            let mut out = Vec::new();
            self.worker.handle_failure(c, key, FailureReason::Timeout, &mut out);
            self.route(out);
        }
    }

    fn commit(&mut self, c: ClientId) {
        let mut out = Vec::new();
        self.worker.commit(c, &mut out);
        self.route(out);
    }

    fn remove_client(&mut self, c: ClientId) {
        let mut out = Vec::new();
        self.worker.remove_client(c, &mut out);
        self.route(out);
    }

    fn set_choked(&mut self, c: ClientId, choked: bool) {
        let mut out = Vec::new();
        self.worker.set_choked(c, choked, &mut out);
        self.route(out);
    }

    fn resume(&mut self, key: MessageKey, variant: RequestVariant) {
        let mut out = Vec::new();
        self.worker.resume(key, variant, &mut out);
        self.route(out);
    }
}

fn child_nodes(seed: u8) -> Request {
    Request::ChildNodes(
        ouisync_network::message::Hash([seed; 32]),
        ouisync_network::message::ResponseDisambiguator::new(MultiBlockPresence::Full),
        DebugRequest::start(),
    )
}

fn key(request: &Request) -> MessageKey {
    MessageKey::from_request(request)
}

fn pending(request: Request) -> Received {
    Received::Request(PendingRequest::new(request))
}

#[test]
fn timeout() {
    let mut h = Harness::new();
    let a = h.new_client(1);
    let b = h.new_client(2);
    let preceding = MessageKey::RootNode(PublicKey([1; 32]), 0);
    let request = child_nodes(7);

    // Register the request with both clients.
    h.success(a, preceding, vec![CandidateRequest::new(request)]);
    h.success(b, preceding, vec![CandidateRequest::new(request)]);

    // Only the first client gets the request.
    assert_eq!(h.try_recv(a), Some(pending(request)));
    assert_eq!(h.try_recv(b), None);

    // The first client times out, so the second client now gets the request.
    h.timeout_all();
    assert_eq!(h.try_recv(b), Some(pending(request)));
}

#[test]
fn drop_uncommitted_client() {
    let mut h = Harness::new();
    let a = h.new_client(1);
    let b = h.new_client(2);
    let preceding = MessageKey::RootNode(PublicKey([1; 32]), 0);
    let request = child_nodes(7);

    for c in [a, b] {
        h.success(c, preceding, vec![CandidateRequest::new(request)]);
    }
    assert_eq!(h.try_recv(a), Some(pending(request)));
    assert_eq!(h.try_recv(b), None);

    // Complete the request by the first client.
    h.success(a, key(&request), vec![]);
    assert_eq!(h.try_recv(a), Some(Received::Idle));
    assert_eq!(h.try_recv(b), None);

    // Drop the first client without committing: the request falls back to the other client.
    h.remove_client(a);
    assert_eq!(h.try_recv(b), Some(pending(request)));
}

#[test]
fn multiple_responses_to_identical_requests() {
    let mut h = Harness::new();
    let c = h.new_client(1);
    let initial = Request::RootNode { writer_id: PublicKey([3; 32]), cookie: 0, debug: DebugRequest::start() };
    let followup = child_nodes(9);

    h.initial(c, CandidateRequest::new(initial));
    assert_eq!(h.try_recv(c), Some(pending(initial)));

    h.success(c, key(&initial), vec![]);
    // All requests have been completed so the client is now considered idle.
    assert_eq!(h.try_recv(c), Some(Received::Idle));
    assert_eq!(h.try_recv(c), None);

    // Another, unsolicited response with the same key but different follow-ups.
    h.success(c, key(&initial), vec![CandidateRequest::new(followup)]);
    assert_eq!(h.try_recv(c), Some(pending(followup)));
    assert_eq!(h.try_recv(c), None);
}

#[test]
fn suspend_resume() {
    let mut h = Harness::new();
    let c = h.new_client(1);
    let preceding = MessageKey::ChildNodes(ouisync_network::message::Hash([2; 32]));
    let request = Request::Block(ouisync_network::message::BlockId([4; 32]), DebugRequest::start());

    h.success(c, preceding, vec![CandidateRequest::new(request).suspended()]);
    assert_eq!(h.try_recv(c), None);

    h.resume(key(&request), RequestVariant::zero());
    assert_eq!(h.try_recv(c), Some(pending(request)));
}

/// A request of one variant is replaced by the same request of another variant.
fn duplicate_with_different_variant(step: fn(&mut Harness, ClientId, MessageKey), expect: Option<Received>) {
    let mut h = Harness::new();
    let c = h.new_client(1);
    let preceding = MessageKey::RootNode(PublicKey([1; 32]), 0);
    let request = child_nodes(5);
    let variant_0 = RequestVariant::new(MultiBlockPresence::Absent, MultiBlockPresence::Absent);
    let variant_1 = RequestVariant::new(MultiBlockPresence::Absent, MultiBlockPresence::Full);
    assert_ne!(variant_0, variant_1);

    h.success(c, preceding, vec![CandidateRequest::new(request).variant(variant_0)]);
    assert_eq!(h.try_recv(c), Some(Received::Request(PendingRequest::new(request).variant(variant_0))));

    step(&mut h, c, key(&request));
    assert_eq!(h.try_recv(c), expect);

    h.success(c, preceding, vec![CandidateRequest::new(request).variant(variant_1)]);
    assert_eq!(h.try_recv(c), Some(Received::Request(PendingRequest::new(request).variant(variant_1))));
}

#[test]
fn in_flight() {
    duplicate_with_different_variant(|_, _, _| (), None);
}

#[test]
fn complete() {
    duplicate_with_different_variant(|h, c, k| h.success(c, k, vec![]), Some(Received::Idle));
}

#[test]
fn committed() {
    duplicate_with_different_variant(
        |h, c, k| {
            h.success(c, k, vec![]);
            h.commit(c);
        },
        Some(Received::Idle),
    );
}

#[test]
fn cancelled() {
    duplicate_with_different_variant(|h, c, k| h.failure(c, k, FailureReason::Response), Some(Received::Idle));
}

#[test]
fn choke_before_request() {
    let mut h = Harness::new();
    let a = h.new_client(1);
    let b = h.new_client(2);
    let request = child_nodes(6);

    h.set_choked(a, true);
    h.initial(a, CandidateRequest::new(request));
    h.initial(b, CandidateRequest::new(request));

    // The first client is choked so the request is sent to the second one.
    assert_eq!(h.try_recv(a), None);
    assert_eq!(h.try_recv(b), Some(pending(request)));
}

#[test]
fn choke_after_request() {
    let mut h = Harness::new();
    let a = h.new_client(1);
    let b = h.new_client(2);
    let request = child_nodes(6);

    h.initial(a, CandidateRequest::new(request));
    h.initial(b, CandidateRequest::new(request));
    assert_eq!(h.try_recv(a), Some(pending(request)));
    assert_eq!(h.try_recv(b), None);

    h.set_choked(a, true);
    assert_eq!(h.try_recv(b), Some(pending(request)));
}

#[test]
fn unchoke() {
    let mut h = Harness::new();
    let c = h.new_client(1);
    let request = child_nodes(6);

    h.set_choked(c, true);
    h.initial(c, CandidateRequest::new(request));
    assert_eq!(h.try_recv(c), None);

    h.set_choked(c, false);
    assert_eq!(h.try_recv(c), Some(pending(request)));
}

#[test]
fn fallback_after_unchoke() {
    let mut h = Harness::new();
    let a = h.new_client(1);
    let b = h.new_client(2);
    let request = child_nodes(6);

    h.initial(a, CandidateRequest::new(request));
    h.set_choked(b, true);
    h.initial(b, CandidateRequest::new(request));

    assert_eq!(h.try_recv(a), Some(pending(request)));
    assert_eq!(h.try_recv(b), None);

    h.failure(a, key(&request), FailureReason::Response);
    assert_eq!(h.try_recv(b), None);

    h.set_choked(b, false);
    assert_eq!(h.try_recv(b), Some(pending(request)));
}

#[test]
fn idle_after_success_by_same_client() {
    let mut h = Harness::new();
    let c = h.new_client(1);
    assert_eq!(h.try_recv(c), None);
    let request = child_nodes(8);

    h.initial(c, CandidateRequest::new(request));
    assert_eq!(h.try_recv(c), Some(pending(request)));
    assert_eq!(h.try_recv(c), None);

    h.success(c, key(&request), vec![]);
    assert_eq!(h.try_recv(c), Some(Received::Idle));
}

#[test]
fn idle_after_success_by_other_client() {
    let mut h = Harness::new();
    let a = h.new_client(1);
    let b = h.new_client(2);
    let request = child_nodes(8);

    h.initial(a, CandidateRequest::new(request));
    h.initial(b, CandidateRequest::new(request));
    assert_eq!(h.try_recv(a), Some(pending(request)));
    assert_eq!(h.try_recv(a), None);
    assert_eq!(h.try_recv(b), None);

    h.success(a, key(&request), vec![]);
    // A is the sender so it becomes idle right after the request is completed.
    assert_eq!(h.try_recv(a), Some(Received::Idle));
    // B only waits for it, so it becomes idle only once the request is committed.
    assert_eq!(h.try_recv(b), None);

    h.commit(a);
    assert_eq!(h.try_recv(b), Some(Received::Idle));
}

#[test]
fn idle_after_failure() {
    let mut h = Harness::new();
    let c = h.new_client(1);
    let request = child_nodes(8);

    h.initial(c, CandidateRequest::new(request));
    assert_eq!(h.try_recv(c), Some(pending(request)));
    assert_eq!(h.try_recv(c), None);

    h.failure(c, key(&request), FailureReason::Response);
    assert_eq!(h.try_recv(c), Some(Received::Idle));
}

#[test]
fn committed_requests_leave_the_graph() {
    let mut h = Harness::new();
    let c = h.new_client(1);
    let parent = child_nodes(1);
    let child = child_nodes(2);

    h.initial(c, CandidateRequest::new(parent));
    assert_eq!(h.try_recv(c), Some(pending(parent)));
    h.success(c, key(&parent), vec![CandidateRequest::new(child)]);
    assert_eq!(h.worker.request_count(), 2);
    assert_eq!(h.try_recv(c), Some(pending(child)));

    // The parent is committed but stays while its child is tracked.
    h.commit(c);
    assert_eq!(h.worker.request_count(), 2);

    h.success(c, key(&child), vec![]);
    assert_eq!(h.try_recv(c), Some(Received::Idle));
    h.commit(c);
    assert_eq!(h.worker.request_count(), 0);
}

#[test]
fn removed_client_hands_requests_over() {
    let mut h = Harness::new();
    let a = h.new_client(1);
    let b = h.new_client(2);
    let request = child_nodes(3);

    h.initial(a, CandidateRequest::new(request));
    h.initial(b, CandidateRequest::new(request));
    assert_eq!(h.try_recv(a), Some(pending(request)));
    assert_eq!(h.timers, vec![(a, key(&request))]);

    h.remove_client(a);
    assert!(!h.worker.has_client(a));
    assert!(h.timers.is_empty());
    assert_eq!(h.try_recv(b), Some(pending(request)));

    h.remove_client(b);
    assert_eq!(h.worker.request_count(), 0);
}
