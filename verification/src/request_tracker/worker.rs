//! The bookkeeping of the request tracker: which client tracks which request, which request is
//! in flight with which client, and who takes a request over when its sender fails.
//!
//! The worker decides; what it decides to do outside (hand a request key to a client, start or
//! stop the timeout of a request) comes out as effects, which the caller carries out in order.
//!
//! The bookkeeping stays consistent (`Worker::consistent`): a client tracks a request exactly when
//! it waits for it or sends it, and its pending count is the number of those it still expects an
//! answer for; every operation keeps this (registering a client, when the client is new). Where
//! it finds the bookkeeping otherwise (a tracked request no longer in the graph, a waiter that is
//! no client, a pending count already at zero), the worker leaves that part alone rather than
//! stop, and a client whose pending count has reached `usize::MAX` joins no further request.

use super::graph::{after_get_or_insert, index_key, key_set, opt_key_set, spec_lookup, with_value, Graph, Key, NodeView};
use super::{CandidateRequest, ClientId, InitialRequestState, PendingRequest, RequestVariant};
use crate::keyed::{distinct_keys, has_key, kv_view, lemma_kv_at, lemma_kv_push, lemma_kv_remove, lemma_kv_update};
use crate::message::{key_of, MessageKey};
use vstd::prelude::*;

verus! {

/// Why a request failed.
#[derive(Clone, Copy, PartialEq, Eq, Debug, Structural)]
pub enum FailureReason {
    /// The peer answered with an error.
    Response,
    /// No answer came in time.
    Timeout,
}

/// What the worker asks to be done outside.
#[derive(Clone, Copy, PartialEq, Eq, Debug)]
pub enum Effect {
    /// Hand the key to the client: the key of a request it may now send, or `MessageKey::Idle`
    /// once it has nothing pending any more.
    Notify(ClientId, MessageKey),
    /// The client sent the request: start its timeout.
    StartTimer(ClientId, MessageKey),
    /// The response to the request the client sent came: stop its timeout.
    Received(ClientId, MessageKey),
    /// The request the client sent was given up: stop its timeout.
    Cancelled(ClientId, MessageKey, Option<FailureReason>),
}

/// Where a tracked request stands.
pub enum RequestState {
    /// Ready to be sent, waiting for one of the waiting clients to pick it up.
    Ready { waiters: Vec<ClientId> },
    /// Sent by `sender`; the waiters take over if the sender fails.
    InFlight { sender: ClientId, waiters: Vec<ClientId> },
    /// The response came to `sender` but is not processed yet.
    Received { sender: ClientId, waiters: Vec<ClientId> },
    /// The response was processed but is not committed yet.
    Complete { sender: ClientId, waiters: Vec<ClientId> },
    /// Suspended until resumed.
    Suspended { waiters: Vec<ClientId> },
    /// The response was processed and committed: the request is never retried.
    Committed,
    /// The request failed and nobody waits for it.
    Cancelled,
}

/// The clients that wait for the request.
pub open spec fn waiters_of(s: RequestState) -> Seq<ClientId> {
    match s {
        RequestState::Ready { waiters } => waiters@,
        RequestState::InFlight { waiters, .. } => waiters@,
        RequestState::Received { waiters, .. } => waiters@,
        RequestState::Complete { waiters, .. } => waiters@,
        RequestState::Suspended { waiters } => waiters@,
        RequestState::Committed => Seq::empty(),
        RequestState::Cancelled => Seq::empty(),
    }
}

/// The client that sent the request, in the states that have one.
pub open spec fn sender_of(s: RequestState) -> Option<ClientId> {
    match s {
        RequestState::InFlight { sender, .. } => Some(sender),
        RequestState::Received { sender, .. } => Some(sender),
        RequestState::Complete { sender, .. } => Some(sender),
        _ => None,
    }
}

/// No client waits twice for the request, and its sender does not wait for it.
pub open spec fn state_ok(s: RequestState) -> bool {
    &&& waiters_of(s).no_duplicates()
    &&& sender_of(s) matches Some(x) ==> !waiters_of(s).contains(x)
}

/// Whether the client waits for the request or sends it.
pub open spec fn holds(s: RequestState, c: ClientId) -> bool {
    waiters_of(s).contains(c) || sender_of(s) == Some(c)
}

/// Whether the request is committed or cancelled.
pub open spec fn is_final(s: RequestState) -> bool {
    s is Committed || s is Cancelled
}

/// What the bookkeeping of one client holds.
pub struct ClientState {
    requests: Vec<(MessageKey, Key)>,
    pending: usize,
    choked: bool,
}

/// A client's bookkeeping: the node of each request it tracks (by message key), the number of
/// its pending requests and whether it is choked.
pub struct ClientView {
    pub requests: Map<MessageKey, Key>,
    pub pending: nat,
    pub choked: bool,
}

impl ClientState {
    pub closed spec fn view(&self) -> ClientView {
        ClientView { requests: kv_view(self.requests@), pending: self.pending as nat, choked: self.choked }
    }

    pub closed spec fn wf(&self) -> bool {
        distinct_keys(self.requests@)
    }
}

/// The notifications that handing `key` to each of `recipients` makes: one for each recipient
/// that is a client and is not choked, in order.
pub open spec fn notices(clients: Map<ClientId, ClientView>, recipients: Seq<ClientId>, key: MessageKey) -> Seq<Effect>
    decreases recipients.len(),
{
    if recipients.len() == 0 {
        Seq::empty()
    } else {
        let prev = notices(clients, recipients.drop_last(), key);
        let c = recipients.last();
        if clients.contains_key(c) && !clients[c].choked {
            prev.push(Effect::Notify(c, key))
        } else {
            prev
        }
    }
}

/// A request's key is handed only to clients that are among the recipients and are not choked:
/// a choked client is never offered a request to send.
pub proof fn lemma_notices_unchoked(clients: Map<ClientId, ClientView>, recipients: Seq<ClientId>, key: MessageKey)
    ensures
        forall|i: int|
            0 <= i < notices(clients, recipients, key).len() ==> (#[trigger] notices(clients, recipients, key)[i]
                matches Effect::Notify(c, k) && k == key && recipients.contains(c) && clients.contains_key(c)
                && !clients[c].choked),
    decreases recipients.len(),
{
    if recipients.len() > 0 {
        let prev = recipients.drop_last();
        lemma_notices_unchoked(clients, prev, key);
        assert forall|i: int| 0 <= i < notices(clients, recipients, key).len() implies (#[trigger] notices(
            clients,
            recipients,
            key,
        )[i] matches Effect::Notify(c, k) && k == key && recipients.contains(c) && clients.contains_key(c)
            && !clients[c].choked) by {
            let n = notices(clients, prev, key);
            if i < n.len() {
                assert(notices(clients, recipients, key)[i] == n[i]);
                if let Effect::Notify(c, k) = n[i] {
                    let j = choose|j: int| 0 <= j < prev.len() && prev[j] == c;
                    assert(recipients[j] == c);
                }
            } else {
                assert(recipients[recipients.len() - 1] == recipients.last());
            }
        }
    }
}

/// A client is told it is idle when, and only when, one pending request less leaves it nothing
/// pending: the idle notices of releasing `ws` (distinct) from the counts `p` go to exactly the
/// clients of `ws` whose count was one, whose count then is zero.
pub proof fn lemma_idle_notices_exact(p: Map<ClientId, nat>, ws: Seq<ClientId>)
    requires
        ws.no_duplicates(),
    ensures
        forall|i: int|
            0 <= i < idle_notices(p, ws).len() ==> (#[trigger] idle_notices(p, ws)[i] matches Effect::Notify(
                c,
                k,
            ) && k == MessageKey::Idle && ws.contains(c) && p.contains_key(c) && p[c] == 1 && released(p, ws)[c]
                == 0),
        forall|c: ClientId|
            ws.contains(c) && p.contains_key(c) && p[c] == 1 ==> #[trigger] idle_notices(p, ws).contains(
                Effect::Notify(c, MessageKey::Idle),
            ),
    decreases ws.len(),
{
    if ws.len() > 0 {
        let prev = ws.drop_last();
        let l = ws.last();
        lemma_idle_notices_exact(p, prev);
        let n = idle_notices(p, prev);
        let all = idle_notices(p, ws);
        assert forall|i: int| 0 <= i < all.len() implies (#[trigger] all[i] matches Effect::Notify(c, k) && k
            == MessageKey::Idle && ws.contains(c) && p.contains_key(c) && p[c] == 1 && released(p, ws)[c] == 0) by {
            if i < n.len() {
                assert(all[i] == n[i]);
                if let Effect::Notify(c, k) = n[i] {
                    let j = choose|j: int| 0 <= j < prev.len() && prev[j] == c;
                    assert(ws[j] == c);
                }
            } else {
                assert(ws[ws.len() - 1] == l);
            }
        }
        assert forall|c: ClientId| ws.contains(c) && p.contains_key(c) && p[c] == 1 implies #[trigger] all.contains(
            Effect::Notify(c, MessageKey::Idle),
        ) by {
            let j = choose|j: int| 0 <= j < ws.len() && ws[j] == c;
            if j < ws.len() - 1 {
                assert(prev[j] == c);
                assert(n.contains(Effect::Notify(c, MessageKey::Idle)));
                let i = choose|i: int| 0 <= i < n.len() && n[i] == Effect::Notify(c, MessageKey::Idle);
                assert(all[i] == n[i]);
            } else {
                assert(all[n.len() as int] == Effect::Notify(c, MessageKey::Idle));
            }
        }
    }
}

/// The clients held in a sequence of (id, bookkeeping) pairs.
pub open spec fn clients_of(s: Seq<(ClientId, ClientState)>) -> Map<ClientId, ClientView> {
    Map::new(|c: ClientId| has_key(s, c), |c: ClientId| kv_view(s)[c].view())
}

/// A fresh client: tracking nothing, with nothing pending, not choked.
pub open spec fn fresh_client() -> ClientView {
    ClientView { requests: Map::empty(), pending: 0, choked: false }
}

/// What client `c` is handed when its pending count goes down: the idle key, once it has nothing
/// pending any more.
pub open spec fn idle_notice(clients: Map<ClientId, ClientView>, c: ClientId) -> Seq<Effect> {
    if clients.contains_key(c) && clients[c].pending == 1 {
        seq![Effect::Notify(c, MessageKey::Idle)]
    } else {
        Seq::empty()
    }
}

/// What cancelling request `n` for client `c` hands out: the idle key to `c` once it has nothing
/// pending (unless it sent the request and the request is complete); the end of the timeout of
/// the request `c` was sending; and the key of the request to its unchoked waiters when `c` was
/// its sender.
pub open spec fn cancel_effects(
    clients: Map<ClientId, ClientView>,
    n: NodeView<RequestVariant, RequestState>,
    c: ClientId,
    reason: Option<FailureReason>,
) -> Seq<Effect> {
    let s = n.value;
    let mk = key_of(n.request);
    let w = waiters_of(s);
    (if s is Complete && sender_of(s) == Some(c) {
        Seq::empty()
    } else {
        idle_notice(clients, c)
    }) + (if s is InFlight && sender_of(s) == Some(c) {
        seq![Effect::Cancelled(c, mk, reason)]
    } else {
        Seq::empty()
    }) + (if sender_of(s) == Some(c) && w.len() > 0 {
        notices(clients, w, mk)
    } else {
        Seq::empty()
    })
}

/// The clients' pending counts.
pub open spec fn pendings(cl: Map<ClientId, ClientView>) -> Map<ClientId, nat> {
    Map::new(|d: ClientId| cl.contains_key(d), |d: ClientId| cl[d].pending)
}

/// The idle notices that one pending request less for each of `ws` (distinct) hands out, given
/// the pending counts `p`: to each whose count was one.
pub open spec fn idle_notices(p: Map<ClientId, nat>, ws: Seq<ClientId>) -> Seq<Effect>
    decreases ws.len(),
{
    if ws.len() == 0 {
        Seq::empty()
    } else {
        let l = ws.last();
        idle_notices(p, ws.drop_last()) + if p.contains_key(l) && p[l] == 1 {
            seq![Effect::Notify(l, MessageKey::Idle)]
        } else {
            Seq::empty()
        }
    }
}

/// The pending counts `p` with one less for each of `ws` (that has any).
pub open spec fn released(p: Map<ClientId, nat>, ws: Seq<ClientId>) -> Map<ClientId, nat> {
    Map::new(
        |d: ClientId| p.contains_key(d),
        |d: ClientId| if ws.contains(d) && p[d] > 0 {
            (p[d] - 1) as nat
        } else {
            p[d]
        },
    )
}

/// Committing, in turn, the requests `ks` that client `c` completed: what is handed out and the
/// pending counts afterwards, starting from the counts `p` and the requests `v`. A request
/// still complete (its first time in `ks`) is committed: each of its waiters has one pending
/// request less.
pub open spec fn commit_run(p: Map<ClientId, nat>, v: Map<Key, NodeView<RequestVariant, RequestState>>, c: ClientId, ks: Seq<Key>) -> (
    Seq<Effect>,
    Map<ClientId, nat>,
)
    decreases ks.len(),
{
    if ks.len() == 0 {
        (Seq::empty(), p)
    } else {
        let prev = commit_run(p, v, c, ks.drop_last());
        let k = ks.last();
        let seen = exists|y: int| 0 <= y < ks.len() - 1 && ks[y] == k;
        if v.contains_key(k) && phase(v[k].value) == Phase::Complete(c) && !seen {
            let ws = waiters_of(v[k].value);
            (prev.0 + idle_notices(prev.1, ws), released(prev.1, ws))
        } else {
            prev
        }
    }
}

/// What choking (or unchoking) client `c` hands out, going through its tracked requests
/// `entries` in turn, with `cl` the clients afterwards and `v` the requests before. Unchoked, the
/// client is handed the key of each ready request. Choked, each request the client was sending
/// (the first time it comes up) has its timeout stopped and its key handed to its waiters and
/// the client, as it is ready again.
pub open spec fn choke_effects(
    cl: Map<ClientId, ClientView>,
    v: Map<Key, NodeView<RequestVariant, RequestState>>,
    c: ClientId,
    choked: bool,
    entries: Seq<(MessageKey, Key)>,
) -> Seq<Effect>
    decreases entries.len(),
{
    if entries.len() == 0 {
        Seq::empty()
    } else {
        let prev = choke_effects(cl, v, c, choked, entries.drop_last());
        let mk = entries.last().0;
        let k = entries.last().1;
        let seen = exists|y: int| 0 <= y < entries.len() - 1 && entries[y].1 == k;
        prev + if !v.contains_key(k) {
            Seq::empty()
        } else if !choked {
            if phase(v[k].value) == Phase::Ready {
                seq![Effect::Notify(c, mk)]
            } else {
                Seq::empty()
            }
        } else if phase(v[k].value) == Phase::InFlight(c) && !seen {
            seq![Effect::Cancelled(c, mk, None)] + notices(cl, with_id(waiters_of(v[k].value), c), mk)
        } else {
            Seq::empty()
        }
    }
}

/// Choking a client hands none of its requests to it: the keys that choking hands out (in
/// [`Worker::set_choked`], with the clients as they are afterwards) go only to other clients,
/// which are not choked.
pub proof fn lemma_choking_skips_the_choked(
    cl: Map<ClientId, ClientView>,
    v: Map<Key, NodeView<RequestVariant, RequestState>>,
    c: ClientId,
    entries: Seq<(MessageKey, Key)>,
)
    requires
        cl.contains_key(c),
        cl[c].choked,
    ensures
        forall|i: int|
            0 <= i < choke_effects(cl, v, c, true, entries).len() ==> (#[trigger] choke_effects(
                cl,
                v,
                c,
                true,
                entries,
            )[i] matches Effect::Notify(d, k) ==> d != c && cl.contains_key(d) && !cl[d].choked),
    decreases entries.len(),
{
    if entries.len() > 0 {
        let prev = entries.drop_last();
        lemma_choking_skips_the_choked(cl, v, c, prev);
        let mk = entries.last().0;
        let k = entries.last().1;
        let before = choke_effects(cl, v, c, true, prev);
        let all = choke_effects(cl, v, c, true, entries);
        if v.contains_key(k) {
            lemma_notices_unchoked(cl, with_id(waiters_of(v[k].value), c), mk);
        }
        assert forall|i: int| 0 <= i < all.len() implies (#[trigger] all[i] matches Effect::Notify(d, x) ==> d
            != c && cl.contains_key(d) && !cl[d].choked) by {
            if i < before.len() {
                assert(all[i] == before[i]);
            } else if v.contains_key(k) {
                if i > before.len() {
                    assert(all[i] == notices(cl, with_id(waiters_of(v[k].value), c), mk)[i - before.len() - 1]);
                }
            }
        }
    }
}

/// The clients that track the follow-ups of the request that `c` tracks under `key` once it
/// succeeded: `c`, then the request's waiters when it was received from `c`.
pub open spec fn success_clients(
    clients: Map<ClientId, ClientView>,
    nodes: Map<Key, NodeView<RequestVariant, RequestState>>,
    c: ClientId,
    key: MessageKey,
) -> Seq<ClientId> {
    let t = tracked_node(clients, c, key);
    if t is Some && nodes.contains_key(t->0) && phase(nodes[t->0].value) == Phase::Received(c) {
        seq![c] + waiters_of(nodes[t->0].value)
    } else {
        seq![c]
    }
}

/// Where a request stands, without its waiters.
#[derive(PartialEq, Eq)]
pub enum Phase {
    Ready,
    InFlight(ClientId),
    Received(ClientId),
    Complete(ClientId),
    Suspended,
    Committed,
    Cancelled,
}

pub open spec fn phase(s: RequestState) -> Phase {
    match s {
        RequestState::Ready { .. } => Phase::Ready,
        RequestState::InFlight { sender, .. } => Phase::InFlight(sender),
        RequestState::Received { sender, .. } => Phase::Received(sender),
        RequestState::Complete { sender, .. } => Phase::Complete(sender),
        RequestState::Suspended { .. } => Phase::Suspended,
        RequestState::Committed => Phase::Committed,
        RequestState::Cancelled => Phase::Cancelled,
    }
}

/// `b` is `a` with only the state of request `k` changed, to phase `p` with waiters `w`.
pub open spec fn only_state_changed(
    a: Map<Key, NodeView<RequestVariant, RequestState>>,
    b: Map<Key, NodeView<RequestVariant, RequestState>>,
    k: Key,
    p: Phase,
    w: Seq<ClientId>,
) -> bool {
    &&& a.contains_key(k)
    &&& b.dom() == a.dom()
    &&& forall|x: Key| #[trigger] a.contains_key(x) && x != k ==> b[x] == a[x]
    &&& b[k].request == a[k].request
    &&& b[k].disambiguator == a[k].disambiguator
    &&& b[k].parents == a[k].parents
    &&& b[k].children == a[k].children
    &&& phase(b[k].value) == p
    &&& waiters_of(b[k].value) == w
}

proof fn lemma_with_state(a: Map<Key, NodeView<RequestVariant, RequestState>>, k: Key, s: RequestState)
    requires
        a.contains_key(k),
    ensures
        only_state_changed(a, with_state(a, k, s), k, phase(s), waiters_of(s)),
        with_state(with_state(a, k, RequestState::Cancelled), k, s) == with_state(a, k, s),
{
    assert(with_state(a, k, s).dom() =~= a.dom());
    assert(with_state(with_state(a, k, RequestState::Cancelled), k, s) =~= with_state(a, k, s));
}

/// `b` keeps the requests of `a` other than `k` that it has, with their states, and the ones it
/// dropped were committed or cancelled.
pub open spec fn others_kept(
    a: Map<Key, NodeView<RequestVariant, RequestState>>,
    b: Map<Key, NodeView<RequestVariant, RequestState>>,
    k: Option<Key>,
) -> bool {
    &&& b.dom().subset_of(a.dom())
    &&& forall|x: Key|
        Some(x) != k && #[trigger] b.contains_key(x) ==> b[x].value == a[x].value && b[x].request == a[x].request
            && b[x].disambiguator == a[x].disambiguator
    &&& forall|x: Key| Some(x) != k && #[trigger] a.contains_key(x) && !b.contains_key(x) ==> is_final(a[x].value)
}

proof fn lemma_others_kept_state(a: Map<Key, NodeView<RequestVariant, RequestState>>, k: Key, s: RequestState)
    requires
        a.contains_key(k),
    ensures
        others_kept(a, with_state(a, k, s), Some(k)),
{
    lemma_with_state(a, k, s);
}

proof fn lemma_others_kept_chain(
    a: Map<Key, NodeView<RequestVariant, RequestState>>,
    m: Map<Key, NodeView<RequestVariant, RequestState>>,
    b: Map<Key, NodeView<RequestVariant, RequestState>>,
    k: Option<Key>,
    l: Option<Key>,
)
    requires
        others_kept(a, m, k),
        others_kept(m, b, l),
        l is Some ==> k == l,
    ensures
        others_kept(a, b, k),
{
    assert forall|x: Key| Some(x) != k && #[trigger] a.contains_key(x) && !b.contains_key(x) implies is_final(a[x].value) by {
        if m.contains_key(x) {
            assert(is_final(m[x].value));
        }
    }
}

/// What becomes of request `n` (at `k`, not committed or cancelled) once client `c` gives up its
/// part in it, as seen in the requests `b` afterwards.
pub open spec fn cancelled_as(n: NodeView<RequestVariant, RequestState>, b: Map<Key, NodeView<RequestVariant, RequestState>>, k: Key, c: ClientId) -> bool {
    let s = n.value;
    let w = waiters_of(s);
    let rest = without(w, c);
    &&& b.contains_key(k) ==> b[k].request == n.request && b[k].disambiguator == n.disambiguator
    &&& if sender_of(s) is Some && sender_of(s) != Some(c) {
        // Another client sends it: `c` just stops waiting.
        &&& b.contains_key(k)
        &&& phase(b[k].value) == phase(s)
        &&& waiters_of(b[k].value) == rest
    } else if sender_of(s) == Some(c) && w.len() > 0 {
        // `c` sent it: the waiters take over.
        &&& b.contains_key(k)
        &&& phase(b[k].value) == Phase::Ready
        &&& waiters_of(b[k].value) == w
    } else if sender_of(s) is None && rest.len() > 0 {
        // Others still wait for it.
        &&& b.contains_key(k)
        &&& phase(b[k].value) == phase(s)
        &&& waiters_of(b[k].value) == rest
    } else {
        // Nobody holds it any more: it is cancelled (and gone once it has no children).
        b.contains_key(k) ==> phase(b[k].value) == Phase::Cancelled
    }
}

/// The phase and waiters of a request once client `c` joins it: the client waits for it (unless
/// it is its sender), a cancelled request starts over (ready or suspended, as `initial` says)
/// with the client as its only waiter, and a committed one stays as it is.
pub open spec fn joined(s: RequestState, c: ClientId, initial: InitialRequestState) -> (Phase, Seq<ClientId>) {
    match s {
        RequestState::Committed => (Phase::Committed, Seq::empty()),
        RequestState::Cancelled => (
            if initial == InitialRequestState::Ready {
                Phase::Ready
            } else {
                Phase::Suspended
            },
            seq![c],
        ),
        _ => (
            phase(s),
            if sender_of(s) == Some(c) {
                waiters_of(s)
            } else {
                with_id(waiters_of(s), c)
            },
        ),
    }
}

/// Whether a client joining a request in state `s` is handed its key: when it is, or becomes,
/// ready.
pub open spec fn joins_ready(s: RequestState, initial: InitialRequestState) -> bool {
    s is Ready || (s is Cancelled && initial == InitialRequestState::Ready)
}

proof fn lemma_notices_same_choke(
    cl: Map<ClientId, ClientView>,
    c: ClientId,
    v: ClientView,
    rs: Seq<ClientId>,
    key: MessageKey,
)
    requires
        cl.contains_key(c),
        v.choked == cl[c].choked,
    ensures
        notices(cl.insert(c, v), rs, key) == notices(cl, rs, key),
    decreases rs.len(),
{
    if rs.len() > 0 {
        lemma_notices_same_choke(cl, c, v, rs.drop_last(), key);
    }
}

/// Handing a key out goes by who is a client and who is choked only.
proof fn lemma_notices_same_chokes(
    a: Map<ClientId, ClientView>,
    b: Map<ClientId, ClientView>,
    rs: Seq<ClientId>,
    key: MessageKey,
)
    requires
        b.dom() == a.dom(),
        forall|d: ClientId| #[trigger] a.contains_key(d) ==> b[d].choked == a[d].choked,
    ensures
        notices(b, rs, key) == notices(a, rs, key),
    decreases rs.len(),
{
    if rs.len() > 0 {
        lemma_notices_same_chokes(a, b, rs.drop_last(), key);
    }
}

/// Client `c`, if in `a`, is in `b` with only some of the requests it tracked in `a`.
pub open spec fn tracking_shrunk(a: Map<ClientId, ClientView>, b: Map<ClientId, ClientView>, c: ClientId) -> bool {
    a.contains_key(c) ==> b.contains_key(c) && forall|m: MessageKey|
        #[trigger] b[c].requests.contains_key(m) ==> a[c].requests.contains_key(m) && b[c].requests[m]
            == a[c].requests[m]
}

proof fn lemma_shrunk_trans(a: Map<ClientId, ClientView>, b: Map<ClientId, ClientView>, d: Map<ClientId, ClientView>)
    requires
        forall|c: ClientId| tracking_shrunk(a, b, c),
        forall|c: ClientId| tracking_shrunk(b, d, c),
    ensures
        forall|c: ClientId| tracking_shrunk(a, d, c),
{
    assert forall|c: ClientId| tracking_shrunk(a, d, c) by {
        if a.contains_key(c) {
            assert(tracking_shrunk(a, b, c));
            assert(tracking_shrunk(b, d, c));
            assert forall|m: MessageKey| #[trigger] d[c].requests.contains_key(m) implies a[c].requests.contains_key(m)
                && d[c].requests[m] == a[c].requests[m] by {
                assert(b[c].requests.contains_key(m));
            }
        }
    }
}

/// Request `k` of `a` as it is in `b` after its sender `c` was choked: ready again, with `c`
/// among its waiters.
pub open spec fn choked_back(
    a: Map<Key, NodeView<RequestVariant, RequestState>>,
    b: Map<Key, NodeView<RequestVariant, RequestState>>,
    k: Key,
    c: ClientId,
) -> bool {
    &&& b.contains_key(k)
    &&& b[k].request == a[k].request
    &&& b[k].disambiguator == a[k].disambiguator
    &&& b[k].parents == a[k].parents
    &&& b[k].children == a[k].children
    &&& phase(b[k].value) == Phase::Ready
    &&& waiters_of(b[k].value) == with_id(waiters_of(a[k].value), c)
}

proof fn lemma_without_contains(s: Seq<ClientId>, c: ClientId, x: ClientId)
    ensures
        without(s, c).contains(x) <==> s.contains(x) && x != c,
    decreases s.len(),
{
    if s.len() > 0 {
        let d = s.drop_last();
        let l = s.last();
        let p = without(d, c);
        lemma_without_contains(d, c, x);
        assert(s =~= d.push(l));
        if s.contains(x) && x != c {
            let i = choose|i: int| 0 <= i < s.len() && s[i] == x;
            if i < s.len() - 1 {
                assert(d[i] == x);
                assert(p.contains(x));
                let m = choose|m: int| 0 <= m < p.len() && p[m] == x;
                if l != c {
                    assert(p.push(l)[m] == x);
                }
            } else {
                assert(l == x);
                assert(p.push(l)[p.len() as int] == x);
            }
        }
        if without(s, c).contains(x) {
            let w = without(s, c);
            let m = choose|m: int| 0 <= m < w.len() && w[m] == x;
            if l == c {
                assert(p.contains(x));
            } else {
                assert(w == p.push(l));
                if m < p.len() {
                    assert(p[m] == x);
                    assert(p.contains(x));
                } else {
                    assert(x == l);
                    assert(s[s.len() - 1] == x);
                }
            }
            if p.contains(x) {
                let n = choose|n: int| 0 <= n < d.len() && d[n] == x;
                assert(s[n] == x);
            }
        }
    }
}

/// A client that gave up its part in a request holds it no more.
proof fn lemma_cancelled_releases(
    n: NodeView<RequestVariant, RequestState>,
    b: Map<Key, NodeView<RequestVariant, RequestState>>,
    k: Key,
    c: ClientId,
)
    requires
        state_ok(n.value),
        cancelled_as(n, b, k, c),
    ensures
        b.contains_key(k) ==> !holds(b[k].value, c),
{
    lemma_without_contains(waiters_of(n.value), c, c);
}

/// Whether client `c` counts request `s` among its pending ones: it waits for it or sends it,
/// except as the sender of a completed request.
pub open spec fn pend(s: RequestState, c: ClientId) -> bool {
    holds(s, c) && !(s is Complete && sender_of(s) == Some(c))
}

/// The requests that client `c` counts as pending.
pub open spec fn pending_set(v: Map<Key, NodeView<RequestVariant, RequestState>>, c: ClientId) -> Set<Key> {
    Set::new(|k: Key| v.contains_key(k) && pend(v[k].value, c))
}

/// The number of requests that client `c` counts as pending.
pub open spec fn pending_count(v: Map<Key, NodeView<RequestVariant, RequestState>>, c: ClientId) -> nat {
    pending_set(v, c).len()
}

/// Client `c` tracks request `k` under the message key `mk`.
pub open spec fn tracks(cl: Map<ClientId, ClientView>, c: ClientId, mk: MessageKey, k: Key) -> bool {
    cl.contains_key(c) && cl[c].requests.contains_key(mk) && cl[c].requests[mk] == k
}

/// Whether the pair (client `c`, request `k`) is let off the rule that a client holding a
/// request tracks it: `ex` names a client and one request of it, or all of them.
pub open spec fn excused(ex: Option<(ClientId, Option<Key>)>, c: ClientId, k: Key) -> bool {
    ex matches Some((d, ko)) && d == c && (ko is None || ko == Some(k))
}

/// Each request a client tracks is in the graph, under its message key, and held by the client.
pub open spec fn entries_ok(cl: Map<ClientId, ClientView>, v: Map<Key, NodeView<RequestVariant, RequestState>>) -> bool {
    forall|c: ClientId, mk: MessageKey|
        #![trigger cl[c].requests[mk]]
        cl.contains_key(c) && cl[c].requests.contains_key(mk) ==> {
            let k = cl[c].requests[mk];
            &&& v.contains_key(k)
            &&& key_of(v[k].request) == mk
            &&& holds(v[k].value, c)
        }
}

/// Each client holding a request is a client that tracks it, but for the excused pairs.
pub open spec fn holders_ok(
    cl: Map<ClientId, ClientView>,
    v: Map<Key, NodeView<RequestVariant, RequestState>>,
    ex: Option<(ClientId, Option<Key>)>,
) -> bool {
    forall|k: Key, c: ClientId|
        #![trigger holds(v[k].value, c)]
        v.contains_key(k) && holds(v[k].value, c) ==> excused(ex, c, k) || tracks(cl, c, key_of(v[k].request), k)
}

/// Each client's pending count is the number of requests it counts as pending (one more for the
/// client `owed`, whose count is due to go down).
pub open spec fn counts_ok(
    cl: Map<ClientId, ClientView>,
    v: Map<Key, NodeView<RequestVariant, RequestState>>,
    owed: Option<ClientId>,
) -> bool {
    forall|c: ClientId|
        #[trigger] cl.contains_key(c) ==> cl[c].pending == pending_count(v, c) + if owed == Some(c) {
            1nat
        } else {
            0nat
        }
}

/// The bookkeeping of the clients agrees with the requests, but for the excused pairs and the
/// owed client.
pub open spec fn agrees(
    cl: Map<ClientId, ClientView>,
    v: Map<Key, NodeView<RequestVariant, RequestState>>,
    ex: Option<(ClientId, Option<Key>)>,
    owed: Option<ClientId>,
) -> bool {
    &&& v.dom().finite()
    &&& v.dom().len() <= usize::MAX
    &&& entries_ok(cl, v)
    &&& holders_ok(cl, v, ex)
    &&& counts_ok(cl, v, owed)
}

proof fn lemma_pending_finite(v: Map<Key, NodeView<RequestVariant, RequestState>>, c: ClientId)
    requires
        v.dom().finite(),
    ensures
        pending_set(v, c).finite(),
        pending_set(v, c).len() <= v.dom().len(),
{
    vstd::set_lib::lemma_len_subset(pending_set(v, c), v.dom());
}

/// Changing the state of one request changes a client's pending count by what that request
/// counted for it before and after.
proof fn lemma_count_one_changed(
    v: Map<Key, NodeView<RequestVariant, RequestState>>,
    w: Map<Key, NodeView<RequestVariant, RequestState>>,
    k: Key,
    c: ClientId,
)
    requires
        v.dom().finite(),
        w.dom() == v.dom(),
        v.contains_key(k),
        forall|x: Key| #[trigger] v.contains_key(x) && x != k ==> w[x].value == v[x].value,
    ensures
        pending_count(w, c) as int == pending_count(v, c) as int - (if pend(v[k].value, c) {
            1int
        } else {
            0int
        }) + (if pend(w[k].value, c) {
            1int
        } else {
            0int
        }),
{
    let a = pending_set(v, c);
    let b = pending_set(w, c);
    lemma_pending_finite(v, c);
    lemma_pending_finite(w, c);
    assert(a.remove(k) =~= b.remove(k));
    if pend(v[k].value, c) {
        assert(a.remove(k).len() == a.len() - 1);
    } else {
        assert(a.remove(k) =~= a);
    }
    if pend(w[k].value, c) {
        assert(b.remove(k).len() == b.len() - 1);
    } else {
        assert(b.remove(k) =~= b);
    }
}

/// Requests that count for nobody may come and go without changing any pending count.
proof fn lemma_count_same(
    v: Map<Key, NodeView<RequestVariant, RequestState>>,
    w: Map<Key, NodeView<RequestVariant, RequestState>>,
    c: ClientId,
)
    requires
        forall|x: Key| #[trigger] w.contains_key(x) && v.contains_key(x) ==> w[x].value == v[x].value,
        forall|x: Key| #[trigger] w.contains_key(x) && !v.contains_key(x) ==> !pend(w[x].value, c),
        forall|x: Key| #[trigger] v.contains_key(x) && !w.contains_key(x) ==> !pend(v[x].value, c),
    ensures
        pending_count(w, c) == pending_count(v, c),
{
    assert(pending_set(w, c) =~= pending_set(v, c));
}

/// Changing the state of one request without changing who holds it, or who counts it as
/// pending, keeps the bookkeeping in agreement.
proof fn lemma_agrees_same_holders(
    cl: Map<ClientId, ClientView>,
    v: Map<Key, NodeView<RequestVariant, RequestState>>,
    w: Map<Key, NodeView<RequestVariant, RequestState>>,
    k: Key,
    ex: Option<(ClientId, Option<Key>)>,
    owed: Option<ClientId>,
)
    requires
        agrees(cl, v, ex, owed),
        v.contains_key(k),
        w.dom() == v.dom(),
        forall|x: Key| #[trigger] v.contains_key(x) && x != k ==> w[x] == v[x],
        w[k].request == v[k].request,
        forall|c: ClientId| holds(w[k].value, c) == holds(v[k].value, c),
        forall|c: ClientId| pend(w[k].value, c) == pend(v[k].value, c),
    ensures
        agrees(cl, w, ex, owed),
{
    assert forall|c: ClientId, mk: MessageKey|
        #![trigger cl[c].requests[mk]]
        cl.contains_key(c) && cl[c].requests.contains_key(mk) implies {
            let x = cl[c].requests[mk];
            &&& w.contains_key(x)
            &&& key_of(w[x].request) == mk
            &&& holds(w[x].value, c)
        } by {
        let x = cl[c].requests[mk];
        assert(holds(v[x].value, c));
    }
    assert forall|x: Key, c: ClientId|
        #![trigger holds(w[x].value, c)]
        w.contains_key(x) && holds(w[x].value, c) implies excused(ex, c, x) || tracks(cl, c, key_of(w[x].request), x) by {
        assert(holds(v[x].value, c));
    }
    assert forall|c: ClientId| #[trigger] cl.contains_key(c) implies cl[c].pending == pending_count(w, c) + if owed == Some(c) {
        1nat
    } else {
        0nat
    } by {
        lemma_count_one_changed(v, w, k, c);
    }
}

/// The bookkeeping agrees just as well when only what the clients track and count stays.
proof fn lemma_agrees_same_tracking(
    cl: Map<ClientId, ClientView>,
    dl: Map<ClientId, ClientView>,
    v: Map<Key, NodeView<RequestVariant, RequestState>>,
    ex: Option<(ClientId, Option<Key>)>,
    owed: Option<ClientId>,
)
    requires
        agrees(cl, v, ex, owed),
        dl.dom() == cl.dom(),
        forall|c: ClientId| #[trigger] cl.contains_key(c) ==> dl[c].requests == cl[c].requests && dl[c].pending == cl[c].pending,
    ensures
        agrees(dl, v, ex, owed),
{
    assert forall|c: ClientId, mk: MessageKey|
        #![trigger dl[c].requests[mk]]
        dl.contains_key(c) && dl[c].requests.contains_key(mk) implies {
            let x = dl[c].requests[mk];
            &&& v.contains_key(x)
            &&& key_of(v[x].request) == mk
            &&& holds(v[x].value, c)
        } by {
        assert(cl[c].requests[mk] == dl[c].requests[mk]);
    }
    assert forall|x: Key, c: ClientId|
        #![trigger holds(v[x].value, c)]
        v.contains_key(x) && holds(v[x].value, c) implies excused(ex, c, x) || tracks(dl, c, key_of(v[x].request), x) by {
        if !excused(ex, c, x) {
            assert(tracks(cl, c, key_of(v[x].request), x));
        }
    }
}

proof fn lemma_push_contains(s: Seq<ClientId>, c: ClientId, x: ClientId)
    ensures
        s.push(c).contains(x) <==> s.contains(x) || x == c,
{
    if s.contains(x) {
        let i = choose|i: int| 0 <= i < s.len() && s[i] == x;
        assert(s.push(c)[i] == x);
    }
    assert(s.push(c)[s.len() as int] == c);
    if s.push(c).contains(x) && x != c {
        let i = choose|i: int| 0 <= i < s.push(c).len() && s.push(c)[i] == x;
        assert(s[i] == x);
    }
}

proof fn lemma_with_id_contains(s: Seq<ClientId>, c: ClientId, x: ClientId)
    ensures
        with_id(s, c).contains(x) <==> s.contains(x) || x == c,
{
    if !s.contains(c) {
        if s.contains(x) {
            let i = choose|i: int| 0 <= i < s.len() && s[i] == x;
            assert(s.push(c)[i] == x);
        }
        assert(s.push(c)[s.len() as int] == c);
        if s.push(c).contains(x) && x != c {
            let i = choose|i: int| 0 <= i < s.push(c).len() && s.push(c)[i] == x;
            assert(s[i] == x);
        }
    }
}

/// A client that was not registered holds no request, so it joins with nothing tracked and
/// nothing pending without breaking the agreement.
proof fn lemma_agrees_new_client(
    cl: Map<ClientId, ClientView>,
    v: Map<Key, NodeView<RequestVariant, RequestState>>,
    c: ClientId,
)
    requires
        agrees(cl, v, None, None),
        !cl.contains_key(c),
    ensures
        agrees(cl.insert(c, fresh_client()), v, None, None),
{
    let dl = cl.insert(c, fresh_client());
    assert(pending_set(v, c) =~= Set::<Key>::empty()) by {
        assert forall|x: Key| !(#[trigger] pending_set(v, c).contains(x)) by {
            if v.contains_key(x) && holds(v[x].value, c) {
                assert(tracks(cl, c, key_of(v[x].request), x));
            }
        }
    }
    assert forall|d: ClientId, mk: MessageKey|
        #![trigger dl[d].requests[mk]]
        dl.contains_key(d) && dl[d].requests.contains_key(mk) implies {
            let x = dl[d].requests[mk];
            &&& v.contains_key(x)
            &&& key_of(v[x].request) == mk
            &&& holds(v[x].value, d)
        } by {
        assert(d != c);
        assert(cl[d].requests[mk] == dl[d].requests[mk]);
    }
    assert forall|x: Key, d: ClientId|
        #![trigger holds(v[x].value, d)]
        v.contains_key(x) && holds(v[x].value, d) implies excused(None, d, x) || tracks(dl, d, key_of(v[x].request), x) by {
        assert(tracks(cl, d, key_of(v[x].request), x));
    }
    assert forall|d: ClientId| #[trigger] dl.contains_key(d) implies dl[d].pending == pending_count(v, d) by {
        if d != c {
            assert(cl.contains_key(d));
        }
    }
}

/// Once client `c` is gone from the clients, the bookkeeping agrees but for `c`'s requests, and
/// each request `c` holds is one it tracked, that is one of its entries.
proof fn lemma_agrees_client_gone(
    cl: Map<ClientId, ClientView>,
    v: Map<Key, NodeView<RequestVariant, RequestState>>,
    c: ClientId,
    entries: Seq<(MessageKey, Key)>,
)
    requires
        agrees(cl, v, None, None),
        cl.contains_key(c),
        distinct_keys(entries),
        kv_view(entries) == cl[c].requests,
    ensures
        agrees(cl.remove(c), v, Some((c, Option::<Key>::None)), None),
        forall|y: Key|
            #[trigger] v.contains_key(y) && holds(v[y].value, c) ==> exists|x: int| 0 <= x < entries.len() && entries[x].1 == y,
{
    let dl = cl.remove(c);
    let ex = Some((c, Option::<Key>::None));
    assert forall|d: ClientId, mk: MessageKey|
        #![trigger dl[d].requests[mk]]
        dl.contains_key(d) && dl[d].requests.contains_key(mk) implies {
            let x = dl[d].requests[mk];
            &&& v.contains_key(x)
            &&& key_of(v[x].request) == mk
            &&& holds(v[x].value, d)
        } by {
        assert(cl[d].requests[mk] == dl[d].requests[mk]);
    }
    assert forall|x: Key, d: ClientId|
        #![trigger holds(v[x].value, d)]
        v.contains_key(x) && holds(v[x].value, d) implies excused(ex, d, x) || tracks(dl, d, key_of(v[x].request), x) by {
        assert(tracks(cl, d, key_of(v[x].request), x));
    }
    assert forall|d: ClientId| #[trigger] dl.contains_key(d) implies dl[d].pending == pending_count(v, d) by {
        assert(cl.contains_key(d));
    }
    assert forall|y: Key|
        #[trigger] v.contains_key(y) && holds(v[y].value, c) implies exists|x: int| 0 <= x < entries.len() && entries[x].1 == y by {
        let mk = key_of(v[y].request);
        assert(tracks(cl, c, mk, y));
        assert(kv_view(entries).contains_key(mk));
        let x = choose|x: int| 0 <= x < entries.len() && entries[x].0 == mk;
        lemma_kv_at(entries, x);
        assert(entries[x].1 == y);
    }
}

/// Once client `c` stops tracking request `k` (under `mk`), with nothing else changed, the
/// request is ready to be cancelled for it.
proof fn lemma_untracked_ready(
    cl: Map<ClientId, ClientView>,
    v: Map<Key, NodeView<RequestVariant, RequestState>>,
    c: ClientId,
    mk: MessageKey,
    k: Key,
    dl: Map<ClientId, ClientView>,
)
    requires
        agrees(cl, v, None, None),
        tracks(cl, c, mk, k),
        dl.dom() == cl.dom(),
        forall|d: ClientId| #[trigger] cl.contains_key(d) && d != c ==> dl[d] == cl[d],
        dl[c].requests == cl[c].requests.remove(mk),
        dl[c].pending == cl[c].pending,
    ensures
        cancel_ready(dl, v, c, k, Some((c, Some(k))), None),
{
    let ex = Some((c, Some(k)));
    assert(cl[c].requests[mk] == k);
    assert(v.contains_key(k) && key_of(v[k].request) == mk && holds(v[k].value, c));
    assert forall|d: ClientId, m: MessageKey|
        #![trigger dl[d].requests[m]]
        dl.contains_key(d) && dl[d].requests.contains_key(m) implies {
            let x = dl[d].requests[m];
            &&& v.contains_key(x)
            &&& key_of(v[x].request) == m
            &&& holds(v[x].value, d)
        } by {
        assert(cl[d].requests.contains_key(m));
        assert(cl[d].requests[m] == dl[d].requests[m]);
    }
    assert forall|x: Key, d: ClientId|
        #![trigger holds(v[x].value, d)]
        v.contains_key(x) && holds(v[x].value, d) implies excused(ex, d, x) || tracks(dl, d, key_of(v[x].request), x) by {
        assert(tracks(cl, d, key_of(v[x].request), x));
        if d == c && key_of(v[x].request) == mk {
            assert(x == k);
        }
    }
    assert forall|d: ClientId| #[trigger] dl.contains_key(d) implies dl[d].pending == pending_count(v, d) by {
        assert(cl.contains_key(d));
    }
}

/// The bookkeeping of client `c` once it joined request `k` (see `Worker::update_node`).
pub open spec fn joined_view(v: ClientView, s: RequestState, mk: MessageKey, k: Key) -> ClientView {
    ClientView {
        requests: if s is Committed {
            v.requests.remove(mk)
        } else {
            v.requests.insert(mk, k)
        },
        pending: if s is Committed {
            v.pending
        } else {
            v.pending + 1
        },
        choked: v.choked,
    }
}

/// Once client `c` joined request `k`, which it did not track, the bookkeeping agrees again but
/// for the request it tracked before under the same message key, if any: that one is ready to
/// be cancelled for it.
proof fn lemma_agrees_joined(
    cl: Map<ClientId, ClientView>,
    v: Map<Key, NodeView<RequestVariant, RequestState>>,
    dl: Map<ClientId, ClientView>,
    w: Map<Key, NodeView<RequestVariant, RequestState>>,
    c: ClientId,
    k: Key,
    initial: InitialRequestState,
    owed: Option<ClientId>,
)
    requires
        agrees(cl, v, None, owed),
        cl.contains_key(c),
        v.contains_key(k),
        state_ok(v[k].value),
        tracked_node(cl, c, key_of(v[k].request)) != Some(k),
        dl == cl.insert(c, joined_view(cl[c], v[k].value, key_of(v[k].request), k)),
        v[k].value is Committed ==> w == v,
        !(v[k].value is Committed) ==> only_state_changed(
            v,
            w,
            k,
            joined(v[k].value, c, initial).0,
            joined(v[k].value, c, initial).1,
        ),
    ensures
        ({
            let t = tracked_node(cl, c, key_of(v[k].request));
            &&& t is Some ==> cancel_ready(dl, w, c, t->0, Some((c, t)), owed)
            &&& t is None ==> agrees(dl, w, None, owed)
        }),
{
    let s = v[k].value;
    let mk = key_of(v[k].request);
    let t = tracked_node(cl, c, mk);
    let ex = match t {
        Some(o) => Some((c, Some(o))),
        None => None,
    };
    // `c` does not hold `k` yet.
    if holds(s, c) {
        assert(tracks(cl, c, mk, k));
    }
    assert(!holds(s, c));
    let ns = w[k].value;
    if !(s is Committed) {
        assert forall|d: ClientId| d != c implies holds(ns, d) == holds(s, d) && pend(ns, d) == pend(s, d) by {
            lemma_with_id_contains(waiters_of(s), c, d);
            if s is Cancelled {
                assert(seq![c].contains(d) ==> d == c);
            }
        }
        lemma_with_id_contains(waiters_of(s), c, c);
        assert(seq![c][0] == c);
        assert(holds(ns, c));
        assert(pend(ns, c));
    }
    if t is Some {
        let o = t->0;
        assert(cl[c].requests[mk] == o);
        assert(v.contains_key(o) && key_of(v[o].request) == mk && holds(v[o].value, c));
        assert(o != k);
    }
    assert forall|d: ClientId, m: MessageKey|
        #![trigger dl[d].requests[m]]
        dl.contains_key(d) && dl[d].requests.contains_key(m) implies {
            let x = dl[d].requests[m];
            &&& w.contains_key(x)
            &&& key_of(w[x].request) == m
            &&& holds(w[x].value, d)
        } by {
        if d != c {
            assert(dl[d] == cl[d]);
            let x = cl[d].requests[m];
            assert(holds(v[x].value, d));
        } else if m != mk {
            assert(dl[c].requests[m] == cl[c].requests[m]);
            let x = cl[c].requests[m];
            assert(holds(v[x].value, c));
            assert(x != k);
        }
    }
    assert forall|x: Key, d: ClientId|
        #![trigger holds(w[x].value, d)]
        w.contains_key(x) && holds(w[x].value, d) implies excused(ex, d, x) || tracks(dl, d, key_of(w[x].request), x) by {
        if x == k && !(s is Committed) {
            if d != c {
                assert(holds(s, d));
                assert(tracks(cl, d, mk, k));
            }
        } else {
            assert(holds(v[x].value, d));
            assert(tracks(cl, d, key_of(v[x].request), x));
            if d == c && key_of(v[x].request) == mk {
                assert(t == Some(x));
            }
        }
    }
    assert forall|d: ClientId| #[trigger] dl.contains_key(d) implies dl[d].pending == pending_count(w, d) + if owed == Some(d) {
        1nat
    } else {
        0nat
    } by {
        if !(s is Committed) {
            lemma_count_one_changed(v, w, k, d);
        }
    }
    if t is None && s is Committed {
        assert(!cl[c].requests.contains_key(mk));
        assert(cl[c].requests.remove(mk) =~= cl[c].requests);
    }
}

/// New requests that are cancelled (so that nobody holds them) keep the bookkeeping in
/// agreement.
proof fn lemma_agrees_grown(
    cl: Map<ClientId, ClientView>,
    v: Map<Key, NodeView<RequestVariant, RequestState>>,
    w: Map<Key, NodeView<RequestVariant, RequestState>>,
    owed: Option<ClientId>,
)
    requires
        agrees(cl, v, None, owed),
        v.dom().subset_of(w.dom()),
        w.dom().finite(),
        w.dom().len() <= usize::MAX,
        forall|x: Key| #[trigger] v.contains_key(x) ==> w[x].value == v[x].value && w[x].request == v[x].request,
        forall|x: Key| #[trigger] w.contains_key(x) && !v.contains_key(x) ==> w[x].value is Cancelled,
    ensures
        agrees(cl, w, None, owed),
{
    assert forall|c: ClientId, mk: MessageKey|
        #![trigger cl[c].requests[mk]]
        cl.contains_key(c) && cl[c].requests.contains_key(mk) implies {
            let x = cl[c].requests[mk];
            &&& w.contains_key(x)
            &&& key_of(w[x].request) == mk
            &&& holds(w[x].value, c)
        } by {
        let x = cl[c].requests[mk];
        assert(holds(v[x].value, c));
    }
    assert forall|x: Key, c: ClientId|
        #![trigger holds(w[x].value, c)]
        w.contains_key(x) && holds(w[x].value, c) implies excused(None, c, x) || tracks(cl, c, key_of(w[x].request), x) by {
        if v.contains_key(x) {
            assert(holds(v[x].value, c));
        }
    }
    assert forall|c: ClientId| #[trigger] cl.contains_key(c) implies cl[c].pending == pending_count(w, c) + if owed == Some(c) {
        1nat
    } else {
        0nat
    } by {
        lemma_count_same(v, w, c);
    }
}

/// Once request `k`, received from client `c`, is complete, the bookkeeping agrees but for the
/// pending count of `c`, which is owed its decrement.
proof fn lemma_agrees_completed(
    cl: Map<ClientId, ClientView>,
    v: Map<Key, NodeView<RequestVariant, RequestState>>,
    w: Map<Key, NodeView<RequestVariant, RequestState>>,
    k: Key,
    c: ClientId,
)
    requires
        agrees(cl, v, None, None),
        v.contains_key(k),
        phase(v[k].value) == Phase::Received(c),
        only_state_changed(v, w, k, Phase::Complete(c), waiters_of(v[k].value)),
    ensures
        agrees(cl, w, None, Some(c)),
{
    assert forall|d: ClientId| holds(w[k].value, d) == holds(v[k].value, d) by {}
    assert forall|c: ClientId, mk: MessageKey|
        #![trigger cl[c].requests[mk]]
        cl.contains_key(c) && cl[c].requests.contains_key(mk) implies {
            let x = cl[c].requests[mk];
            &&& w.contains_key(x)
            &&& key_of(w[x].request) == mk
            &&& holds(w[x].value, c)
        } by {
        let x = cl[c].requests[mk];
        assert(holds(v[x].value, c));
    }
    assert forall|x: Key, d: ClientId|
        #![trigger holds(w[x].value, d)]
        w.contains_key(x) && holds(w[x].value, d) implies excused(None, d, x) || tracks(cl, d, key_of(w[x].request), x) by {
        assert(holds(v[x].value, d));
    }
    assert forall|d: ClientId| #[trigger] cl.contains_key(d) implies cl[d].pending == pending_count(w, d) + if Some(c) == Some(d) {
        1nat
    } else {
        0nat
    } by {
        lemma_count_one_changed(v, w, k, d);
    }
}

/// Once the owed decrement of client `c`'s pending count is made, the bookkeeping agrees.
proof fn lemma_agrees_paid(
    cl: Map<ClientId, ClientView>,
    dl: Map<ClientId, ClientView>,
    v: Map<Key, NodeView<RequestVariant, RequestState>>,
    c: ClientId,
)
    requires
        agrees(cl, v, None, Some(c)),
        cl.contains_key(c),
        dl == cl.insert(c, with_pending(cl[c], (cl[c].pending - 1) as nat)),
    ensures
        agrees(dl, v, None, None),
{
    assert forall|d: ClientId, mk: MessageKey|
        #![trigger dl[d].requests[mk]]
        dl.contains_key(d) && dl[d].requests.contains_key(mk) implies {
            let x = dl[d].requests[mk];
            &&& v.contains_key(x)
            &&& key_of(v[x].request) == mk
            &&& holds(v[x].value, d)
        } by {
        assert(cl[d].requests[mk] == dl[d].requests[mk]);
    }
    assert forall|x: Key, d: ClientId|
        #![trigger holds(v[x].value, d)]
        v.contains_key(x) && holds(v[x].value, d) implies excused(None, d, x) || tracks(dl, d, key_of(v[x].request), x) by {
        assert(tracks(cl, d, key_of(v[x].request), x));
    }
}

/// Once complete request `k` is committed, each client holding it untracking it and each of its
/// waiters counting it no more, the bookkeeping agrees.
proof fn lemma_agrees_committed(
    cl: Map<ClientId, ClientView>,
    v: Map<Key, NodeView<RequestVariant, RequestState>>,
    dl: Map<ClientId, ClientView>,
    w: Map<Key, NodeView<RequestVariant, RequestState>>,
    k: Key,
)
    requires
        agrees(cl, v, None, None),
        v.contains_key(k),
        v[k].value is Complete,
        w == with_state(v, k, RequestState::Committed),
        dl.dom() == cl.dom(),
        forall|d: ClientId|
            #[trigger] cl.contains_key(d) ==> dl[d].choked == cl[d].choked && dl[d].pending + (if pend(v[k].value, d) {
                1int
            } else {
                0int
            }) == cl[d].pending && dl[d].requests == (if holds(v[k].value, d) {
                cl[d].requests.remove(key_of(v[k].request))
            } else {
                cl[d].requests
            }),
    ensures
        agrees(dl, w, None, None),
{
    let mk = key_of(v[k].request);
    lemma_with_state(v, k, RequestState::Committed);
    assert forall|d: ClientId, m: MessageKey|
        #![trigger dl[d].requests[m]]
        dl.contains_key(d) && dl[d].requests.contains_key(m) implies {
            let x = dl[d].requests[m];
            &&& w.contains_key(x)
            &&& key_of(w[x].request) == m
            &&& holds(w[x].value, d)
        } by {
        assert(cl[d].requests.contains_key(m));
        assert(cl[d].requests[m] == dl[d].requests[m]);
        let x = cl[d].requests[m];
        assert(holds(v[x].value, d));
        assert(x != k);
    }
    assert forall|x: Key, d: ClientId|
        #![trigger holds(w[x].value, d)]
        w.contains_key(x) && holds(w[x].value, d) implies excused(None, d, x) || tracks(dl, d, key_of(w[x].request), x) by {
        assert(x != k);
        assert(holds(v[x].value, d));
        assert(tracks(cl, d, key_of(v[x].request), x));
        if holds(v[k].value, d) {
            assert(tracks(cl, d, mk, k));
        }
    }
    assert forall|d: ClientId| #[trigger] dl.contains_key(d) implies dl[d].pending == pending_count(w, d) by {
        lemma_count_one_changed(v, w, k, d);
    }
}

/// Where no request is held by the excused client any more, its excuse is not needed.
proof fn lemma_agrees_no_excuse(
    cl: Map<ClientId, ClientView>,
    v: Map<Key, NodeView<RequestVariant, RequestState>>,
    c: ClientId,
)
    requires
        agrees(cl, v, Some((c, Option::<Key>::None)), None),
        forall|y: Key| #[trigger] v.contains_key(y) ==> !holds(v[y].value, c),
    ensures
        agrees(cl, v, None, None),
{
    assert forall|x: Key, d: ClientId|
        #![trigger holds(v[x].value, d)]
        v.contains_key(x) && holds(v[x].value, d) implies excused(None, d, x) || tracks(cl, d, key_of(v[x].request), x) by {
        assert(d != c);
    }
}

/// The excuse that is left once client `c` gave up its part in request `k`.
pub open spec fn excuse_after(ex: Option<(ClientId, Option<Key>)>, k: Key) -> Option<(ClientId, Option<Key>)> {
    if ex matches Some((_, Some(x))) && x == k {
        None
    } else {
        ex
    }
}

/// Removing requests that are committed or cancelled keeps the bookkeeping in agreement.
proof fn lemma_agrees_after_removal(
    cl: Map<ClientId, ClientView>,
    v: Map<Key, NodeView<RequestVariant, RequestState>>,
    w: Map<Key, NodeView<RequestVariant, RequestState>>,
    ex: Option<(ClientId, Option<Key>)>,
    owed: Option<ClientId>,
)
    requires
        agrees(cl, v, ex, owed),
        others_kept(v, w, None),
    ensures
        agrees(cl, w, ex, owed),
{
    vstd::set_lib::lemma_len_subset(w.dom(), v.dom());
    assert forall|c: ClientId, mk: MessageKey|
        #![trigger cl[c].requests[mk]]
        cl.contains_key(c) && cl[c].requests.contains_key(mk) implies {
            let x = cl[c].requests[mk];
            &&& w.contains_key(x)
            &&& key_of(w[x].request) == mk
            &&& holds(w[x].value, c)
        } by {
        let x = cl[c].requests[mk];
        assert(holds(v[x].value, c));
        assert(!is_final(v[x].value));
    }
    assert forall|x: Key, c: ClientId|
        #![trigger holds(w[x].value, c)]
        w.contains_key(x) && holds(w[x].value, c) implies excused(ex, c, x) || tracks(cl, c, key_of(w[x].request), x) by {
        assert(holds(v[x].value, c));
    }
    assert forall|c: ClientId| #[trigger] cl.contains_key(c) implies cl[c].pending == pending_count(w, c) + if owed == Some(c) {
        1nat
    } else {
        0nat
    } by {
        lemma_count_same(v, w, c);
    }
}

/// Client `c`, which does not track request `k`, gives up its part in it: it holds it no more,
/// nobody else's part changes, and its pending count goes down by what the request counted for
/// it.
proof fn lemma_agrees_drop_holder(
    cl: Map<ClientId, ClientView>,
    dl: Map<ClientId, ClientView>,
    v: Map<Key, NodeView<RequestVariant, RequestState>>,
    w: Map<Key, NodeView<RequestVariant, RequestState>>,
    k: Key,
    c: ClientId,
    ex: Option<(ClientId, Option<Key>)>,
    owed: Option<ClientId>,
)
    requires
        agrees(cl, v, ex, owed),
        ex matches Some((d, ko)) ==> d == c && (ko is None || ko == Some(k)),
        v.contains_key(k),
        !tracks(cl, c, key_of(v[k].request), k),
        w.dom() == v.dom(),
        forall|x: Key| #[trigger] v.contains_key(x) && x != k ==> w[x] == v[x],
        w[k].request == v[k].request,
        forall|d: ClientId| d != c ==> holds(w[k].value, d) == holds(v[k].value, d),
        forall|d: ClientId| d != c ==> pend(w[k].value, d) == pend(v[k].value, d),
        !holds(w[k].value, c),
        dl.dom() == cl.dom(),
        forall|d: ClientId| #[trigger] cl.contains_key(d) && d != c ==> dl[d] == cl[d],
        cl.contains_key(c) ==> dl[c].requests == cl[c].requests && dl[c].pending + (if pend(v[k].value, c) {
            1int
        } else {
            0int
        }) == cl[c].pending,
    ensures
        agrees(dl, w, excuse_after(ex, k), owed),
{
    let ex2 = excuse_after(ex, k);
    assert forall|d: ClientId, mk: MessageKey|
        #![trigger dl[d].requests[mk]]
        dl.contains_key(d) && dl[d].requests.contains_key(mk) implies {
            let x = dl[d].requests[mk];
            &&& w.contains_key(x)
            &&& key_of(w[x].request) == mk
            &&& holds(w[x].value, d)
        } by {
        assert(dl[d].requests == cl[d].requests);
        let x = cl[d].requests[mk];
        assert(holds(v[x].value, d));
        if x == k {
            assert(key_of(v[k].request) == mk);
            assert(d != c);
        }
    }
    assert forall|x: Key, d: ClientId|
        #![trigger holds(w[x].value, d)]
        w.contains_key(x) && holds(w[x].value, d) implies excused(ex2, d, x) || tracks(dl, d, key_of(w[x].request), x) by {
        if x == k {
            assert(d != c);
            assert(holds(v[k].value, d));
            assert(!excused(ex, d, k));
            assert(tracks(cl, d, key_of(v[k].request), k));
        } else {
            assert(holds(v[x].value, d));
            if excused(ex, d, x) {
                assert(excused(ex2, d, x));
            } else {
                assert(tracks(cl, d, key_of(v[x].request), x));
                if d == c {
                    assert(dl[c].requests == cl[c].requests);
                }
            }
        }
    }
    assert forall|d: ClientId| #[trigger] dl.contains_key(d) implies dl[d].pending == pending_count(w, d) + if owed == Some(d) {
        1nat
    } else {
        0nat
    } by {
        lemma_count_one_changed(v, w, k, d);
    }
}

/// What cancelling request `k` for client `c` needs for the bookkeeping to stay in agreement:
/// agreement but for the excuse, which concerns `c` (and `k`, or all its requests); `c` does not
/// track `k`; and a client `c` holds `k` unless `k` is committed or cancelled.
pub open spec fn cancel_ready(
    cl: Map<ClientId, ClientView>,
    v: Map<Key, NodeView<RequestVariant, RequestState>>,
    c: ClientId,
    k: Key,
    ex: Option<(ClientId, Option<Key>)>,
    owed: Option<ClientId>,
) -> bool {
    &&& agrees(cl, v, ex, owed)
    &&& ex matches Some((d, ko)) ==> d == c && (ko is None || ko == Some(k))
    &&& v.contains_key(k) ==> !tracks(cl, c, key_of(v[k].request), k)
    &&& v.contains_key(k) && cl.contains_key(c) && !is_final(v[k].value) ==> holds(v[k].value, c)
}

/// A request that nobody holds needs no excuse.
proof fn lemma_agrees_drop_excuse(
    cl: Map<ClientId, ClientView>,
    v: Map<Key, NodeView<RequestVariant, RequestState>>,
    k: Key,
    ex: Option<(ClientId, Option<Key>)>,
    owed: Option<ClientId>,
)
    requires
        agrees(cl, v, ex, owed),
        ex matches Some((d, ko)) ==> ko is None || ko == Some(k),
        v.contains_key(k) ==> is_final(v[k].value),
    ensures
        agrees(cl, v, excuse_after(ex, k), owed),
{
    assert forall|x: Key, c: ClientId|
        #![trigger holds(v[x].value, c)]
        v.contains_key(x) && holds(v[x].value, c) implies excused(excuse_after(ex, k), c, x) || tracks(
            cl,
            c,
            key_of(v[x].request),
            x,
        ) by {
        if x == k {
            assert(!holds(v[k].value, c));
        }
    }
}

/// The node of the request that the client tracks under the message key, if any.
pub open spec fn tracked_node(clients: Map<ClientId, ClientView>, c: ClientId, key: MessageKey) -> Option<Key> {
    if clients.contains_key(c) && clients[c].requests.contains_key(key) {
        Some(clients[c].requests[key])
    } else {
        None
    }
}

/// The client's bookkeeping with the given pending count.
pub open spec fn with_pending(v: ClientView, pending: nat) -> ClientView {
    ClientView { requests: v.requests, pending, choked: v.choked }
}

/// The tracked requests with the state of `k` replaced.
pub open spec fn with_state(
    nodes: Map<Key, NodeView<RequestVariant, RequestState>>,
    k: Key,
    s: RequestState,
) -> Map<Key, NodeView<RequestVariant, RequestState>> {
    nodes.insert(k, with_value(nodes[k], s))
}

/// The sequence without the client.
pub open spec fn without(s: Seq<ClientId>, c: ClientId) -> Seq<ClientId>
    decreases s.len(),
{
    if s.len() == 0 {
        Seq::empty()
    } else {
        let prev = without(s.drop_last(), c);
        if s.last() == c {
            prev
        } else {
            prev.push(s.last())
        }
    }
}

/// The sequence with the client added at the end, unless it is there already.
pub open spec fn with_id(s: Seq<ClientId>, c: ClientId) -> Seq<ClientId> {
    if s.contains(c) {
        s
    } else {
        s.push(c)
    }
}

proof fn lemma_clients_update(s: Seq<(ClientId, ClientState)>, j: int, st: ClientState)
    requires
        distinct_keys(s),
        0 <= j < s.len(),
    ensures
        distinct_keys(s.update(j, (s[j].0, st))),
        clients_of(s.update(j, (s[j].0, st))) == clients_of(s).insert(s[j].0, st.view()),
{
    lemma_kv_update(s, j, st);
    let t = s.update(j, (s[j].0, st));
    assert forall|c: ClientId| has_key(t, c) <==> kv_view(t).contains_key(c) by {}
    assert forall|c: ClientId| has_key(s, c) <==> kv_view(s).contains_key(c) by {}
    assert(clients_of(t) =~= clients_of(s).insert(s[j].0, st.view()));
}

proof fn lemma_clients_push(s: Seq<(ClientId, ClientState)>, c: ClientId, st: ClientState)
    requires
        distinct_keys(s),
        !has_key(s, c),
    ensures
        distinct_keys(s.push((c, st))),
        clients_of(s.push((c, st))) == clients_of(s).insert(c, st.view()),
{
    lemma_kv_push(s, c, st);
    let t = s.push((c, st));
    assert forall|x: ClientId| has_key(t, x) <==> kv_view(t).contains_key(x) by {}
    assert forall|x: ClientId| has_key(s, x) <==> kv_view(s).contains_key(x) by {}
    assert(clients_of(t) =~= clients_of(s).insert(c, st.view()));
}

proof fn lemma_clients_remove(s: Seq<(ClientId, ClientState)>, j: int)
    requires
        distinct_keys(s),
        0 <= j < s.len(),
    ensures
        distinct_keys(s.remove(j)),
        clients_of(s.remove(j)) == clients_of(s).remove(s[j].0),
{
    lemma_kv_remove(s, j);
    let t = s.remove(j);
    assert forall|x: ClientId| has_key(t, x) <==> kv_view(t).contains_key(x) by {}
    assert forall|x: ClientId| has_key(s, x) <==> kv_view(s).contains_key(x) by {}
    assert(clients_of(t) =~= clients_of(s).remove(s[j].0));
}

/// A copy of the ids.
fn copy_ids(v: &Vec<ClientId>) -> (r: Vec<ClientId>)
    ensures
        r@ == v@,
{
    let mut r: Vec<ClientId> = Vec::new();
    let mut i: usize = 0;
    while i < v.len()
        invariant
            i <= v@.len(),
            r@ == v@.take(i as int),
        decreases v@.len() - i,
    {
        r.push(v[i]);
        proof {
            assert(v@.take(i + 1) =~= v@.take(i as int).push(v@[i as int]));
        }
        i = i + 1;
    }
    assert(v@.take(v@.len() as int) =~= v@);
    r
}

/// The ids without `c`.
fn remove_id(v: &Vec<ClientId>, c: ClientId) -> (r: Vec<ClientId>)
    ensures
        r@ == without(v@, c),
        v@.no_duplicates() ==> r@.no_duplicates(),
        forall|x: ClientId| #[trigger] r@.contains(x) <==> v@.contains(x) && x != c,
{
    let mut r: Vec<ClientId> = Vec::new();
    let mut i: usize = 0;
    while i < v.len()
        invariant
            i <= v@.len(),
            r@ == without(v@.take(i as int), c),
            v@.no_duplicates() ==> r@.no_duplicates(),
            forall|x: ClientId| #[trigger] r@.contains(x) ==> v@.take(i as int).contains(x) && x != c,
            forall|k: int| 0 <= k < i && v@[k] != c ==> r@.contains(#[trigger] v@[k]),
        decreases v@.len() - i,
    {
        let ghost before = r@;
        proof {
            assert(v@.take(i + 1).drop_last() =~= v@.take(i as int));
            assert(v@.take(i + 1).last() == v@[i as int]);
        }
        if v[i].0 != c.0 {
            r.push(v[i]);
            proof {
                assert(v@[i as int] != c);
                if v@.no_duplicates() {
                    assert(!before.contains(v@[i as int])) by {
                        if before.contains(v@[i as int]) {
                            assert(v@.take(i as int).contains(v@[i as int]));
                            let k = choose|k: int| 0 <= k < i && v@.take(i as int)[k] == v@[i as int];
                            assert(v@[k] == v@[i as int]);
                        }
                    }
                }
            }
        } else {
            proof {
                assert(v@[i as int] == c);
            }
        }
        proof {
            assert forall|k: int| 0 <= k < i + 1 && v@[k] != c implies r@.contains(#[trigger] v@[k]) by {
                if k < i {
                    assert(before.contains(v@[k]));
                    let m = choose|m: int| 0 <= m < before.len() && before[m] == v@[k];
                    assert(r@[m] == v@[k]);
                } else {
                    assert(r@[r@.len() - 1] == v@[k]);
                }
            }
            assert forall|x: ClientId| #[trigger] r@.contains(x) implies v@.take(i + 1).contains(x) && x != c by {
                if before.contains(x) {
                    let k = choose|k: int| 0 <= k < i && v@.take(i as int)[k] == x;
                    assert(v@.take(i + 1)[k] == x);
                } else {
                    assert(x == v@[i as int]);
                    assert(v@.take(i + 1)[i as int] == x);
                }
            }
        }
        i = i + 1;
    }
    assert(v@.take(v@.len() as int) =~= v@);
    proof {
        assert forall|x: ClientId| v@.contains(x) && x != c implies #[trigger] r@.contains(x) by {
            let k = choose|k: int| 0 <= k < v@.len() && v@[k] == x;
        }
    }
    r
}

/// The ids with `c` added at the end, unless it is there already.
fn add_id(ids: Vec<ClientId>, c: ClientId) -> (r: Vec<ClientId>)
    ensures
        r@ == with_id(ids@, c),
        ids@.no_duplicates() ==> r@.no_duplicates(),
{
    let mut v = ids;
    let mut i: usize = 0;
    while i < v.len()
        invariant
            v@ == ids@,
            i <= v@.len(),
            forall|k: int| 0 <= k < i ==> v@[k] != c,
        decreases v@.len() - i,
    {
        if v[i].0 == c.0 {
            proof {
                assert(v@.contains(c)) by {
                    assert(v@[i as int] == c);
                }
            }
            return v;
        }
        i = i + 1;
    }
    proof {
        assert(!v@.contains(c));
    }
    v.push(c);
    v
}

/// The request tracker's state: the clients and the graph of tracked requests.
pub struct Worker {
    clients: Vec<(ClientId, ClientState)>,
    requests: Graph<RequestVariant, RequestState>,
}

impl Worker {
    /// The tracked requests.
    pub closed spec fn nodes(&self) -> Map<Key, NodeView<RequestVariant, RequestState>> {
        self.requests.view()
    }

    /// The clients.
    pub closed spec fn clients(&self) -> Map<ClientId, ClientView> {
        clients_of(self.clients@)
    }

    /// The graph is consistent, clients appear once, each client tracks a message key once and
    /// no request lists a waiter twice.
    pub closed spec fn wf(&self) -> bool {
        &&& self.requests.wf()
        &&& distinct_keys(self.clients@)
        &&& forall|i: int| 0 <= i < self.clients@.len() ==> (#[trigger] self.clients@[i]).1.wf()
        &&& forall|k: Key| #[trigger] self.nodes().contains_key(k) ==> state_ok(self.nodes()[k].value)
    }

    /// The clients' bookkeeping agrees with the requests: a client tracks a request (under its
    /// message key) exactly when it waits for it or sends it, and each client's pending count is
    /// the number of requests it waits for or sends, a completed one it sent aside.
    pub open spec fn consistent(&self) -> bool {
        agrees(self.clients(), self.nodes(), None, None)
    }

    pub fn new() -> (r: Self)
        ensures
            r.wf(),
            r.consistent(),
            r.clients() == Map::<ClientId, ClientView>::empty(),
            r.nodes() == Map::<Key, NodeView<RequestVariant, RequestState>>::empty(),
    {
        let r = Worker { clients: Vec::new(), requests: Graph::new() };
        assert(r.clients() =~= Map::<ClientId, ClientView>::empty());
        proof {
            r.requests.lemma_dom_finite();
            assert(r.nodes().dom() =~= Set::<Key>::empty());
        }
        r
    }

    proof fn lemma_client_at(&self, i: int)
        requires
            distinct_keys(self.clients@),
            0 <= i < self.clients@.len(),
        ensures
            self.clients().contains_key(self.clients@[i].0),
            self.clients()[self.clients@[i].0] == self.clients@[i].1.view(),
    {
        lemma_kv_at(self.clients@, i);
    }

    /// Takes the bookkeeping of the client at position `j` out, leaving a fresh one there.
    fn take_client(&mut self, j: usize) -> (r: ClientState)
        requires
            j < old(self).clients@.len(),
        ensures
            final(self).clients@.len() == old(self).clients@.len(),
            forall|k: int| 0 <= k < old(self).clients@.len() && k != j ==> final(self).clients@[k] == old(self).clients@[k],
            final(self).clients@[j as int].0 == old(self).clients@[j as int].0,
            final(self).requests == old(self).requests,
            r == old(self).clients@[j as int].1,
    {
        let id = self.clients[j].0;
        let mut entry = (id, ClientState { requests: Vec::new(), pending: 0, choked: false });
        std::mem::swap(&mut entry, &mut self.clients[j]);
        entry.1
    }

    /// Puts the bookkeeping of the client at position `j` (taken out before) back.
    fn put_client(&mut self, j: usize, st: ClientState, Ghost(before): Ghost<Seq<(ClientId, ClientState)>>)
        requires
            j < old(self).clients@.len(),
            before.len() == old(self).clients@.len(),
            distinct_keys(before),
            forall|k: int| 0 <= k < before.len() && k != j ==> old(self).clients@[k] == before[k],
            old(self).clients@[j as int].0 == before[j as int].0,
        ensures
            final(self).clients@ == before.update(j as int, (before[j as int].0, st)),
            final(self).requests == old(self).requests,
            distinct_keys(final(self).clients@),
            clients_of(final(self).clients@) == clients_of(before).insert(before[j as int].0, st.view()),
    {
        let id = self.clients[j].0;
        self.clients.set(j, (id, st));
        proof {
            assert(self.clients@ =~= before.update(j as int, (before[j as int].0, st)));
            lemma_clients_update(before, j as int, st);
        }
    }

    /// Hands `key` to each recipient that is a client and is not choked.
    fn notify(&self, recipients: &Vec<ClientId>, key: MessageKey, out: &mut Vec<Effect>)
        requires
            distinct_keys(self.clients@),
        ensures
            final(out)@ == old(out)@ + notices(self.clients(), recipients@, key),
    {
        let mut i: usize = 0;
        while i < recipients.len()
            invariant
                i <= recipients@.len(),
                distinct_keys(self.clients@),
                out@ == old(out)@ + notices(self.clients(), recipients@.take(i as int), key),
            decreases recipients@.len() - i,
        {
            let c = recipients[i];
            proof {
                assert(recipients@.take(i + 1).drop_last() =~= recipients@.take(i as int));
                assert(recipients@.take(i + 1).last() == c);
            }
            match self.client_index(c) {
                Some(j) => {
                    proof {
                        self.lemma_client_at(j as int);
                    }
                    if !self.clients[j].1.choked {
                        out.push(Effect::Notify(c, key));
                    }
                },
                None => {},
            }
            i = i + 1;
        }
        assert(recipients@.take(recipients@.len() as int) =~= recipients@);
    }

    /// Takes the state of the request out, leaving `Cancelled` in its place.
    fn take_state(&mut self, k: Key) -> (r: RequestState)
        requires
            old(self).wf(),
            old(self).nodes().contains_key(k),
        ensures
            final(self).wf(),
            r == old(self).nodes()[k].value,
            final(self).nodes() == with_state(old(self).nodes(), k, RequestState::Cancelled),
            final(self).clients@ == old(self).clients@,
    {
        let v = self.requests.value_mut(k);
        let mut s = RequestState::Cancelled;
        std::mem::swap(&mut s, v);
        proof {
            assert forall|x: Key| #[trigger] self.nodes().contains_key(x) implies state_ok(self.nodes()[x].value) by {
                if x != k {
                    assert(old(self).nodes().contains_key(x));
                }
            }
        }
        s
    }

    /// Sets the state of the request.
    fn put_state(&mut self, k: Key, s: RequestState)
        requires
            old(self).wf(),
            old(self).nodes().contains_key(k),
            state_ok(s),
        ensures
            final(self).wf(),
            final(self).nodes() == with_state(old(self).nodes(), k, s),
            final(self).clients@ == old(self).clients@,
    {
        let v = self.requests.value_mut(k);
        *v = s;
        proof {
            assert forall|x: Key| #[trigger] self.nodes().contains_key(x) implies state_ok(self.nodes()[x].value) by {
                if x != k {
                    assert(old(self).nodes().contains_key(x));
                }
            }
        }
    }

    /// One pending request less for the client at position `j`; once none is left, the client
    /// is told it is idle. Nothing happens to a count that is zero already.
    fn decrement_pending(&mut self, j: usize, out: &mut Vec<Effect>)
        requires
            old(self).wf(),
            j < old(self).clients@.len(),
        ensures
            final(self).wf(),
            final(self).nodes() == old(self).nodes(),
            final(self).clients@.len() == old(self).clients@.len(),
            forall|k: int| 0 <= k < old(self).clients@.len() ==> #[trigger] final(self).clients@[k].0 == old(self).clients@[k].0,
            ({
                let c = old(self).clients@[j as int].0;
                let p = old(self).clients()[c].pending;
                &&& p > 0 ==> final(self).clients() == old(self).clients().insert(c, with_pending(old(self).clients()[c], (p - 1) as nat))
                &&& p == 0 ==> final(self).clients() == old(self).clients()
                &&& final(out)@ == old(out)@ + (if p == 1 { seq![Effect::Notify(c, MessageKey::Idle)] } else { Seq::empty() })
            }),
    {
        let ghost before = self.clients@;
        proof {
            self.lemma_client_at(j as int);
        }
        let id = self.clients[j].0;
        if self.clients[j].1.pending == 0 {
            return;
        }
        let mut st = self.take_client(j);
        st.pending = st.pending - 1;
        if st.pending == 0 {
            out.push(Effect::Notify(id, MessageKey::Idle));
        }
        self.put_client(j, st, Ghost(before));
        proof {
            assert(st.wf());
            assert forall|i: int| 0 <= i < self.clients@.len() implies (#[trigger] self.clients@[i]).1.wf() by {
                if i != j {
                    assert(self.clients@[i] == before[i]);
                }
            }
        }
    }

    /// The node of the request that the client tracks under the message key, if it is still in
    /// the graph.
    fn find_tracked(&self, client_id: ClientId, request_key: &MessageKey) -> (r: Option<Key>)
        requires
            self.wf(),
        ensures
            r == (match tracked_node(self.clients(), client_id, *request_key) {
                Some(k) => if self.nodes().contains_key(k) {
                    Some(k)
                } else {
                    None::<Key>
                },
                None => None,
            }),
    {
        let j = match self.client_index(client_id) {
            Some(j) => j,
            None => return None,
        };
        proof {
            self.lemma_client_at(j as int);
            assert(self.clients@[j as int].1.wf());
        }
        let e = match entry_index(&self.clients[j].1.requests, request_key) {
            Some(e) => e,
            None => {
                proof {
                    assert(!kv_view(self.clients@[j as int].1.requests@).contains_key(*request_key));
                }
                return None;
            },
        };
        proof {
            lemma_kv_at(self.clients@[j as int].1.requests@, e as int);
        }
        let k = self.clients[j].1.requests[e].1;
        match self.requests.get(k) {
            Some(_) => Some(k),
            None => None,
        }
    }

    /// Registers a client, with nothing tracked. A client registered before is reset.
    pub fn insert_client(&mut self, client_id: ClientId)
        requires
            old(self).wf(),
        ensures
            final(self).wf(),
            final(self).nodes() == old(self).nodes(),
            final(self).clients() == old(self).clients().insert(client_id, fresh_client()),
            old(self).consistent() && !old(self).clients().contains_key(client_id) ==> final(self).consistent(),
    {
        let fresh = ClientState { requests: Vec::new(), pending: 0, choked: false };
        proof {
            assert(fresh.view().requests =~= Map::<MessageKey, Key>::empty());
            assert(fresh.wf());
        }
        match self.client_index(client_id) {
            Some(j) => {
                let ghost before = self.clients@;
                let _ = self.take_client(j);
                self.put_client(j, fresh, Ghost(before));
                proof {
                    assert forall|i: int| 0 <= i < self.clients@.len() implies (#[trigger] self.clients@[i]).1.wf() by {
                        if i != j {
                            assert(self.clients@[i] == before[i]);
                        }
                    }
                }
            },
            None => {
                let ghost before = self.clients@;
                proof {
                    assert(!has_key(before, client_id));
                    lemma_clients_push(before, client_id, fresh);
                }
                self.clients.push((client_id, fresh));
                proof {
                    if old(self).consistent() {
                        lemma_agrees_new_client(old(self).clients(), self.nodes(), client_id);
                    }
                    assert forall|i: int| 0 <= i < self.clients@.len() implies (#[trigger] self.clients@[i]).1.wf() by {
                        if i < before.len() {
                            assert(self.clients@[i] == before[i]);
                        }
                    }
                }
            },
        }
    }

    /// The client picks up a request it was handed. A ready request goes in flight with this
    /// client as its sender, and is returned; any other yields nothing.
    pub fn handle_send(&mut self, client_id: ClientId, request_key: MessageKey, out: &mut Vec<Effect>) -> (r: Option<
        PendingRequest,
    >)
        requires
            old(self).wf(),
        ensures
            final(self).wf(),
            final(self).clients() == old(self).clients(),
            ({
                let t = tracked_node(old(self).clients(), client_id, request_key);
                if t is Some && old(self).nodes().contains_key(t->0) && phase(old(self).nodes()[t->0].value)
                    == Phase::Ready {
                    let k = t->0;
                    let n = old(self).nodes()[k];
                    &&& r == Some((PendingRequest { payload: n.request, variant: n.disambiguator }))
                    &&& only_state_changed(
                        old(self).nodes(),
                        final(self).nodes(),
                        k,
                        Phase::InFlight(client_id),
                        without(waiters_of(n.value), client_id),
                    )
                    &&& final(out)@ == old(out)@.push(Effect::StartTimer(client_id, request_key))
                } else {
                    &&& r is None
                    &&& final(self).nodes() == old(self).nodes()
                    &&& final(out)@ == old(out)@
                }
            }),
            old(self).consistent() ==> final(self).consistent(),
    {
        let k = match self.find_tracked(client_id, &request_key) {
            Some(k) => k,
            None => return None,
        };
        let (ready, request) = match self.requests.get(k) {
            Some(node) => {
                let ready = match node.value() {
                    RequestState::Ready { .. } => true,
                    _ => false,
                };
                (ready, PendingRequest { payload: *node.request(), variant: *node.disambiguator() })
            },
            None => return None,
        };
        if !ready {
            return None;
        }
        let ghost n = self.nodes()[k];
        let state = self.take_state(k);
        match state {
            RequestState::Ready { waiters } => {
                let ghost w = waiters@;
                let waiters = remove_id(&waiters, client_id);
                self.put_state(k, RequestState::InFlight { sender: client_id, waiters });
                proof {
                    lemma_with_state(old(self).nodes(), k, RequestState::InFlight { sender: client_id, waiters });
                    if old(self).consistent() {
                        let mk = key_of(n.request);
                        assert(tracks(old(self).clients(), client_id, request_key, k));
                        assert(old(self).clients()[client_id].requests[request_key] == k);
                        assert(holds(n.value, client_id));
                        assert(w.contains(client_id));
                        assert forall|c: ClientId| holds(self.nodes()[k].value, c) == holds(n.value, c) by {
                            lemma_without_contains(w, client_id, c);
                        }
                        lemma_agrees_same_holders(old(self).clients(), old(self).nodes(), self.nodes(), k, None, None);
                    }
                }
            },
            _ => {
                proof {
                    assert(false);
                }
            },
        }
        out.push(Effect::StartTimer(client_id, request_key));
        Some(request)
    }

    /// The response to a request the client sent came: the request is marked received.
    pub fn handle_receive(&mut self, client_id: ClientId, request_key: MessageKey, out: &mut Vec<Effect>)
        requires
            old(self).wf(),
            old(self).clients().contains_key(client_id),
        ensures
            final(self).wf(),
            final(self).clients() == old(self).clients(),
            ({
                let t = tracked_node(old(self).clients(), client_id, request_key);
                if t is Some && old(self).nodes().contains_key(t->0) && phase(old(self).nodes()[t->0].value)
                    == Phase::InFlight(client_id) {
                    &&& only_state_changed(
                        old(self).nodes(),
                        final(self).nodes(),
                        t->0,
                        Phase::Received(client_id),
                        waiters_of(old(self).nodes()[t->0].value),
                    )
                    &&& final(out)@ == old(out)@.push(Effect::Received(client_id, request_key))
                } else {
                    &&& final(self).nodes() == old(self).nodes()
                    &&& final(out)@ == old(out)@
                }
            }),
            old(self).consistent() ==> final(self).consistent(),
    {
        let k = match self.find_tracked(client_id, &request_key) {
            Some(k) => k,
            None => return,
        };
        let in_flight = match self.requests.get(k) {
            Some(node) => match node.value() {
                RequestState::InFlight { sender, .. } => sender.0 == client_id.0,
                _ => false,
            },
            None => false,
        };
        if !in_flight {
            return;
        }
        let state = self.take_state(k);
        match state {
            RequestState::InFlight { sender, waiters } => {
                self.put_state(k, RequestState::Received { sender, waiters });
                proof {
                    lemma_with_state(old(self).nodes(), k, RequestState::Received { sender, waiters });
                    if old(self).consistent() {
                        lemma_agrees_same_holders(old(self).clients(), old(self).nodes(), self.nodes(), k, None, None);
                    }
                }
            },
            _ => {
                proof {
                    assert(false);
                }
            },
        }
        out.push(Effect::Received(client_id, request_key));
    }

    /// Resumes the suspended request with the message key and variant: it becomes ready and
    /// its waiters are handed its key.
    pub fn resume(&mut self, request_key: MessageKey, variant: RequestVariant, out: &mut Vec<Effect>)
        requires
            old(self).wf(),
        ensures
            final(self).wf(),
            final(self).clients() == old(self).clients(),
            ({
                let t = spec_lookup(old(self).nodes(), (request_key, variant));
                if t is Some && phase(old(self).nodes()[t->0].value) == Phase::Suspended {
                    let w = waiters_of(old(self).nodes()[t->0].value);
                    &&& only_state_changed(old(self).nodes(), final(self).nodes(), t->0, Phase::Ready, w)
                    &&& final(out)@ == old(out)@ + notices(old(self).clients(), w, request_key)
                } else {
                    &&& final(self).nodes() == old(self).nodes()
                    &&& final(out)@ == old(out)@
                }
            }),
            old(self).consistent() ==> final(self).consistent(),
    {
        let k = match self.requests.lookup(&request_key, &variant) {
            Some(k) => k,
            None => return,
        };
        proof {
            assert(self.nodes().contains_key(k));
        }
        let suspended = match self.requests.get(k) {
            Some(node) => match node.value() {
                RequestState::Suspended { .. } => true,
                _ => false,
            },
            None => false,
        };
        if !suspended {
            return;
        }
        let state = self.take_state(k);
        match state {
            RequestState::Suspended { waiters } => {
                self.notify(&waiters, request_key, out);
                self.put_state(k, RequestState::Ready { waiters });
                proof {
                    lemma_with_state(old(self).nodes(), k, RequestState::Ready { waiters });
                    if old(self).consistent() {
                        lemma_agrees_same_holders(old(self).clients(), old(self).nodes(), self.nodes(), k, None, None);
                    }
                }
            },
            _ => {
                proof {
                    assert(false);
                }
            },
        }
    }

    /// Removes the request if it is committed or cancelled and has no children left, then
    /// does the same for its parents.
    fn remove_request(&mut self, k: Key)
        requires
            old(self).wf(),
        ensures
            final(self).wf(),
            final(self).clients@ == old(self).clients@,
            others_kept(old(self).nodes(), final(self).nodes(), None),
            // A committed or cancelled request without children is removed; otherwise nothing
            // changes.
            old(self).nodes().contains_key(k) && is_final(old(self).nodes()[k].value)
                && old(self).nodes()[k].children == Set::<Key>::empty() ==> !final(self).nodes().contains_key(k),
            !(old(self).nodes().contains_key(k) && is_final(old(self).nodes()[k].value)
                && old(self).nodes()[k].children == Set::<Key>::empty()) ==> final(self).nodes() == old(self).nodes(),
        decreases old(self).nodes().dom().len(),
    {
        let (remove, parents) = match self.requests.get(k) {
            Some(node) => {
                let removable = match node.value() {
                    RequestState::Committed | RequestState::Cancelled => true,
                    _ => false,
                };
                let children = node.children();
                proof {
                    if children@.len() > 0 {
                        assert(key_set(children@).contains(children@[0]));
                    } else {
                        assert(key_set(children@) =~= Set::<Key>::empty());
                    }
                }
                (removable && children.len() == 0, node.parents())
            },
            None => return,
        };
        if !remove {
            return;
        }
        let ghost start = self.nodes();
        proof {
            self.requests.lemma_dom_finite();
        }
        let _ = self.requests.remove(k);
        proof {
            assert(self.nodes().dom() =~= start.dom().remove(k));
            assert forall|x: Key| #[trigger] self.nodes().contains_key(x) implies state_ok(self.nodes()[x].value) by {
                assert(start.contains_key(x));
            }
        }
        let mut i: usize = 0;
        while i < parents.len()
            invariant
                self.wf(),
                self.clients@ == old(self).clients@,
                start == old(self).nodes(),
                start.dom().finite(),
                start.contains_key(k),
                self.nodes().dom().subset_of(start.dom().remove(k)),
                others_kept(start, self.nodes(), None),
            decreases parents@.len() - i,
        {
            proof {
                vstd::set_lib::lemma_len_subset(self.nodes().dom(), start.dom().remove(k));
            }
            let ghost mid = self.nodes();
            self.remove_request(parents[i]);
            proof {
                assert forall|x: Key| #[trigger] start.contains_key(x) && !self.nodes().contains_key(x) implies is_final(start[x].value) by {
                    if mid.contains_key(x) {
                        assert(is_final(mid[x].value));
                    }
                }
            }
            i = i + 1;
        }
    }

    /// Stops the client at position `j` from tracking the request `k` under the message key
    /// (if that is what it tracks under the key).
    fn untrack(&mut self, j: usize, request_key: &MessageKey, k: Key)
        requires
            old(self).wf(),
            j < old(self).clients@.len(),
        ensures
            final(self).wf(),
            final(self).nodes() == old(self).nodes(),
            final(self).clients@.len() == old(self).clients@.len(),
            forall|i: int| 0 <= i < old(self).clients@.len() ==> #[trigger] final(self).clients@[i].0 == old(self).clients@[i].0,
            ({
                let c = old(self).clients@[j as int].0;
                let v = old(self).clients()[c];
                final(self).clients() == old(self).clients().insert(
                    c,
                    ClientView {
                        requests: if tracked_node(old(self).clients(), c, *request_key) == Some(k) {
                            v.requests.remove(*request_key)
                        } else {
                            v.requests
                        },
                        pending: v.pending,
                        choked: v.choked,
                    },
                )
            }),
    {
        let ghost before = self.clients@;
        proof {
            self.lemma_client_at(j as int);
            assert(before[j as int].1.wf());
        }
        let mut st = self.take_client(j);
        match entry_index(&st.requests, request_key) {
            Some(e) => {
                proof {
                    lemma_kv_at(st.requests@, e as int);
                }
                if st.requests[e].1.0 == k.0 {
                    proof {
                        lemma_kv_remove(st.requests@, e as int);
                    }
                    st.requests.remove(e);
                }
            },
            None => {},
        }
        proof {
            assert(st.wf());
        }
        self.put_client(j, st, Ghost(before));
        proof {
            assert forall|i: int| 0 <= i < self.clients@.len() implies (#[trigger] self.clients@[i]).1.wf() by {
                if i != j {
                    assert(self.clients@[i] == before[i]);
                }
            }
        }
    }

    /// Gives up the client's part in request `k`, which the client no longer tracks: the client
    /// stops waiting for it, or stops sending it. When the client was its sender, the waiters
    /// take over: the request is ready again and they are handed its key. A request that nobody
    /// holds any more is cancelled, and removed once it has no children. The client's pending
    /// count goes down unless it held the request as the sender of a completed one.
    #[verifier::spinoff_prover]
    #[verifier::rlimit(40)]
    fn cancel_request(
        &mut self,
        client_id: ClientId,
        k: Key,
        reason: Option<FailureReason>,
        out: &mut Vec<Effect>,
        Ghost(ex): Ghost<Option<(ClientId, Option<Key>)>>,
        Ghost(owed): Ghost<Option<ClientId>>,
    )
        requires
            old(self).wf(),
        ensures
            final(self).wf(),
            old(out)@.is_prefix_of(final(out)@),
            final(self).clients().dom() == old(self).clients().dom(),
            forall|d: ClientId|
                d != client_id && #[trigger] old(self).clients().contains_key(d) ==> final(self).clients()[d]
                    == old(self).clients()[d],
            others_kept(old(self).nodes(), final(self).nodes(), Some(k)),
            !old(self).nodes().contains_key(k) || is_final(old(self).nodes()[k].value) ==> final(self).nodes()
                == old(self).nodes() && final(self).clients() == old(self).clients() && final(out)@ == old(out)@,
            old(self).nodes().contains_key(k) && !is_final(old(self).nodes()[k].value) ==> cancelled_as(
                old(self).nodes()[k],
                final(self).nodes(),
                k,
                client_id,
            ),
            forall|c: ClientId| tracking_shrunk(old(self).clients(), final(self).clients(), c),
            old(self).nodes().contains_key(k) && !is_final(old(self).nodes()[k].value) ==> final(out)@ == old(out)@
                + cancel_effects(old(self).clients(), old(self).nodes()[k], client_id, reason),
            // The bookkeeping stays in agreement, the client no longer needing its excuse for `k`.
            cancel_ready(old(self).clients(), old(self).nodes(), client_id, k, ex, owed) ==> agrees(
                final(self).clients(),
                final(self).nodes(),
                excuse_after(ex, k),
                owed,
            ),
    {
        let request_key = match self.requests.get(k) {
            Some(node) => MessageKey::from_request(node.request()),
            None => {
                proof {
                    if cancel_ready(old(self).clients(), old(self).nodes(), client_id, k, ex, owed) {
                        lemma_agrees_drop_excuse(old(self).clients(), old(self).nodes(), k, ex, owed);
                    }
                }
                return;
            },
        };
        let ghost v0 = self.nodes();
        let ghost cl0 = self.clients();
        let ghost ready = cancel_ready(cl0, v0, client_id, k, ex, owed);
        let j = self.client_index(client_id);
        proof {
            if ready && cl0.contains_key(client_id) && !is_final(v0[k].value) {
                lemma_pending_finite(v0, client_id);
                if pend(v0[k].value, client_id) {
                    assert(pending_set(v0, client_id).contains(k));
                    vstd::set::axiom_set_contains_len(pending_set(v0, client_id), k);
                }
            }
        }
        let state = self.take_state(k);
        proof {
            assert(state_ok(state));
        }
        match state {
            RequestState::Committed => {
                self.put_state(k, RequestState::Committed);
                proof {
                    lemma_with_state(old(self).nodes(), k, RequestState::Committed);
                    assert(self.nodes() =~= old(self).nodes());
                    if ready {
                        lemma_agrees_drop_excuse(cl0, v0, k, ex, owed);
                    }
                }
                return;
            },
            RequestState::Cancelled => {
                proof {
                    assert(self.nodes() =~= old(self).nodes());
                    if ready {
                        lemma_agrees_drop_excuse(cl0, v0, k, ex, owed);
                    }
                }
                return;
            },
            RequestState::Ready { waiters } => {
                self.decrement_opt(j, out);
                let ghost cl1 = self.clients();
                proof {
                    lemma_notices_same_chokes(cl0, cl1, waiters@, request_key);
                }
                let rest = remove_id(&waiters, client_id);
                if rest.len() > 0 {
                    self.put_state(k, RequestState::Ready { waiters: rest });
                    proof {
                        lemma_with_state(old(self).nodes(), k, RequestState::Ready { waiters: rest });
                        lemma_others_kept_state(old(self).nodes(), k, RequestState::Ready { waiters: rest });
                        if ready {
                            self.lemma_dropped(cl0, cl1, v0, k, client_id, ex, owed, waiters@);
                        }
                    }
                    return;
                }
                let ghost mid = self.nodes();
                proof {
                    if ready {
                        lemma_with_state(v0, k, RequestState::Cancelled);
                        self.lemma_dropped(cl0, cl1, v0, k, client_id, ex, owed, waiters@);
                    }
                }
                self.remove_request(k);
                proof {
                    lemma_others_kept_state(old(self).nodes(), k, RequestState::Cancelled);
                    lemma_others_kept_chain(old(self).nodes(), mid, self.nodes(), Some(k), None);
                    if ready {
                        lemma_agrees_after_removal(cl1, mid, self.nodes(), excuse_after(ex, k), owed);
                    }
                }
            },
            RequestState::Suspended { waiters } => {
                self.decrement_opt(j, out);
                let ghost cl1 = self.clients();
                proof {
                    lemma_notices_same_chokes(cl0, cl1, waiters@, request_key);
                }
                let rest = remove_id(&waiters, client_id);
                if rest.len() > 0 {
                    self.put_state(k, RequestState::Suspended { waiters: rest });
                    proof {
                        lemma_with_state(old(self).nodes(), k, RequestState::Suspended { waiters: rest });
                        lemma_others_kept_state(old(self).nodes(), k, RequestState::Suspended { waiters: rest });
                        if ready {
                            self.lemma_dropped(cl0, cl1, v0, k, client_id, ex, owed, waiters@);
                        }
                    }
                    return;
                }
                let ghost mid = self.nodes();
                proof {
                    if ready {
                        lemma_with_state(v0, k, RequestState::Cancelled);
                        self.lemma_dropped(cl0, cl1, v0, k, client_id, ex, owed, waiters@);
                    }
                }
                self.remove_request(k);
                proof {
                    lemma_others_kept_state(old(self).nodes(), k, RequestState::Cancelled);
                    lemma_others_kept_chain(old(self).nodes(), mid, self.nodes(), Some(k), None);
                    if ready {
                        lemma_agrees_after_removal(cl1, mid, self.nodes(), excuse_after(ex, k), owed);
                    }
                }
            },
            RequestState::InFlight { sender, waiters } => {
                self.decrement_opt(j, out);
                let ghost cl1 = self.clients();
                proof {
                    lemma_notices_same_chokes(cl0, cl1, waiters@, request_key);
                }
                if sender.0 != client_id.0 {
                    let rest = remove_id(&waiters, client_id);
                    self.put_state(k, RequestState::InFlight { sender, waiters: rest });
                    proof {
                        lemma_with_state(old(self).nodes(), k, RequestState::InFlight { sender, waiters: rest });
                        lemma_others_kept_state(old(self).nodes(), k, RequestState::InFlight { sender, waiters: rest });
                        if ready {
                            self.lemma_dropped(cl0, cl1, v0, k, client_id, ex, owed, waiters@);
                        }
                    }
                    return;
                }
                out.push(Effect::Cancelled(client_id, request_key, reason));
                let ghost mid = self.nodes();
                let ghost mid_clients = self.clients();
                let ghost w = waiters@;
                self.hand_over(j, k, request_key, waiters, out);
                proof {
                    lemma_shrunk_trans(old(self).clients(), mid_clients, self.clients());
                    lemma_others_kept_state(old(self).nodes(), k, RequestState::Cancelled);
                    lemma_others_kept_chain(old(self).nodes(), mid, self.nodes(), Some(k), Some(k));
                    if ready {
                        if w.len() > 0 {
                            lemma_with_state(v0, k, self.nodes()[k].value);
                        }
                        self.lemma_handed_over(cl0, cl1, v0, mid, k, client_id, ex, owed, w);
                    }
                }
            },
            RequestState::Received { sender, waiters } => {
                self.decrement_opt(j, out);
                let ghost cl1 = self.clients();
                proof {
                    lemma_notices_same_chokes(cl0, cl1, waiters@, request_key);
                }
                if sender.0 != client_id.0 {
                    let rest = remove_id(&waiters, client_id);
                    self.put_state(k, RequestState::Received { sender, waiters: rest });
                    proof {
                        lemma_with_state(old(self).nodes(), k, RequestState::Received { sender, waiters: rest });
                        lemma_others_kept_state(old(self).nodes(), k, RequestState::Received { sender, waiters: rest });
                        if ready {
                            self.lemma_dropped(cl0, cl1, v0, k, client_id, ex, owed, waiters@);
                        }
                    }
                    return;
                }
                let ghost mid = self.nodes();
                let ghost mid_clients = self.clients();
                let ghost w = waiters@;
                self.hand_over(j, k, request_key, waiters, out);
                proof {
                    lemma_shrunk_trans(old(self).clients(), mid_clients, self.clients());
                    lemma_others_kept_state(old(self).nodes(), k, RequestState::Cancelled);
                    lemma_others_kept_chain(old(self).nodes(), mid, self.nodes(), Some(k), Some(k));
                    if ready {
                        if w.len() > 0 {
                            lemma_with_state(v0, k, self.nodes()[k].value);
                        }
                        self.lemma_handed_over(cl0, cl1, v0, mid, k, client_id, ex, owed, w);
                    }
                }
            },
            RequestState::Complete { sender, waiters } => {
                if sender.0 != client_id.0 {
                    self.decrement_opt(j, out);
                    let ghost cl1 = self.clients();
                    proof {
                        lemma_notices_same_chokes(cl0, cl1, waiters@, request_key);
                    }
                proof {
                    lemma_notices_same_chokes(cl0, cl1, waiters@, request_key);
                }
                    let rest = remove_id(&waiters, client_id);
                    self.put_state(k, RequestState::Complete { sender, waiters: rest });
                    proof {
                        lemma_with_state(old(self).nodes(), k, RequestState::Complete { sender, waiters: rest });
                        lemma_others_kept_state(old(self).nodes(), k, RequestState::Complete { sender, waiters: rest });
                        if ready {
                            self.lemma_dropped(cl0, cl1, v0, k, client_id, ex, owed, waiters@);
                        }
                    }
                    return;
                }
                let ghost mid = self.nodes();
                let ghost w = waiters@;
                self.hand_over(j, k, request_key, waiters, out);
                proof {
                    lemma_others_kept_state(old(self).nodes(), k, RequestState::Cancelled);
                    lemma_others_kept_chain(old(self).nodes(), mid, self.nodes(), Some(k), Some(k));
                    if ready {
                        if w.len() > 0 {
                            lemma_with_state(v0, k, self.nodes()[k].value);
                        }
                        self.lemma_handed_over(cl0, cl0, v0, mid, k, client_id, ex, owed, w);
                    }
                }
            },
        }
    }

    /// After client `c` left request `k` (as a waiter, or as the only holder of a request
    /// without sender, which is now cancelled), and had its pending count decremented, the
    /// bookkeeping agrees again.
    proof fn lemma_dropped(
        &self,
        cl0: Map<ClientId, ClientView>,
        cl1: Map<ClientId, ClientView>,
        v0: Map<Key, NodeView<RequestVariant, RequestState>>,
        k: Key,
        c: ClientId,
        ex: Option<(ClientId, Option<Key>)>,
        owed: Option<ClientId>,
        w: Seq<ClientId>,
    )
        requires
            cancel_ready(cl0, v0, c, k, ex, owed),
            v0.contains_key(k),
            !is_final(v0[k].value),
            state_ok(v0[k].value),
            w == waiters_of(v0[k].value),
            sender_of(v0[k].value) != Some(c),
            self.clients() == cl1,
            cl1.dom() == cl0.dom(),
            forall|d: ClientId| #[trigger] cl0.contains_key(d) && d != c ==> cl1[d] == cl0[d],
            cl0.contains_key(c) ==> cl1[c].requests == cl0[c].requests && cl1[c].pending == if cl0[c].pending > 0 {
                (cl0[c].pending - 1) as nat
            } else {
                cl0[c].pending
            },
            self.nodes().dom() == v0.dom(),
            forall|x: Key| #[trigger] v0.contains_key(x) && x != k ==> self.nodes()[x] == v0[x],
            self.nodes()[k].request == v0[k].request,
            ({
                let new = self.nodes()[k].value;
                ||| phase(new) == phase(v0[k].value) && waiters_of(new) == without(w, c)
                ||| new is Cancelled && without(w, c).len() == 0 && sender_of(v0[k].value) is None
            }),
        ensures
            agrees(self.clients(), self.nodes(), excuse_after(ex, k), owed),
    {
        let old_s = v0[k].value;
        let new_s = self.nodes()[k].value;
        assert forall|d: ClientId| d != c implies holds(new_s, d) == holds(old_s, d) && pend(new_s, d) == pend(old_s, d) by {
            lemma_without_contains(w, c, d);
            if new_s is Cancelled && without(w, c).len() == 0 {
                if w.contains(d) {
                    let i = choose|i: int| 0 <= i < without(w, c).len() && without(w, c)[i] == d;
                }
            }
        }
        lemma_without_contains(w, c, c);
        if cl0.contains_key(c) {
            assert(holds(old_s, c));
            assert(pend(old_s, c));
            lemma_pending_finite(v0, c);
            assert(pending_set(v0, c).contains(k));
            vstd::set::axiom_set_contains_len(pending_set(v0, c), k);
        }
        lemma_agrees_drop_holder(cl0, cl1, v0, self.nodes(), k, c, ex, owed);
    }

    /// After the sender `c` of request `k` left it (its pending count decremented if it counted
    /// the request), the waiters `w` taking over or the request cancelled and maybe removed, the
    /// bookkeeping agrees again.
    proof fn lemma_handed_over(
        &self,
        cl0: Map<ClientId, ClientView>,
        cl1: Map<ClientId, ClientView>,
        v0: Map<Key, NodeView<RequestVariant, RequestState>>,
        mid: Map<Key, NodeView<RequestVariant, RequestState>>,
        k: Key,
        c: ClientId,
        ex: Option<(ClientId, Option<Key>)>,
        owed: Option<ClientId>,
        w: Seq<ClientId>,
    )
        requires
            cancel_ready(cl0, v0, c, k, ex, owed),
            v0.contains_key(k),
            state_ok(v0[k].value),
            w == waiters_of(v0[k].value),
            sender_of(v0[k].value) == Some(c),
            mid == with_state(v0, k, RequestState::Cancelled),
            cl1.dom() == cl0.dom(),
            forall|d: ClientId| #[trigger] cl0.contains_key(d) && d != c ==> cl1[d] == cl0[d],
            cl0.contains_key(c) ==> cl1[c].requests == cl0[c].requests && cl1[c].pending + (if pend(v0[k].value, c) {
                1int
            } else {
                0int
            }) == cl0[c].pending,
            w.len() > 0 ==> self.nodes().dom() == v0.dom() && (forall|x: Key| #[trigger] v0.contains_key(x) && x != k ==> self.nodes()[x] == v0[x])
                && self.nodes()[k].request == v0[k].request && phase(self.nodes()[k].value) == Phase::Ready
                && waiters_of(self.nodes()[k].value) == w && self.clients() == cl1,
            w.len() == 0 ==> others_kept(mid, self.nodes(), None) && self.clients() == cl1,
        ensures
            agrees(self.clients(), self.nodes(), excuse_after(ex, k), owed),
    {
        let old_s = v0[k].value;
        if w.len() > 0 {
            let new_s = self.nodes()[k].value;
            assert forall|d: ClientId| d != c implies holds(new_s, d) == holds(old_s, d) && pend(new_s, d) == pend(old_s, d) by {}
            lemma_agrees_drop_holder(cl0, cl1, v0, self.nodes(), k, c, ex, owed);
        } else {
            lemma_with_state(v0, k, RequestState::Cancelled);
            assert forall|d: ClientId| d != c implies holds(mid[k].value, d) == holds(old_s, d) && pend(mid[k].value, d)
                == pend(old_s, d) by {
                if w.contains(d) {
                    let i = choose|i: int| 0 <= i < w.len() && w[i] == d;
                }
            }
            lemma_agrees_drop_holder(cl0, cl1, v0, mid, k, c, ex, owed);
            lemma_agrees_after_removal(cl1, mid, self.nodes(), excuse_after(ex, k), owed);
        }
    }

    /// Decrements the pending count of the client at position `j`, if there is one.
    fn decrement_opt(&mut self, j: Option<usize>, out: &mut Vec<Effect>)
        requires
            old(self).wf(),
            j matches Some(i) ==> i < old(self).clients@.len(),
        ensures
            final(self).wf(),
            final(self).nodes() == old(self).nodes(),
            final(self).clients@.len() == old(self).clients@.len(),
            forall|i: int| 0 <= i < old(self).clients@.len() ==> #[trigger] final(self).clients@[i].0 == old(self).clients@[i].0,
            final(self).clients().dom() == old(self).clients().dom(),
            j is None ==> final(self).clients() == old(self).clients(),
            forall|d: ClientId|
                #[trigger] old(self).clients().contains_key(d) && (j is None || d != old(self).clients@[j->0 as int].0)
                    ==> final(self).clients()[d] == old(self).clients()[d],
            old(out)@.is_prefix_of(final(out)@),
            j is None ==> final(out)@ == old(out)@,
            j matches Some(i) ==> final(out)@ == old(out)@ + idle_notice(old(self).clients(), old(self).clients@[i as int].0),
            forall|c: ClientId| tracking_shrunk(old(self).clients(), final(self).clients(), c),
            j matches Some(i) ==> ({
                let c = old(self).clients@[i as int].0;
                let p = old(self).clients()[c].pending;
                &&& old(self).clients().contains_key(c)
                &&& final(self).clients()[c].requests == old(self).clients()[c].requests
                &&& final(self).clients()[c].choked == old(self).clients()[c].choked
                &&& final(self).clients()[c].pending == if p > 0 {
                    (p - 1) as nat
                } else {
                    p
                }
            }),
    {
        match j {
            Some(i) => {
                proof {
                    self.lemma_client_at(i as int);
                }
                self.decrement_pending(i, out);
                proof {
                    assert(self.clients().dom() =~= old(self).clients().dom());
                }
            },
            None => {},
        }
    }

    /// The sender at position `j` (if still a client) gives up request `k`, whose state was taken
    /// out: its waiters take over, or, when there are none, the request is cancelled.
    fn hand_over(&mut self, j: Option<usize>, k: Key, request_key: MessageKey, waiters: Vec<ClientId>, out: &mut Vec<Effect>)
        requires
            old(self).wf(),
            old(self).nodes().contains_key(k),
            phase(old(self).nodes()[k].value) == Phase::Cancelled,
            waiters@.no_duplicates(),
            j matches Some(i) ==> i < old(self).clients@.len(),
        ensures
            final(self).wf(),
            old(out)@.is_prefix_of(final(out)@),
            final(out)@ == old(out)@ + (if waiters@.len() > 0 {
                notices(old(self).clients(), waiters@, request_key)
            } else {
                Seq::empty()
            }),
            final(self).clients().dom() == old(self).clients().dom(),
            forall|d: ClientId|
                #[trigger] old(self).clients().contains_key(d) && (j is None || d != old(self).clients@[j->0 as int].0)
                    ==> final(self).clients()[d] == old(self).clients()[d],
            others_kept(old(self).nodes(), final(self).nodes(), Some(k)),
            final(self).nodes().contains_key(k) ==> final(self).nodes()[k].request == old(self).nodes()[k].request
                && final(self).nodes()[k].disambiguator == old(self).nodes()[k].disambiguator,
            waiters@.len() > 0 ==> final(self).nodes().contains_key(k) && phase(final(self).nodes()[k].value)
                == Phase::Ready && waiters_of(final(self).nodes()[k].value) == waiters@,
            waiters@.len() == 0 ==> (final(self).nodes().contains_key(k) ==> phase(final(self).nodes()[k].value)
                == Phase::Cancelled),
            forall|c: ClientId| tracking_shrunk(old(self).clients(), final(self).clients(), c),
            waiters@.len() > 0 ==> final(self).nodes() == with_state(old(self).nodes(), k, RequestState::Ready { waiters })
                && final(self).clients() == old(self).clients(),
            waiters@.len() == 0 ==> others_kept(old(self).nodes(), final(self).nodes(), None),
            waiters@.len() == 0 && (j is None || !tracks(old(self).clients(), old(self).clients@[j->0 as int].0, request_key, k))
                ==> final(self).clients() == old(self).clients(),
    {
        if waiters.len() > 0 {
            self.notify(&waiters, request_key, out);
            self.put_state(k, RequestState::Ready { waiters });
            proof {
                lemma_with_state(old(self).nodes(), k, RequestState::Ready { waiters });
            }
            return;
        }
        match j {
            Some(i) => {
                proof {
                    self.lemma_client_at(i as int);
                }
                self.untrack(i, &request_key, k);
                proof {
                    assert(self.clients().dom() =~= old(self).clients().dom());
                    let c = old(self).clients@[i as int].0;
                    if !tracks(old(self).clients(), c, request_key, k) {
                        assert(self.clients() =~= old(self).clients());
                    }
                }
            },
            None => {},
        }
        let ghost mid = self.nodes();
        self.remove_request(k);
        proof {
            assert(mid == old(self).nodes());
        }
    }

    /// The client at position `j` joins request `k`: it tracks the request under its message key
    /// (a committed request is not tracked) and waits for it; a cancelled request starts over
    /// with the client as its only waiter. The client's pending count goes up, except for a
    /// committed request. A client that tracked this very request already changes nothing.
    /// Returns the request the client tracked under the same message key before, when that was
    /// another one: the caller cancels it.
    fn update_node(
        &mut self,
        j: usize,
        k: Key,
        initial_state: InitialRequestState,
        out: &mut Vec<Effect>,
        Ghost(owed): Ghost<Option<ClientId>>,
    ) -> (r: Option<Key>)
        requires
            old(self).wf(),
            j < old(self).clients@.len(),
            old(self).nodes().contains_key(k),
        ensures
            final(self).wf(),
            final(self).clients@.len() == old(self).clients@.len(),
            forall|i: int| 0 <= i < old(self).clients@.len() ==> #[trigger] final(self).clients@[i].0 == old(self).clients@[i].0,
            ({
                let c = old(self).clients@[j as int].0;
                let v = old(self).clients()[c];
                let n = old(self).nodes()[k];
                let s = n.value;
                let mk = key_of(n.request);
                let t = tracked_node(old(self).clients(), c, mk);
                if t == Some(k) || (!(s is Committed) && v.pending == usize::MAX) {
                    &&& r is None
                    &&& final(self).clients() == old(self).clients()
                    &&& final(self).nodes() == old(self).nodes()
                    &&& final(out)@ == old(out)@
                } else {
                    &&& r == t
                    &&& final(self).clients() == old(self).clients().insert(c, joined_view(v, s, mk, k))
                    &&& s is Committed ==> final(self).nodes() == old(self).nodes()
                    &&& !(s is Committed) ==> only_state_changed(
                        old(self).nodes(),
                        final(self).nodes(),
                        k,
                        joined(s, c, initial_state).0,
                        joined(s, c, initial_state).1,
                    )
                    &&& final(out)@ == old(out)@ + (if joins_ready(s, initial_state) {
                        notices(old(self).clients(), seq![c], mk)
                    } else {
                        Seq::empty()
                    })
                }
            }),
            // The bookkeeping agrees again, but for the request to be cancelled.
            agrees(old(self).clients(), old(self).nodes(), None, owed) ==> ({
                let c = old(self).clients@[j as int].0;
                &&& r is Some ==> cancel_ready(final(self).clients(), final(self).nodes(), c, r->0, Some((c, r)), owed)
                &&& r is None ==> agrees(final(self).clients(), final(self).nodes(), None, owed)
            }),
    {
        let c = self.clients[j].0;
        let (request_key, committed) = match self.requests.get(k) {
            Some(node) => {
                let committed = match node.value() {
                    RequestState::Committed => true,
                    _ => false,
                };
                (MessageKey::from_request(node.request()), committed)
            },
            None => {
                proof {
                    assert(false);
                }
                return None;
            },
        };
        let ghost n = self.nodes()[k];
        proof {
            self.lemma_client_at(j as int);
            assert(self.clients@[j as int].1.wf());
        }
        let e = entry_index(&self.clients[j].1.requests, &request_key);
        let mut old_key: Option<Key> = None;
        match e {
            Some(e) => {
                proof {
                    lemma_kv_at(self.clients@[j as int].1.requests@, e as int);
                }
                let current = self.clients[j].1.requests[e].1;
                if current.0 == k.0 {
                    return None;
                }
                old_key = Some(current);
            },
            None => {},
        }
        if !committed && self.clients[j].1.pending == usize::MAX {
            // The client's pending count is at its limit: it joins nothing more.
            return None;
        }
        let ghost before = self.clients@;
        let ghost v = self.clients()[c];
        let mut st = self.take_client(j);
        match e {
            Some(e) => {
                if committed {
                    proof {
                        lemma_kv_remove(st.requests@, e as int);
                    }
                    st.requests.remove(e);
                } else {
                    proof {
                        lemma_kv_update(st.requests@, e as int, k);
                    }
                    st.requests.set(e, (request_key, k));
                }
            },
            None => {
                if !committed {
                    proof {
                        lemma_kv_push(st.requests@, request_key, k);
                    }
                    st.requests.push((request_key, k));
                } else {
                    proof {
                        assert(kv_view(st.requests@).remove(request_key) =~= kv_view(st.requests@));
                    }
                }
            },
        }
        if !committed {
            st.pending = st.pending + 1;
        }
        let choked = st.choked;
        proof {
            assert(st.wf());
            assert(st.view().requests == (if n.value is Committed {
                v.requests.remove(request_key)
            } else {
                v.requests.insert(request_key, k)
            }));
        }
        self.put_client(j, st, Ghost(before));
        proof {
            assert forall|i: int| 0 <= i < self.clients@.len() implies (#[trigger] self.clients@[i]).1.wf() by {
                if i != j {
                    assert(self.clients@[i] == before[i]);
                }
            }
            assert(seq![c].drop_last() =~= Seq::<ClientId>::empty());
            assert(seq![c].last() == c);
            assert(old(self).clients().contains_key(c) && old(self).clients()[c] == v);
            assert(notices(old(self).clients(), Seq::<ClientId>::empty(), request_key) == Seq::<Effect>::empty());
            assert(Seq::<Effect>::empty().push(Effect::Notify(c, request_key)) =~= seq![Effect::Notify(c, request_key)]);
            assert(notices(old(self).clients(), seq![c], request_key) == (if !v.choked {
                seq![Effect::Notify(c, request_key)]
            } else {
                Seq::empty()
            }));
        }
        let state = self.take_state(k);
        proof {
            assert(state_ok(state));
        }
        match state {
            RequestState::Ready { waiters } => {
                if !choked {
                    out.push(Effect::Notify(c, request_key));
                }
                let waiters = add_id(waiters, c);
                self.put_state(k, RequestState::Ready { waiters });
                proof {
                    lemma_with_state(old(self).nodes(), k, RequestState::Ready { waiters });
                }
            },
            RequestState::Suspended { waiters } => {
                let waiters = add_id(waiters, c);
                self.put_state(k, RequestState::Suspended { waiters });
                proof {
                    lemma_with_state(old(self).nodes(), k, RequestState::Suspended { waiters });
                }
            },
            RequestState::InFlight { sender, waiters } => {
                let waiters = if sender.0 == c.0 {
                    waiters
                } else {
                    add_id(waiters, c)
                };
                self.put_state(k, RequestState::InFlight { sender, waiters });
                proof {
                    lemma_with_state(old(self).nodes(), k, RequestState::InFlight { sender, waiters });
                }
            },
            RequestState::Received { sender, waiters } => {
                let waiters = if sender.0 == c.0 {
                    waiters
                } else {
                    add_id(waiters, c)
                };
                self.put_state(k, RequestState::Received { sender, waiters });
                proof {
                    lemma_with_state(old(self).nodes(), k, RequestState::Received { sender, waiters });
                }
            },
            RequestState::Complete { sender, waiters } => {
                let waiters = if sender.0 == c.0 {
                    waiters
                } else {
                    add_id(waiters, c)
                };
                self.put_state(k, RequestState::Complete { sender, waiters });
                proof {
                    lemma_with_state(old(self).nodes(), k, RequestState::Complete { sender, waiters });
                }
            },
            RequestState::Committed => {
                self.put_state(k, RequestState::Committed);
                proof {
                    lemma_with_state(old(self).nodes(), k, RequestState::Committed);
                    assert(self.nodes() =~= old(self).nodes());
                }
            },
            RequestState::Cancelled => {
                let mut waiters: Vec<ClientId> = Vec::new();
                waiters.push(c);
                proof {
                    assert(waiters@ =~= seq![c]);
                }
                match initial_state {
                    InitialRequestState::Ready => {
                        if !choked {
                            out.push(Effect::Notify(c, request_key));
                        }
                        self.put_state(k, RequestState::Ready { waiters });
                        proof {
                            lemma_with_state(old(self).nodes(), k, RequestState::Ready { waiters });
                        }
                    },
                    InitialRequestState::Suspended => {
                        self.put_state(k, RequestState::Suspended { waiters });
                        proof {
                            lemma_with_state(old(self).nodes(), k, RequestState::Suspended { waiters });
                        }
                    },
                }
            },
        }
        proof {
            if agrees(old(self).clients(), old(self).nodes(), None, owed) {
                assert(self.clients() == old(self).clients().insert(c, joined_view(v, n.value, request_key, k)));
                lemma_agrees_joined(old(self).clients(), old(self).nodes(), self.clients(), self.nodes(), c, k, initial_state, owed);
            }
        }
        old_key
    }

    /// The client joins request `k` and, one by one, all the requests that follow from it (its
    /// descendants), as [`Worker::update_node`] says; each request it tracked before under the
    /// same message key as one of those is cancelled for it. `fuel` bounds the depth: the graph
    /// has no cycles, so the number of its requests is enough.
    fn update_request(
        &mut self,
        client_id: ClientId,
        k: Key,
        initial_state: InitialRequestState,
        fuel: usize,
        out: &mut Vec<Effect>,
        Ghost(owed): Ghost<Option<ClientId>>,
    )
        requires
            old(self).wf(),
        ensures
            final(self).wf(),
            old(out)@.is_prefix_of(final(out)@),
            final(self).clients().dom() == old(self).clients().dom(),
            forall|d: ClientId|
                d != client_id && #[trigger] old(self).clients().contains_key(d) ==> final(self).clients()[d]
                    == old(self).clients()[d],
            // A request without follow-ups that the client does not track yet under its message key.
            ({
                let n = old(self).nodes()[k];
                old(self).clients().contains_key(client_id) && old(self).nodes().contains_key(k) && n.children
                    == Set::<Key>::empty() && tracked_node(old(self).clients(), client_id, key_of(n.request)) is None
                    && !(n.value is Committed) && old(self).clients()[client_id].pending < usize::MAX ==> {
                    &&& only_state_changed(
                        old(self).nodes(),
                        final(self).nodes(),
                        k,
                        joined(n.value, client_id, initial_state).0,
                        joined(n.value, client_id, initial_state).1,
                    )
                    &&& final(out)@ == old(out)@ + (if joins_ready(n.value, initial_state) {
                        notices(old(self).clients(), seq![client_id], key_of(n.request))
                    } else {
                        Seq::empty()
                    })
                }
            }),
            agrees(old(self).clients(), old(self).nodes(), None, owed) ==> agrees(
                final(self).clients(),
                final(self).nodes(),
                None,
                owed,
            ),
        decreases fuel,
    {
        let j = match self.client_index(client_id) {
            Some(j) => j,
            None => return,
        };
        let children = match self.requests.get(k) {
            Some(node) => node.children(),
            None => return,
        };
        proof {
            self.lemma_client_at(j as int);
        }
        let old_key = self.update_node(j, k, initial_state, out, Ghost(owed));
        proof {
            assert(self.clients().dom() =~= old(self).clients().dom());
        }
        match old_key {
            Some(o) => {
                self.cancel_request(client_id, o, None, out, Ghost(Some((client_id, Some(o)))), Ghost(owed));
            },
            None => {},
        }
        if fuel == 0 || children.len() == 0 {
            proof {
                if old(self).nodes().contains_key(k) && old(self).nodes()[k].children == Set::<Key>::empty() {
                    if children@.len() > 0 {
                        assert(key_set(children@).contains(children@[0]));
                    }
                }
            }
            return;
        }
        proof {
            assert(key_set(children@).contains(children@[0]));
        }
        let mut i: usize = 0;
        while i < children.len()
            invariant
                fuel > 0,
                self.wf(),
                old(out)@.is_prefix_of(out@),
                self.clients().dom() == old(self).clients().dom(),
                forall|d: ClientId|
                    d != client_id && #[trigger] old(self).clients().contains_key(d) ==> self.clients()[d]
                        == old(self).clients()[d],
                agrees(old(self).clients(), old(self).nodes(), None, owed) ==> agrees(self.clients(), self.nodes(), None, owed),
            decreases children@.len() - i,
        {
            self.update_request(client_id, children[i], initial_state, fuel - 1, out, Ghost(owed));
            i = i + 1;
        }
    }

    /// Tracks the candidate request for the client: the request's node (found, or made in the
    /// cancelled state) gains the given parent, and the client joins it and what follows from it.
    fn insert_request(
        &mut self,
        client_id: ClientId,
        request: CandidateRequest,
        parent_key: Option<Key>,
        out: &mut Vec<Effect>,
        Ghost(owed): Ghost<Option<ClientId>>,
    )
        requires
            old(self).wf(),
        ensures
            final(self).wf(),
            old(out)@.is_prefix_of(final(out)@),
            final(self).clients().dom() == old(self).clients().dom(),
            forall|d: ClientId|
                d != client_id && #[trigger] old(self).clients().contains_key(d) ==> final(self).clients()[d]
                    == old(self).clients()[d],
            // A new request that the client does not track yet under its message key starts
            // with the client as its only waiter, ready (the client is handed its key) or
            // suspended.
            ({
                let mk = key_of(request.payload);
                spec_lookup(old(self).nodes(), (mk, request.variant)) is None && old(self).clients().contains_key(
                    client_id,
                ) && tracked_node(old(self).clients(), client_id, mk) is None && old(self).clients()[client_id].pending
                    < usize::MAX ==> {
                    &&& exists|k: Key|
                        #[trigger] final(self).nodes().contains_key(k) && index_key(final(self).nodes()[k]) == (
                            mk,
                            request.variant,
                        ) && phase(final(self).nodes()[k].value) == (if request.state == InitialRequestState::Ready {
                            Phase::Ready
                        } else {
                            Phase::Suspended
                        }) && waiters_of(final(self).nodes()[k].value) == seq![client_id]
                    &&& final(out)@ == old(out)@ + (if request.state == InitialRequestState::Ready {
                        notices(old(self).clients(), seq![client_id], mk)
                    } else {
                        Seq::empty()
                    })
                }
            }),
            // A request already there, without follow-ups, that the client does not track yet
            // under its message key: the client joins it.
            ({
                let mk = key_of(request.payload);
                let t = spec_lookup(old(self).nodes(), (mk, request.variant));
                let n = old(self).nodes()[t->0];
                t is Some && parent_key is None && old(self).clients().contains_key(client_id)
                    && n.children == Set::<Key>::empty() && tracked_node(old(self).clients(), client_id, mk) is None
                    && !(n.value is Committed) && old(self).clients()[client_id].pending < usize::MAX ==> {
                    &&& only_state_changed(
                        old(self).nodes(),
                        final(self).nodes(),
                        t->0,
                        joined(n.value, client_id, request.state).0,
                        joined(n.value, client_id, request.state).1,
                    )
                    &&& final(out)@ == old(out)@ + (if joins_ready(n.value, request.state) {
                        notices(old(self).clients(), seq![client_id], mk)
                    } else {
                        Seq::empty()
                    })
                }
            }),
            agrees(old(self).clients(), old(self).nodes(), None, owed) ==> agrees(
                final(self).clients(),
                final(self).nodes(),
                None,
                owed,
            ),
    {
        let ghost start = self.nodes();
        let k = self.requests.get_or_insert(request.payload, request.variant, parent_key, RequestState::Cancelled);
        proof {
            let a = after_get_or_insert(start, k, request.payload, request.variant, parent_key, RequestState::Cancelled);
            assert forall|x: Key| #[trigger] self.nodes().contains_key(x) implies state_ok(self.nodes()[x].value) by {
                if start.contains_key(x) {
                    assert(self.nodes()[x].value == start[x].value);
                } else {
                    assert(x == k);
                    assert(self.nodes()[x].value == RequestState::Cancelled);
                }
            }
            if agrees(old(self).clients(), old(self).nodes(), None, owed) {
                self.requests.lemma_dom_finite();
                lemma_agrees_grown(self.clients(), start, self.nodes(), owed);
            }
        }
        let ghost mid = self.nodes();
        let ghost mid_out = out@;
        proof {
            if parent_key is None && start.contains_key(k) {
                let n = start[k];
                assert(n.parents + opt_key_set(None) =~= n.parents);
                assert(n.children + opt_key_set(None) =~= n.children);
                assert(mid =~= start);
            }
        }
        let fuel = self.requests.len();
        self.update_request(client_id, k, request.state, fuel, out, Ghost(owed));
        proof {
            let mk = key_of(request.payload);
            if spec_lookup(start, (mk, request.variant)) is None && old(self).clients().contains_key(client_id)
                && tracked_node(old(self).clients(), client_id, mk) is None && old(self).clients()[client_id].pending
                < usize::MAX {
                assert(!start.contains_key(k));
                assert(mid[k].request == request.payload);
                assert(mid[k].children =~= Set::<Key>::empty());
                assert(mid[k].value == RequestState::Cancelled);
                assert(self.nodes().contains_key(k) && index_key(self.nodes()[k]) == (mk, request.variant));
            }
        }
    }

    /// Unregisters the client: every request it tracked is cancelled for it (its waiters take
    /// over those it was sending).
    pub fn remove_client(&mut self, client_id: ClientId, out: &mut Vec<Effect>)
        requires
            old(self).wf(),
        ensures
            final(self).wf(),
            old(out)@.is_prefix_of(final(out)@),
            final(self).clients() == old(self).clients().remove(client_id),
            // The client holds none of the requests it tracked any more.
            forall|k: Key|
                old(self).clients().contains_key(client_id) && old(self).clients()[client_id].requests.values().contains(k)
                    && #[trigger] final(self).nodes().contains_key(k) ==> !holds(final(self).nodes()[k].value, client_id),
            old(self).consistent() ==> final(self).consistent(),
    {
        let j = match self.client_index(client_id) {
            Some(j) => j,
            None => {
                proof {
                    assert(old(self).clients().remove(client_id) =~= old(self).clients());
                }
                return;
            },
        };
        proof {
            self.lemma_client_at(j as int);
        }
        let ghost before = self.clients@;
        proof {
            lemma_clients_remove(before, j as int);
        }
        let (_, state) = self.clients.remove(j);
        proof {
            assert forall|i: int| 0 <= i < self.clients@.len() implies (#[trigger] self.clients@[i]).1.wf() by {
                if i < j {
                    assert(self.clients@[i] == before[i]);
                } else {
                    assert(self.clients@[i] == before[i + 1]);
                }
            }
        }
        let ghost gone = self.clients();
        let ghost entries = state.requests@;
        let ghost ex = Some((client_id, Option::<Key>::None));
        proof {
            assert(kv_view(entries) == old(self).clients()[client_id].requests);
            if old(self).consistent() {
                lemma_agrees_client_gone(old(self).clients(), self.nodes(), client_id, entries);
            }
        }
        let mut i: usize = 0;
        while i < state.requests.len()
            invariant
                self.wf(),
                old(out)@.is_prefix_of(out@),
                gone == old(self).clients().remove(client_id),
                self.clients() == gone,
                !gone.contains_key(client_id),
                entries == state.requests@,
                i <= entries.len(),
                forall|x: int|
                    0 <= x < i && #[trigger] self.nodes().contains_key(entries[x].1) ==> !holds(
                        self.nodes()[entries[x].1].value,
                        client_id,
                    ),
                ex == Some((client_id, Option::<Key>::None)),
                old(self).consistent() ==> agrees(self.clients(), self.nodes(), ex, None),
                old(self).consistent() ==> forall|y: Key|
                    #[trigger] self.nodes().contains_key(y) && holds(self.nodes()[y].value, client_id) ==> exists|x: int|
                        0 <= x < entries.len() && entries[x].1 == y,
            decreases state.requests@.len() - i,
        {
            let k = state.requests[i].1;
            let ghost mid = self.clients();
            let ghost before = self.nodes();
            self.cancel_request(client_id, k, None, out, Ghost(ex), Ghost(None));
            proof {
                assert(self.clients() =~= mid);
                if old(self).consistent() {
                    assert forall|y: Key|
                        #[trigger] self.nodes().contains_key(y) && holds(self.nodes()[y].value, client_id) implies exists|x: int|
                            0 <= x < entries.len() && entries[x].1 == y by {
                        if y == k {
                            if before.contains_key(k) && !is_final(before[k].value) {
                                lemma_cancelled_releases(before[k], self.nodes(), k, client_id);
                            }
                            assert(entries[i as int].1 == k);
                        } else {
                            assert(before.contains_key(y));
                            assert(self.nodes()[y].value == before[y].value);
                        }
                    }
                }
                if before.contains_key(k) && !is_final(before[k].value) {
                    lemma_cancelled_releases(before[k], self.nodes(), k, client_id);
                }
                assert forall|x: int|
                    0 <= x < i + 1 && #[trigger] self.nodes().contains_key(entries[x].1) implies !holds(
                        self.nodes()[entries[x].1].value,
                        client_id,
                    ) by {
                    let y = entries[x].1;
                    if y != k {
                        assert(before.contains_key(y));
                        assert(self.nodes()[y].value == before[y].value);
                    }
                }
            }
            i = i + 1;
        }
        proof {
            assert forall|k: Key|
                old(self).clients().contains_key(client_id) && old(self).clients()[client_id].requests.values().contains(k)
                    && #[trigger] self.nodes().contains_key(k) implies !holds(self.nodes()[k].value, client_id) by {
                let reqs = old(self).clients()[client_id].requests;
                let mk = choose|mk: MessageKey| reqs.contains_key(mk) && reqs[mk] == k;
                let x = choose|x: int| 0 <= x < entries.len() && entries[x].0 == mk;
                lemma_kv_at(entries, x);
                assert(entries[x].1 == k);
            }
            if old(self).consistent() {
                assert forall|y: Key| #[trigger] self.nodes().contains_key(y) implies !holds(self.nodes()[y].value, client_id) by {
                    if holds(self.nodes()[y].value, client_id) {
                        let x = choose|x: int| 0 <= x < entries.len() && entries[x].1 == y;
                        assert(self.nodes().contains_key(entries[x].1));
                    }
                }
                lemma_agrees_no_excuse(self.clients(), self.nodes(), client_id);
            }
        }
    }

    /// The client starts tracking a request that does not follow from any response.
    pub fn handle_initial(&mut self, client_id: ClientId, request: CandidateRequest, out: &mut Vec<Effect>)
        requires
            old(self).wf(),
            old(self).clients().contains_key(client_id),
        ensures
            final(self).wf(),
            old(out)@.is_prefix_of(final(out)@),
            final(self).clients().dom() == old(self).clients().dom(),
            forall|d: ClientId|
                d != client_id && #[trigger] old(self).clients().contains_key(d) ==> final(self).clients()[d]
                    == old(self).clients()[d],
            // A new request that the client does not track yet under its message key starts
            // with the client as its only waiter, ready (the client is handed its key) or
            // suspended.
            ({
                let mk = key_of(request.payload);
                spec_lookup(old(self).nodes(), (mk, request.variant)) is None && old(self).clients().contains_key(
                    client_id,
                ) && tracked_node(old(self).clients(), client_id, mk) is None && old(self).clients()[client_id].pending
                    < usize::MAX ==> {
                    &&& exists|k: Key|
                        #[trigger] final(self).nodes().contains_key(k) && index_key(final(self).nodes()[k]) == (
                            mk,
                            request.variant,
                        ) && phase(final(self).nodes()[k].value) == (if request.state == InitialRequestState::Ready {
                            Phase::Ready
                        } else {
                            Phase::Suspended
                        }) && waiters_of(final(self).nodes()[k].value) == seq![client_id]
                    &&& final(out)@ == old(out)@ + (if request.state == InitialRequestState::Ready {
                        notices(old(self).clients(), seq![client_id], mk)
                    } else {
                        Seq::empty()
                    })
                }
            }),
            // A request already there, without follow-ups, that the client does not track yet
            // under its message key: the client joins it.
            ({
                let mk = key_of(request.payload);
                let t = spec_lookup(old(self).nodes(), (mk, request.variant));
                let n = old(self).nodes()[t->0];
                t is Some && old(self).clients().contains_key(client_id) && n.children == Set::<Key>::empty()
                    && tracked_node(old(self).clients(), client_id, mk) is None && !(n.value is Committed)
                    && old(self).clients()[client_id].pending < usize::MAX ==> {
                    &&& only_state_changed(
                        old(self).nodes(),
                        final(self).nodes(),
                        t->0,
                        joined(n.value, client_id, request.state).0,
                        joined(n.value, client_id, request.state).1,
                    )
                    &&& final(out)@ == old(out)@ + (if joins_ready(n.value, request.state) {
                        notices(old(self).clients(), seq![client_id], mk)
                    } else {
                        Seq::empty()
                    })
                }
            }),
            old(self).consistent() ==> final(self).consistent(),
    {
        self.insert_request(client_id, request, None, out, Ghost(None));
    }

    /// The peer answered a request of the client with an error, or did not answer in time: the
    /// client stops tracking it, and the request is cancelled for the client (its waiters take
    /// over when the client was sending it).
    pub fn handle_failure(&mut self, client_id: ClientId, request_key: MessageKey, reason: FailureReason, out: &mut Vec<Effect>)
        requires
            old(self).wf(),
            old(self).clients().contains_key(client_id),
        ensures
            final(self).wf(),
            old(out)@.is_prefix_of(final(out)@),
            final(self).clients().dom() == old(self).clients().dom(),
            forall|d: ClientId|
                d != client_id && #[trigger] old(self).clients().contains_key(d) ==> final(self).clients()[d]
                    == old(self).clients()[d],
            !final(self).clients()[client_id].requests.contains_key(request_key),
            ({
                let t = tracked_node(old(self).clients(), client_id, request_key);
                t is Some && old(self).nodes().contains_key(t->0) && !is_final(old(self).nodes()[t->0].value)
                    ==> cancelled_as(old(self).nodes()[t->0], final(self).nodes(), t->0, client_id)
            }),
            ({
                let t = tracked_node(old(self).clients(), client_id, request_key);
                t is None ==> final(self).nodes() == old(self).nodes() && final(out)@ == old(out)@
            }),
            // The client holds the request no more.
            ({
                let t = tracked_node(old(self).clients(), client_id, request_key);
                t is Some && final(self).nodes().contains_key(t->0) ==> !holds(final(self).nodes()[t->0].value, client_id)
            }),
            // What is handed out.
            ({
                let t = tracked_node(old(self).clients(), client_id, request_key);
                t is Some && old(self).nodes().contains_key(t->0) && !is_final(old(self).nodes()[t->0].value)
                    ==> final(out)@ == old(out)@ + cancel_effects(
                    old(self).clients(),
                    old(self).nodes()[t->0],
                    client_id,
                    Some(reason),
                )
            }),
            ({
                let t = tracked_node(old(self).clients(), client_id, request_key);
                t is Some && !(old(self).nodes().contains_key(t->0) && !is_final(old(self).nodes()[t->0].value))
                    ==> final(self).nodes() == old(self).nodes() && final(out)@ == old(out)@
            }),
            old(self).consistent() ==> final(self).consistent(),
    {
        let j = match self.client_index(client_id) {
            Some(j) => j,
            None => return,
        };
        let ghost before = self.clients@;
        proof {
            self.lemma_client_at(j as int);
            assert(before[j as int].1.wf());
        }
        let e = match entry_index(&self.clients[j].1.requests, &request_key) {
            Some(e) => e,
            None => {
                proof {
                    assert(!kv_view(before[j as int].1.requests@).contains_key(request_key));
                }
                return;
            },
        };
        let mut st = self.take_client(j);
        proof {
            lemma_kv_at(st.requests@, e as int);
            lemma_kv_remove(st.requests@, e as int);
        }
        let (_, k) = st.requests.remove(e);
        self.put_client(j, st, Ghost(before));
        proof {
            assert(st.wf());
            assert forall|i: int| 0 <= i < self.clients@.len() implies (#[trigger] self.clients@[i]).1.wf() by {
                if i != j {
                    assert(self.clients@[i] == before[i]);
                }
            }
            assert(self.clients().dom() =~= old(self).clients().dom());
        }
        let ghost mid = self.clients();
        let ghost before = self.nodes();
        proof {
            assert(mid[client_id].pending == old(self).clients()[client_id].pending);
            assert(mid[client_id].choked == old(self).clients()[client_id].choked);
            lemma_notices_same_chokes(old(self).clients(), mid, waiters_of(before[k].value), key_of(before[k].request));
            if old(self).consistent() {
                assert(mid[client_id].requests == old(self).clients()[client_id].requests.remove(request_key));
                lemma_untracked_ready(old(self).clients(), before, client_id, request_key, k, mid);
            }
        }
        self.cancel_request(client_id, k, Some(reason), out, Ghost(Some((client_id, Some(k)))), Ghost(None));
        proof {
            if before.contains_key(k) && !is_final(before[k].value) {
                lemma_cancelled_releases(before[k], self.nodes(), k, client_id);
            }
            assert(tracking_shrunk(mid, self.clients(), client_id));
            if self.clients()[client_id].requests.contains_key(request_key) {
                assert(mid[client_id].requests.contains_key(request_key));
            }
        }
    }

    /// The response to the request the client tracks under the message key was processed. A
    /// request that was received from this client becomes complete; then the client and, if the
    /// request became complete, its waiters track each of the follow-up requests, under it.
    /// Last, the client has one pending request less if the request became complete.
    pub fn handle_success(
        &mut self,
        client_id: ClientId,
        request_key: MessageKey,
        requests: Vec<CandidateRequest>,
        out: &mut Vec<Effect>,
    )
        requires
            old(self).wf(),
            old(self).clients().contains_key(client_id),
        ensures
            final(self).wf(),
            old(out)@.is_prefix_of(final(out)@),
            final(self).clients().dom() == old(self).clients().dom(),
            old(self).consistent() ==> final(self).consistent(),
            // Only the client and, when the request became complete, its waiters take part.
            forall|d: ClientId|
                #[trigger] old(self).clients().contains_key(d) && !success_clients(
                    old(self).clients(),
                    old(self).nodes(),
                    client_id,
                    request_key,
                ).contains(d) ==> final(self).clients()[d] == old(self).clients()[d],
            // Without follow-up requests: a request received from the client becomes complete,
            // and the client has one pending request less; anything else changes nothing.
            requests@.len() == 0 ==> ({
                let t = tracked_node(old(self).clients(), client_id, request_key);
                if t is Some && old(self).nodes().contains_key(t->0) && phase(old(self).nodes()[t->0].value)
                    == Phase::Received(client_id) {
                    let p = old(self).clients()[client_id].pending;
                    &&& only_state_changed(
                        old(self).nodes(),
                        final(self).nodes(),
                        t->0,
                        Phase::Complete(client_id),
                        waiters_of(old(self).nodes()[t->0].value),
                    )
                    &&& p > 0 ==> final(self).clients() == old(self).clients().insert(
                        client_id,
                        with_pending(old(self).clients()[client_id], (p - 1) as nat),
                    )
                    &&& p == 0 ==> final(self).clients() == old(self).clients()
                    &&& final(out)@ == old(out)@ + (if p == 1 {
                        seq![Effect::Notify(client_id, MessageKey::Idle)]
                    } else {
                        Seq::empty()
                    })
                } else {
                    &&& final(self).nodes() == old(self).nodes()
                    &&& final(self).clients() == old(self).clients()
                    &&& final(out)@ == old(out)@
                }
            }),
    {
        let k = self.find_tracked(client_id, &request_key);
        let ghost v0 = self.nodes();
        let (client_ids, completed) = self.complete(client_id, k);
        proof {
            assert(client_ids@ == success_clients(old(self).clients(), v0, client_id, request_key));
            assert(client_ids@[0] == client_id);
        }
        // Until the end, the client owes the decrement of its pending count.
        let ghost owed = if completed {
            Some(client_id)
        } else {
            None
        };
        proof {
            if old(self).consistent() && completed {
                lemma_agrees_completed(self.clients(), v0, self.nodes(), k->0, client_id);
            }
        }
        let mut r: usize = 0;
        if requests.len() > 0 {
            while r < requests.len()
                invariant
                    self.wf(),
                    old(out)@.is_prefix_of(out@),
                    self.clients().dom() == old(self).clients().dom(),
                    old(self).consistent() ==> agrees(self.clients(), self.nodes(), None, owed),
                    forall|d: ClientId|
                        #[trigger] old(self).clients().contains_key(d) && !client_ids@.contains(d) ==> self.clients()[d]
                            == old(self).clients()[d],
                decreases requests@.len() - r,
            {
                let mut i: usize = 0;
                while i < client_ids.len()
                    invariant
                        r < requests@.len(),
                        self.wf(),
                        old(out)@.is_prefix_of(out@),
                        self.clients().dom() == old(self).clients().dom(),
                        old(self).consistent() ==> agrees(self.clients(), self.nodes(), None, owed),
                        forall|d: ClientId|
                            #[trigger] old(self).clients().contains_key(d) && !client_ids@.contains(d) ==> self.clients()[d]
                                == old(self).clients()[d],
                    decreases client_ids@.len() - i,
                {
                    proof {
                        assert(client_ids@.contains(client_ids@[i as int]));
                    }
                    self.insert_request(client_ids[i], requests[r], k, out, Ghost(owed));
                    i = i + 1;
                }
                r = r + 1;
            }
        }
        if completed {
            match self.client_index(client_id) {
                Some(j) => {
                    proof {
                        self.lemma_client_at(j as int);
                    }
                    let ghost cl = self.clients();
                    self.decrement_pending(j, out);
                    proof {
                        assert(self.clients().dom() =~= old(self).clients().dom());
                        if old(self).consistent() {
                            lemma_agrees_paid(cl, self.clients(), self.nodes(), client_id);
                        }
                    }
                },
                None => {},
            }
        }
    }

    /// Marks request `k` complete if it was received from the client. Returns the clients that
    /// track the follow-up requests (the client, then the request's waiters if it became
    /// complete) and whether it became complete.
    fn complete(&mut self, client_id: ClientId, k: Option<Key>) -> (r: (Vec<ClientId>, bool))
        requires
            old(self).wf(),
            k matches Some(x) ==> old(self).nodes().contains_key(x),
        ensures
            final(self).wf(),
            final(self).clients() == old(self).clients(),
            ({
                if k is Some && phase(old(self).nodes()[k->0].value) == Phase::Received(client_id) {
                    let w = waiters_of(old(self).nodes()[k->0].value);
                    &&& r.1
                    &&& r.0@ == seq![client_id] + w
                    &&& only_state_changed(old(self).nodes(), final(self).nodes(), k->0, Phase::Complete(client_id), w)
                } else {
                    &&& !r.1
                    &&& r.0@ == seq![client_id]
                    &&& final(self).nodes() == old(self).nodes()
                }
            }),
    {
        let mut ids: Vec<ClientId> = Vec::new();
        ids.push(client_id);
        proof {
            assert(ids@ =~= seq![client_id]);
        }
        let key = match k {
            Some(key) => key,
            None => return (ids, false),
        };
        let received = match self.requests.get(key) {
            Some(node) => match node.value() {
                RequestState::Received { sender, .. } => sender.0 == client_id.0,
                _ => false,
            },
            None => false,
        };
        if !received {
            return (ids, false);
        }
        let state = self.take_state(key);
        match state {
            RequestState::Received { sender, waiters } => {
                let mut i: usize = 0;
                while i < waiters.len()
                    invariant
                        i <= waiters@.len(),
                        ids@ == seq![client_id] + waiters@.take(i as int),
                    decreases waiters@.len() - i,
                {
                    ids.push(waiters[i]);
                    proof {
                        assert(waiters@.take(i + 1) =~= waiters@.take(i as int).push(waiters@[i as int]));
                        assert(seq![client_id] + waiters@.take(i + 1) =~= (seq![client_id] + waiters@.take(i as int)).push(waiters@[i as int]));
                    }
                    i = i + 1;
                }
                proof {
                    assert(waiters@.take(waiters@.len() as int) =~= waiters@);
                }
                self.put_state(key, RequestState::Complete { sender, waiters });
                proof {
                    lemma_with_state(old(self).nodes(), key, RequestState::Complete { sender, waiters });
                }
                (ids, true)
            },
            _ => {
                proof {
                    assert(false);
                }
                (ids, false)
            },
        }
    }

    /// Commits the requests that the client completed (as their sender): each is marked
    /// committed, so that it is never retried; its waiters have one pending request less, no
    /// client tracks it any more, and it is removed once it has no children. A client that is
    /// gone already commits nothing.
    #[verifier::spinoff_prover]
    #[verifier::rlimit(40)]
    pub fn commit(&mut self, client_id: ClientId, out: &mut Vec<Effect>)
        requires
            old(self).wf(),
        ensures
            final(self).wf(),
            old(out)@.is_prefix_of(final(out)@),
            final(self).clients().dom() == old(self).clients().dom(),
            forall|k: Key|
                #[trigger] old(self).nodes().contains_key(k) && phase(old(self).nodes()[k].value) == Phase::Complete(client_id)
                    && old(self).clients().contains_key(client_id) && old(self).clients()[client_id].requests.values().contains(k)
                    ==> !final(self).nodes().contains_key(k) || phase(final(self).nodes()[k].value) == Phase::Committed,
            old(self).consistent() ==> final(self).consistent(),
            // What is handed out: the idle notices of the waiters, going through the completed
            // requests in some order.
            !old(self).clients().contains_key(client_id) ==> final(out)@ == old(out)@,
            old(self).clients().contains_key(client_id) ==> exists|ks: Seq<Key>|
                (forall|k: Key|
                    #[trigger] ks.contains(k) <==> old(self).clients()[client_id].requests.values().contains(k)
                        && old(self).nodes().contains_key(k) && phase(old(self).nodes()[k].value) == Phase::Complete(client_id))
                    && final(out)@ == old(out)@ + #[trigger] commit_run(
                    pendings(old(self).clients()),
                    old(self).nodes(),
                    client_id,
                    ks,
                ).0,
    {
        let j = match self.client_index(client_id) {
            Some(j) => j,
            None => return,
        };
        proof {
            self.lemma_client_at(j as int);
            assert(self.clients@[j as int].1.wf());
        }
        let ghost entries = self.clients@[j as int].1.requests@;
        // The requests this client completed.
        let mut done: Vec<(MessageKey, Key)> = Vec::new();
        let mut i: usize = 0;
        while i < self.clients[j].1.requests.len()
            invariant
                j < self.clients@.len(),
                entries == self.clients@[j as int].1.requests@,
                self.wf(),
                i <= entries.len(),
                forall|m: int|
                    0 <= m < done@.len() ==> #[trigger] self.nodes().contains_key(done@[m].1) && phase(
                        self.nodes()[done@[m].1].value,
                    ) == Phase::Complete(client_id),
                forall|e: int|
                    0 <= e < i && self.nodes().contains_key(#[trigger] entries[e].1) && phase(self.nodes()[entries[e].1].value)
                        == Phase::Complete(client_id) ==> exists|m: int| 0 <= m < done@.len() && done@[m] == entries[e],
                forall|m: int| 0 <= m < done@.len() ==> exists|e: int| 0 <= e < i && #[trigger] done@[m] == entries[e],
            decreases entries.len() - i,
        {
            let (request_key, k) = self.clients[j].1.requests[i];
            let completed = self.is_completed_by(k, client_id);
            let ghost done_before = done@;
            if completed {
                done.push((request_key, k));
                proof {
                    assert(done@[done@.len() - 1] == entries[i as int]);
                }
            }
            proof {
                assert forall|m: int| 0 <= m < done@.len() implies exists|e: int| 0 <= e < i + 1 && #[trigger] done@[m] == entries[e] by {
                    if m < done_before.len() {
                        assert(done@[m] == done_before[m]);
                        let e = choose|e: int| 0 <= e < i && done_before[m] == entries[e];
                        assert(done@[m] == entries[e]);
                    } else {
                        assert(done@[m] == entries[i as int]);
                    }
                }
                assert forall|m: int| 0 <= m < done@.len() implies #[trigger] self.nodes().contains_key(done@[m].1) && phase(
                    self.nodes()[done@[m].1].value,
                ) == Phase::Complete(client_id) by {
                    if m < done_before.len() {
                        assert(done@[m] == done_before[m]);
                    }
                }
                assert forall|e: int|
                    0 <= e < i + 1 && self.nodes().contains_key(#[trigger] entries[e].1) && phase(self.nodes()[entries[e].1].value)
                        == Phase::Complete(client_id) implies exists|m: int| 0 <= m < done@.len() && done@[m] == entries[e] by {
                    if e < i {
                        let m = choose|m: int| 0 <= m < done_before.len() && done_before[m] == entries[e];
                        assert(done@[m] == entries[e]);
                    } else {
                        assert(entries[e] == (request_key, k));
                        assert(completed);
                        assert(done@[done@.len() - 1] == entries[e]);
                    }
                }
            }
            i = i + 1;
        }
        let ghost start = self.nodes();
        let ghost dk = done@.map_values(|e: (MessageKey, Key)| e.1);
        let ghost p0 = pendings(self.clients());
        let ghost out_start = out@;
        proof {
            assert(dk.take(0) =~= Seq::<Key>::empty());
        }
        let mut d: usize = 0;
        while d < done.len()
            invariant
                self.wf(),
                old(out)@.is_prefix_of(out@),
                self.clients().dom() == old(self).clients().dom(),
                start == old(self).nodes(),
                forall|m: int|
                    0 <= m < done@.len() ==> #[trigger] start.contains_key(done@[m].1) && phase(start[done@[m].1].value)
                        == Phase::Complete(client_id),
                // the requests not yet committed keep their state
                forall|x: Key|
                    #[trigger] start.contains_key(x) && !is_final(start[x].value) && (forall|m: int| 0 <= m < d ==> done@[m].1 != x)
                        ==> self.nodes().contains_key(x) && self.nodes()[x].value == start[x].value,
                // the ones committed so far stay committed or are gone
                forall|m: int|
                    0 <= m < d ==> !self.nodes().contains_key(#[trigger] done@[m].1) || phase(self.nodes()[done@[m].1].value)
                        == Phase::Committed,
                forall|x: Key| #[trigger] self.nodes().contains_key(x) ==> start.contains_key(x),
                old(self).consistent() ==> self.consistent(),
                dk == done@.map_values(|e: (MessageKey, Key)| e.1),
                p0 == pendings(old(self).clients()),
                out_start == old(out)@,
                d <= done@.len(),
                dk.len() == done@.len(),
                out@ == out_start + commit_run(p0, start, client_id, dk.take(d as int)).0,
                pendings(self.clients()) == commit_run(p0, start, client_id, dk.take(d as int)).1,
            decreases done@.len() - d,
        {
            let (request_key, k) = done[d];
            let ghost before_step = self.nodes();
            let ghost out_step = out@;
            proof {
                let t = dk.take(d + 1);
                assert(t.drop_last() =~= dk.take(d as int));
                assert(t.last() == k);
                assert((exists|y: int| 0 <= y < t.len() - 1 && t[y] == k) == (exists|m: int| 0 <= m < d && done@[m].1 == k)) by {
                    if exists|y: int| 0 <= y < t.len() - 1 && t[y] == k {
                        let y = choose|y: int| 0 <= y < t.len() - 1 && t[y] == k;
                        assert(done@[y].1 == k);
                    }
                    if exists|m: int| 0 <= m < d && done@[m].1 == k {
                        let m = choose|m: int| 0 <= m < d && done@[m].1 == k;
                        assert(t[m] == k);
                    }
                }
                assert(start.contains_key(done@[d as int].1) && phase(start[done@[d as int].1].value) == Phase::Complete(client_id));
                if !(exists|m: int| 0 <= m < d && done@[m].1 == k) {
                    assert(!is_final(start[k].value));
                    assert(before_step.contains_key(k) && before_step[k].value == start[k].value);
                } else {
                    let m = choose|m: int| 0 <= m < d && done@[m].1 == k;
                    assert(!before_step.contains_key(done@[m].1) || phase(before_step[done@[m].1].value) == Phase::Committed);
                }
            }
            self.commit_one(k, client_id, out);
            proof {
                assert forall|x: Key|
                    #[trigger] start.contains_key(x) && !is_final(start[x].value) && (forall|m: int| 0 <= m < d + 1 ==> done@[m].1 != x)
                        implies self.nodes().contains_key(x) && self.nodes()[x].value == start[x].value by {
                    assert(forall|m: int| 0 <= m < d ==> done@[m].1 != x);
                    assert(done@[d as int].1 != x);
                }
                assert forall|m: int| 0 <= m < d + 1 implies !self.nodes().contains_key(#[trigger] done@[m].1) || phase(
                    self.nodes()[done@[m].1].value,
                ) == Phase::Committed by {
                    let x = done@[m].1;
                    if x == k {
                        if !(before_step.contains_key(k) && phase(before_step[k].value) == Phase::Complete(client_id)) {
                            assert(self.nodes() == before_step);
                            if m == d {
                                if exists|m2: int| 0 <= m2 < d && done@[m2].1 == k {
                                    let m2 = choose|m2: int| 0 <= m2 < d && done@[m2].1 == k;
                                    assert(!before_step.contains_key(done@[m2].1) || phase(before_step[done@[m2].1].value)
                                        == Phase::Committed);
                                } else {
                                    assert(start.contains_key(done@[m].1) && phase(start[done@[m].1].value) == Phase::Complete(client_id));
                                    assert(start.contains_key(k) && phase(start[k].value) == Phase::Complete(client_id));
                                    assert(!is_final(start[k].value));
                                    assert(before_step.contains_key(k) && before_step[k].value == start[k].value);
                                }
                            }
                        }
                    } else {
                        if self.nodes().contains_key(x) {
                            assert(before_step.contains_key(x));
                        }
                    }
                }
            }
            d = d + 1;
        }
        proof {
            assert(dk.take(dk.len() as int) =~= dk);
            assert(out@ == old(out)@ + commit_run(pendings(old(self).clients()), old(self).nodes(), client_id, dk).0);
            assert forall|k: Key| #[trigger] dk.contains(k) <==> old(self).clients()[client_id].requests.values().contains(k)
                && old(self).nodes().contains_key(k) && phase(old(self).nodes()[k].value) == Phase::Complete(client_id) by {
                let reqs = old(self).clients()[client_id].requests;
                if dk.contains(k) {
                    let m = choose|m: int| 0 <= m < dk.len() && dk[m] == k;
                    assert(done@[m].1 == k);
                    let e = choose|e: int| 0 <= e < entries.len() && done@[m] == entries[e];
                    lemma_kv_at(entries, e);
                    assert(reqs.contains_key(entries[e].0) && reqs[entries[e].0] == k);
                }
                if reqs.values().contains(k) && old(self).nodes().contains_key(k) && phase(old(self).nodes()[k].value)
                    == Phase::Complete(client_id) {
                    let mk = choose|mk: MessageKey| reqs.contains_key(mk) && reqs[mk] == k;
                    assert(kv_view(entries).contains_key(mk));
                    let e = choose|e: int| 0 <= e < entries.len() && entries[e].0 == mk;
                    lemma_kv_at(entries, e);
                    assert(entries[e].1 == k);
                    let m = choose|m: int| 0 <= m < done@.len() && done@[m] == entries[e];
                    assert(dk[m] == k);
                }
            }
        }
        proof {
            assert forall|k: Key|
                #[trigger] old(self).nodes().contains_key(k) && phase(old(self).nodes()[k].value) == Phase::Complete(client_id)
                    && old(self).clients().contains_key(client_id) && old(self).clients()[client_id].requests.values().contains(k)
                    implies !self.nodes().contains_key(k) || phase(self.nodes()[k].value) == Phase::Committed by {
                let mk = choose|mk: MessageKey| old(self).clients()[client_id].requests.contains_key(mk) && old(self).clients()[client_id].requests[mk] == k;
                assert(kv_view(entries).contains_key(mk));
                let e = choose|e: int| 0 <= e < entries.len() && entries[e].0 == mk;
                lemma_kv_at(entries, e);
                assert(entries[e].1 == k);
                let m = choose|m: int| 0 <= m < done@.len() && done@[m] == entries[e];
                assert(done@[m].1 == k);
            }
        }
    }

    /// Commits request `k` that `client_id` completed, if it is still complete.
    fn commit_one(&mut self, k: Key, client_id: ClientId, out: &mut Vec<Effect>)
        requires
            old(self).wf(),
        ensures
            final(self).wf(),
            old(out)@.is_prefix_of(final(out)@),
            final(self).clients().dom() == old(self).clients().dom(),
            others_kept(old(self).nodes(), final(self).nodes(), Some(k)),
            old(self).nodes().contains_key(k) && phase(old(self).nodes()[k].value) == Phase::Complete(client_id)
                ==> !final(self).nodes().contains_key(k) || phase(final(self).nodes()[k].value) == Phase::Committed,
            !(old(self).nodes().contains_key(k) && phase(old(self).nodes()[k].value) == Phase::Complete(client_id))
                ==> final(self).nodes() == old(self).nodes(),
            old(self).consistent() ==> final(self).consistent(),
            // The waiters have one pending request less.
            old(self).nodes().contains_key(k) && phase(old(self).nodes()[k].value) == Phase::Complete(client_id) ==> {
                let ws = waiters_of(old(self).nodes()[k].value);
                &&& final(out)@ == old(out)@ + idle_notices(pendings(old(self).clients()), ws)
                &&& pendings(final(self).clients()) == released(pendings(old(self).clients()), ws)
            },
            !(old(self).nodes().contains_key(k) && phase(old(self).nodes()[k].value) == Phase::Complete(client_id))
                ==> final(self).clients() == old(self).clients() && final(out)@ == old(out)@,
    {
        if !self.is_completed_by(k, client_id) {
            return;
        }
        let request_key = match self.requests.get(k) {
            Some(node) => MessageKey::from_request(node.request()),
            None => {
                proof {
                    assert(false);
                }
                return;
            },
        };
        let ghost v0 = self.nodes();
        let ghost cl0 = self.clients();
        let ghost cons = old(self).consistent();
        let state = self.take_state(k);
        let (sender, waiters) = match state {
            RequestState::Complete { sender, waiters } => (sender, waiters),
            _ => {
                proof {
                    assert(false);
                }
                return;
            },
        };
        let ghost w = waiters@;
        let ghost out0 = out@;
        proof {
            assert(state_ok(v0[k].value));
            assert(w == waiters_of(v0[k].value));
            assert(w.take(0) =~= Seq::<ClientId>::empty());
            assert(pendings(self.clients()) =~= released(pendings(cl0), w.take(0)));
        }
        // The waiters have one pending request less.
        let mut i: usize = 0;
        while i < waiters.len()
            invariant
                self.wf(),
                old(out)@.is_prefix_of(out@),
                self.clients().dom() == old(self).clients().dom(),
                self.nodes() == with_state(old(self).nodes(), k, RequestState::Cancelled),
                w == waiters@,
                cl0 == old(self).clients(),
                v0 == old(self).nodes(),
                i <= w.len(),
                v0.contains_key(k),
                waiters_of(v0[k].value) == w,
                phase(v0[k].value) == Phase::Complete(client_id),
                state_ok(v0[k].value),
                cons == old(self).consistent(),
                cons ==> forall|d: ClientId|
                    #[trigger] cl0.contains_key(d) ==> self.clients()[d].requests == cl0[d].requests && self.clients()[d].choked
                        == cl0[d].choked && self.clients()[d].pending + (if w.take(i as int).contains(d) {
                        1int
                    } else {
                        0int
                    }) == cl0[d].pending,
                pendings(self.clients()) == released(pendings(cl0), w.take(i as int)),
                out@ == out0 + idle_notices(pendings(cl0), w.take(i as int)),
                w.no_duplicates(),
            decreases waiters@.len() - i,
        {
            let ghost before = self.clients();
            let ghost d = w[i as int];
            let ghost out_before = out@;
            proof {
                assert(w.take(i + 1) =~= w.take(i as int).push(d));
                assert(w.take(i + 1).drop_last() =~= w.take(i as int));
                if w.take(i as int).contains(d) {
                    let m = choose|m: int| 0 <= m < i && w.take(i as int)[m] == d;
                    assert(w[m] == w[i as int]);
                }
            }
            match self.client_index(waiters[i]) {
                Some(j) => {
                    proof {
                        self.lemma_client_at(j as int);
                        if cons {
                            assert(pend(v0[k].value, d));
                            lemma_pending_finite(v0, d);
                            assert(pending_set(v0, d).contains(k));
                            vstd::set::axiom_set_contains_len(pending_set(v0, d), k);
                        }
                    }
                    self.decrement_pending(j, out);
                    proof {
                        assert(self.clients().dom() =~= old(self).clients().dom());
                    }
                },
                None => {},
            }
            proof {
                if w.take(i as int).contains(d) {
                    let m = choose|m: int| 0 <= m < i && w.take(i as int)[m] == d;
                    assert(w[m] == w[i as int]);
                }
                assert(!w.take(i as int).contains(d));
                if cl0.contains_key(d) {
                    assert(pendings(before)[d] == released(pendings(cl0), w.take(i as int))[d]);
                }
                assert forall|x: ClientId| #[trigger] pendings(self.clients()).contains_key(x) == released(pendings(cl0), w.take(i + 1)).contains_key(x) by {}
                assert forall|x: ClientId| #[trigger] pendings(self.clients()).contains_key(x) implies pendings(self.clients())[x]
                    == released(pendings(cl0), w.take(i + 1))[x] by {
                    lemma_push_contains(w.take(i as int), d, x);
                    assert(pendings(before)[x] == released(pendings(cl0), w.take(i as int))[x]);
                }
                assert(pendings(self.clients()) =~= released(pendings(cl0), w.take(i + 1)));
                assert(out@ =~= out0 + idle_notices(pendings(cl0), w.take(i + 1)));
                if cons {
                    assert forall|x: ClientId| #[trigger] cl0.contains_key(x) implies self.clients()[x].requests == cl0[x].requests
                        && self.clients()[x].choked == cl0[x].choked && self.clients()[x].pending + (if w.take(i + 1).contains(x) {
                        1int
                    } else {
                        0int
                    }) == cl0[x].pending by {
                        lemma_push_contains(w.take(i as int), d, x);
                    }
                }
            }
            i = i + 1;
        }
        proof {
            assert(w.take(w.len() as int) =~= w);
        }
        // No client tracks it any more.
        let mut holders = copy_ids(&waiters);
        holders.insert(0, sender);
        let ghost hs = holders@;
        proof {
            assert(hs =~= seq![client_id] + w);
            assert forall|x: ClientId| hs.contains(x) == holds(v0[k].value, x) by {
                if hs.contains(x) {
                    let m = choose|m: int| 0 <= m < hs.len() && hs[m] == x;
                    if m > 0 {
                        assert(w[m - 1] == x);
                    }
                }
                if w.contains(x) {
                    let m = choose|m: int| 0 <= m < w.len() && w[m] == x;
                    assert(hs[m + 1] == x);
                }
                assert(hs[0] == client_id);
            }
            assert(hs.no_duplicates()) by {
                assert forall|a: int, b: int| 0 <= a < b < hs.len() implies hs[a] != hs[b] by {
                    if a > 0 {
                        assert(hs[a] == w[a - 1] && hs[b] == w[b - 1]);
                    } else {
                        assert(w.contains(hs[b]));
                    }
                }
            }
        }
        let mut h: usize = 0;
        while h < holders.len()
            invariant
                self.wf(),
                self.clients().dom() == old(self).clients().dom(),
                self.nodes() == with_state(old(self).nodes(), k, RequestState::Cancelled),
                hs == holders@,
                hs.no_duplicates(),
                h <= hs.len(),
                cl0 == old(self).clients(),
                v0 == old(self).nodes(),
                v0.contains_key(k),
                key_of(v0[k].request) == request_key,
                forall|x: ClientId| hs.contains(x) == holds(v0[k].value, x),
                pendings(self.clients()) == released(pendings(cl0), w),
                out@ == out0 + idle_notices(pendings(cl0), w),
                cons == old(self).consistent(),
                cons ==> agrees(cl0, v0, None, None),
                cons ==> forall|d: ClientId|
                    #[trigger] cl0.contains_key(d) ==> self.clients()[d].choked == cl0[d].choked && self.clients()[d].pending + (
                    if w.contains(d) {
                        1int
                    } else {
                        0int
                    }) == cl0[d].pending && self.clients()[d].requests == (if hs.take(h as int).contains(d) {
                        cl0[d].requests.remove(request_key)
                    } else {
                        cl0[d].requests
                    }),
            decreases holders@.len() - h,
        {
            let ghost d = hs[h as int];
            proof {
                assert(hs.take(h + 1) =~= hs.take(h as int).push(d));
                if hs.take(h as int).contains(d) {
                    let m = choose|m: int| 0 <= m < h && hs.take(h as int)[m] == d;
                    assert(hs[m] == hs[h as int]);
                }
                assert(hs.contains(d));
            }
            match self.client_index(holders[h]) {
                Some(j) => {
                    proof {
                        self.lemma_client_at(j as int);
                        if cons {
                            assert(holds(v0[k].value, d));
                            assert(tracks(cl0, d, request_key, k));
                        }
                    }
                    let ghost before_untrack = self.clients();
                    self.untrack(j, &request_key, k);
                    proof {
                        assert(self.clients().dom() =~= old(self).clients().dom());
                        assert(pendings(self.clients()) =~= pendings(before_untrack));
                    }
                },
                None => {},
            }
            proof {
                if cons {
                    assert forall|x: ClientId| #[trigger] cl0.contains_key(x) implies self.clients()[x].choked == cl0[x].choked
                        && self.clients()[x].pending + (if w.contains(x) {
                        1int
                    } else {
                        0int
                    }) == cl0[x].pending && self.clients()[x].requests == (if hs.take(h + 1).contains(x) {
                        cl0[x].requests.remove(request_key)
                    } else {
                        cl0[x].requests
                    }) by {
                        lemma_push_contains(hs.take(h as int), d, x);
                    }
                }
            }
            h = h + 1;
        }
        proof {
            assert(hs.take(hs.len() as int) =~= hs);
        }
        self.put_state(k, RequestState::Committed);
        let ghost mid = self.nodes();
        let ghost cl2 = self.clients();
        proof {
            lemma_with_state(old(self).nodes(), k, RequestState::Committed);
            lemma_others_kept_state(old(self).nodes(), k, RequestState::Committed);
            if cons {
                assert forall|d: ClientId| pend(v0[k].value, d) == w.contains(d) by {}
                lemma_agrees_committed(cl0, v0, cl2, mid, k);
            }
        }
        self.remove_request(k);
        proof {
            lemma_others_kept_chain(old(self).nodes(), mid, self.nodes(), Some(k), None);
            if cons {
                lemma_agrees_after_removal(cl2, mid, self.nodes(), None, None);
            }
        }
    }

    /// Whether request `k` is in the graph and complete, with `client_id` its sender.
    fn is_completed_by(&self, k: Key, client_id: ClientId) -> (r: bool)
        requires
            self.wf(),
        ensures
            r == (self.nodes().contains_key(k) && phase(self.nodes()[k].value) == Phase::Complete(client_id)),
    {
        match self.requests.get(k) {
            Some(node) => match node.value() {
                RequestState::Complete { sender, .. } => {
                    proof {
                        assert(sender.0 == client_id.0 ==> *sender == client_id);
                    }
                    sender.0 == client_id.0
                },
                _ => false,
            },
            None => false,
        }
    }

    /// Chokes or unchokes the client. Once unchoked, it is handed the keys of the ready requests
    /// it tracks. Once choked, each request it is sending goes back to ready, with the client
    /// among its waiters, and the unchoked waiters are handed its key. Nothing happens when the
    /// client is choked (or unchoked) already.
    pub fn set_choked(&mut self, client_id: ClientId, choked: bool, out: &mut Vec<Effect>)
        requires
            old(self).wf(),
            old(self).clients().contains_key(client_id),
        ensures
            final(self).wf(),
            old(out)@.is_prefix_of(final(out)@),
            final(self).clients() == old(self).clients().insert(
                client_id,
                ClientView {
                    requests: old(self).clients()[client_id].requests,
                    pending: old(self).clients()[client_id].pending,
                    choked,
                },
            ),
            old(self).clients()[client_id].choked == choked || !choked ==> final(self).nodes() == old(self).nodes(),
            final(self).nodes().dom() == old(self).nodes().dom(),
            forall|k: Key|
                #[trigger] old(self).nodes().contains_key(k) && choked ==> if old(self).clients()[client_id].requests.values().contains(k)
                    && phase(old(self).nodes()[k].value) == Phase::InFlight(client_id) && !old(self).clients()[client_id].choked {
                    choked_back(old(self).nodes(), final(self).nodes(), k, client_id)
                } else {
                    final(self).nodes()[k] == old(self).nodes()[k]
                },
            old(self).consistent() ==> final(self).consistent(),
            // What is handed out, going through the client's requests in some order.
            old(self).clients()[client_id].choked == choked ==> final(out)@ == old(out)@,
            old(self).clients()[client_id].choked != choked ==> exists|order: Seq<(MessageKey, Key)>|
                distinct_keys(order) && kv_view(order) == old(self).clients()[client_id].requests && final(out)@
                    == old(out)@ + #[trigger] choke_effects(final(self).clients(), old(self).nodes(), client_id, choked, order),
    {
        let j = match self.client_index(client_id) {
            Some(j) => j,
            None => return,
        };
        proof {
            self.lemma_client_at(j as int);
            assert(self.clients@[j as int].1.wf());
        }
        if self.clients[j].1.choked == choked {
            proof {
                assert(self.clients() =~= old(self).clients().insert(
                    client_id,
                    ClientView {
                        requests: old(self).clients()[client_id].requests,
                        pending: old(self).clients()[client_id].pending,
                        choked,
                    },
                ));
            }
            return;
        }
        let ghost before = self.clients@;
        let mut st = self.take_client(j);
        st.choked = choked;
        let mut entries: Vec<(MessageKey, Key)> = Vec::new();
        let mut e: usize = 0;
        while e < st.requests.len()
            invariant
                e <= st.requests@.len(),
                entries@ == st.requests@.take(e as int),
            decreases st.requests@.len() - e,
        {
            entries.push(st.requests[e]);
            proof {
                assert(st.requests@.take(e + 1) =~= st.requests@.take(e as int).push(st.requests@[e as int]));
            }
            e = e + 1;
        }
        proof {
            assert(st.requests@.take(st.requests@.len() as int) =~= st.requests@);
            assert(st.wf());
        }
        self.put_client(j, st, Ghost(before));
        proof {
            assert forall|i: int| 0 <= i < self.clients@.len() implies (#[trigger] self.clients@[i]).1.wf() by {
                if i != j {
                    assert(self.clients@[i] == before[i]);
                }
            }
        }
        let ghost start = self.nodes();
        let ghost cl = self.clients();
        let ghost out0 = out@;
        proof {
            assert(entries@.take(0) =~= Seq::<(MessageKey, Key)>::empty());
        }
        proof {
            assert(start == old(self).nodes());
            if old(self).consistent() {
                assert(cl == old(self).clients().insert(
                    client_id,
                    ClientView {
                        requests: old(self).clients()[client_id].requests,
                        pending: old(self).clients()[client_id].pending,
                        choked,
                    },
                ));
                assert(cl.dom() =~= old(self).clients().dom());
                lemma_agrees_same_tracking(old(self).clients(), cl, start, None, None);
            }
        }
        let mut e: usize = 0;
        while e < entries.len()
            invariant
                self.wf(),
                old(out)@.is_prefix_of(out@),
                self.clients() == cl,
                cl.contains_key(client_id),
                cl[client_id].choked == choked,
                start == old(self).nodes(),
                self.nodes().dom() == start.dom(),
                e <= entries@.len(),
                !choked ==> self.nodes() == start,
                old(self).consistent() ==> agrees(cl, self.nodes(), None, None),
                out@ == out0 + choke_effects(cl, start, client_id, choked, entries@.take(e as int)),
                forall|k: Key|
                    #[trigger] start.contains_key(k) && choked ==> if (exists|x: int| 0 <= x < e && entries@[x].1 == k) && phase(
                        start[k].value,
                    ) == Phase::InFlight(client_id) {
                        choked_back(start, self.nodes(), k, client_id)
                    } else {
                        self.nodes()[k] == start[k]
                    },
            decreases entries@.len() - e,
        {
            let (request_key, k) = entries[e];
            let ghost before_step = self.nodes();
            let ghost out_before = out@;
            proof {
                let t = entries@.take(e + 1);
                assert(t.drop_last() =~= entries@.take(e as int));
                assert(t.last() == entries@[e as int]);
                assert((exists|y: int| 0 <= y < t.len() - 1 && t[y].1 == k) == (exists|y: int| 0 <= y < e && entries@[y].1 == k)) by {
                    if exists|y: int| 0 <= y < t.len() - 1 && t[y].1 == k {
                        let y = choose|y: int| 0 <= y < t.len() - 1 && t[y].1 == k;
                        assert(entries@[y].1 == k);
                    }
                    if exists|y: int| 0 <= y < e && entries@[y].1 == k {
                        let y = choose|y: int| 0 <= y < e && entries@[y].1 == k;
                        assert(t[y].1 == k);
                    }
                }
                if choked && start.contains_key(k) && !(exists|y: int| 0 <= y < e && entries@[y].1 == k) {
                    assert(before_step[k] == start[k]);
                }
                if choked && start.contains_key(k) && (exists|y: int| 0 <= y < e && entries@[y].1 == k) && phase(start[k].value) == Phase::InFlight(client_id) {
                    assert(choked_back(start, before_step, k, client_id));
                }
            }
            if !choked {
                if self.is_ready(k) {
                    out.push(Effect::Notify(client_id, request_key));
                }
            } else if self.is_in_flight_by(k, client_id) {
                out.push(Effect::Cancelled(client_id, request_key, None));
                let state = self.take_state(k);
                match state {
                    RequestState::InFlight { sender, waiters } => {
                        let waiters = add_id(waiters, client_id);
                        proof {
                            assert(self.clients() == cl);
                        }
                        self.notify(&waiters, request_key, out);
                        self.put_state(k, RequestState::Ready { waiters });
                        proof {
                            lemma_with_state(before_step, k, RequestState::Ready { waiters });
                            if old(self).consistent() {
                                assert forall|x: ClientId| holds(self.nodes()[k].value, x) == holds(before_step[k].value, x) by {
                                    lemma_with_id_contains(waiters_of(before_step[k].value), client_id, x);
                                }
                                lemma_agrees_same_holders(cl, before_step, self.nodes(), k, None, None);
                            }
                        }
                    },
                    _ => {
                        proof {
                            assert(false);
                        }
                    },
                }
            }
            proof {
                if choked {
                    assert forall|x: Key|
                        #[trigger] start.contains_key(x) implies (if (exists|y: int| 0 <= y < e + 1 && entries@[y].1 == x) && phase(
                            start[x].value,
                        ) == Phase::InFlight(client_id) {
                            choked_back(start, self.nodes(), x, client_id)
                        } else {
                            self.nodes()[x] == start[x]
                        }) by {
                        if x == k {
                            if phase(start[x].value) == Phase::InFlight(client_id) {
                                assert(entries@[e as int].1 == x);
                                if exists|y: int| 0 <= y < e && entries@[y].1 == x {
                                    assert(choked_back(start, before_step, x, client_id));
                                }
                            }
                        } else {
                            if exists|y: int| 0 <= y < e + 1 && entries@[y].1 == x {
                                let y = choose|y: int| 0 <= y < e + 1 && entries@[y].1 == x;
                                assert(y < e);
                            }
                        }
                    }
                }
            }
            e = e + 1;
        }
        proof {
            let reqs = old(self).clients()[client_id].requests;
            assert(reqs == kv_view(entries@));
            assert forall|k: Key| #[trigger] start.contains_key(k) && choked implies (if reqs.values().contains(k) && phase(
                start[k].value,
            ) == Phase::InFlight(client_id) && !old(self).clients()[client_id].choked {
                choked_back(start, self.nodes(), k, client_id)
            } else {
                self.nodes()[k] == start[k]
            }) by {
                if reqs.values().contains(k) {
                    let mk = choose|mk: MessageKey| reqs.contains_key(mk) && reqs[mk] == k;
                    let x = choose|x: int| 0 <= x < entries@.len() && entries@[x].0 == mk;
                    lemma_kv_at(entries@, x);
                    assert(entries@[x].1 == k);
                } else {
                    if exists|x: int| 0 <= x < entries@.len() && entries@[x].1 == k {
                        let x = choose|x: int| 0 <= x < entries@.len() && entries@[x].1 == k;
                        lemma_kv_at(entries@, x);
                        assert(reqs.contains_key(entries@[x].0));
                        assert(reqs.values().contains(k));
                    }
                }
            }
            assert(self.clients() =~= old(self).clients().insert(
                client_id,
                ClientView {
                    requests: old(self).clients()[client_id].requests,
                    pending: old(self).clients()[client_id].pending,
                    choked,
                },
            ));
        }
    }

    /// Whether request `k` is in the graph and ready.
    fn is_ready(&self, k: Key) -> (r: bool)
        requires
            self.wf(),
        ensures
            r == (self.nodes().contains_key(k) && phase(self.nodes()[k].value) == Phase::Ready),
    {
        match self.requests.get(k) {
            Some(node) => match node.value() {
                RequestState::Ready { .. } => true,
                _ => false,
            },
            None => false,
        }
    }

    /// Whether request `k` is in the graph and in flight, with `client_id` its sender.
    fn is_in_flight_by(&self, k: Key, client_id: ClientId) -> (r: bool)
        requires
            self.wf(),
        ensures
            r == (self.nodes().contains_key(k) && phase(self.nodes()[k].value) == Phase::InFlight(client_id)),
    {
        match self.requests.get(k) {
            Some(node) => match node.value() {
                RequestState::InFlight { sender, .. } => {
                    proof {
                        assert(sender.0 == client_id.0 ==> *sender == client_id);
                    }
                    sender.0 == client_id.0
                },
                _ => false,
            },
            None => false,
        }
    }

    /// Whether the client is registered.
    pub fn has_client(&self, client_id: ClientId) -> (r: bool)
        requires
            self.wf(),
        ensures
            r == self.clients().contains_key(client_id),
    {
        self.client_index(client_id).is_some()
    }

    /// Number of tracked requests.
    pub fn request_count(&self) -> (r: usize)
        requires
            self.wf(),
        ensures
            r == self.nodes().dom().len(),
    {
        self.requests.len()
    }

    /// Position of the client among the clients.
    fn client_index(&self, client_id: ClientId) -> (r: Option<usize>)
        requires
            distinct_keys(self.clients@),
        ensures
            r matches Some(i) ==> i < self.clients@.len() && self.clients@[i as int].0 == client_id,
            r is None <==> !self.clients().contains_key(client_id),
    {
        let mut i: usize = 0;
        while i < self.clients.len()
            invariant
                i <= self.clients@.len(),
                forall|j: int| 0 <= j < i ==> self.clients@[j].0 != client_id,
            decreases self.clients@.len() - i,
        {
            if self.clients[i].0.0 == client_id.0 {
                return Some(i);
            }
            i = i + 1;
        }
        None
    }
}

/// Position of the message key among the requests a client tracks.
fn entry_index(requests: &Vec<(MessageKey, Key)>, key: &MessageKey) -> (r: Option<usize>)
    ensures
        r matches Some(i) ==> i < requests@.len() && requests@[i as int].0 == *key,
        r is None <==> !has_key(requests@, *key),
{
    let mut i: usize = 0;
    while i < requests.len()
        invariant
            i <= requests@.len(),
            forall|j: int| 0 <= j < i ==> requests@[j].0 != *key,
        decreases requests@.len() - i,
    {
        if requests[i].0.same(key) {
            return Some(i);
        }
        i = i + 1;
    }
    None
}

} // verus!
