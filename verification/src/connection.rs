//! Identifiers of connections.

use crate::keyed::{distinct_keys, has_key, kv_view, lemma_kv_at, lemma_kv_push, lemma_kv_remove, lemma_kv_update};
use crate::peer_addr::PeerAddr;
use crate::peer_info::PeerInfo;
use crate::peer_source::{direction_of, ConnectionDirection, PeerSource};
use crate::peer_state::{system_now, PeerState};
use crate::runtime_id::PublicRuntimeId;
use crate::stats::{read_as, ByteCounters, StatsTracker};
use std::sync::atomic::AtomicU64;
use std::sync::Arc;
use vstd::prelude::*;

verus! {

/// Unique identifier of a connection. Connections are mostly already identified by the peer
/// address and direction (incoming / outgoing), but this type allows to distinguish even
/// connections with the same address and direction that were established on two separate
/// occasions.
#[derive(Clone, Copy, PartialEq, Eq, Debug, Structural)]
pub struct ConnectionId(pub u64);

impl ConnectionId {
    /// The next id from the process-wide counter, which it advances.
    pub fn next(counter: &AtomicU64) -> Self {
        ConnectionId(counter.fetch_add(1, std::sync::atomic::Ordering::Relaxed))
    }
}

/// Identifies a connection to a peer: its address and direction.
#[derive(Clone, Copy, PartialEq, Eq, Debug, Structural)]
pub struct ConnectionKey {
    pub addr: PeerAddr,
    pub dir: ConnectionDirection,
}

/// What is known of a connection.
pub struct ConnectionData {
    pub id: ConnectionId,
    pub state: PeerState,
    pub source: PeerSource,
    pub stats_tracker: StatsTracker,
}

/// The view of a connection: its id, state and source.
pub struct ConnectionView {
    pub id: ConnectionId,
    pub state: PeerState,
    pub source: PeerSource,
}

pub open spec fn data_view(d: ConnectionData) -> ConnectionView {
    ConnectionView { id: d.id, state: d.state, source: d.source }
}

/// Keeps a connection reserved while it lives; [`ConnectionSet::release`] gives it back.
pub struct ConnectionPermit {
    key: ConnectionKey,
    id: ConnectionId,
}

impl ConnectionPermit {
    pub closed spec fn spec_key(&self) -> ConnectionKey {
        self.key
    }

    pub closed spec fn spec_id(&self) -> ConnectionId {
        self.id
    }

    pub fn addr(&self) -> (r: PeerAddr)
        ensures
            r == self.spec_key().addr,
    {
        self.key.addr
    }

    pub fn id(&self) -> (r: ConnectionId)
        ensures
            r == self.spec_id(),
    {
        self.id
    }
}

/// The outcome of reserving a connection.
pub enum ReserveResult {
    /// The connection was free; it is reserved as long as the permit is not released.
    Permit(ConnectionPermit),
    /// The connection is reserved already, from this source, with this id.
    Occupied(PeerSource, ConnectionId),
}

/// The connections to peers: at most one per address and direction.
pub struct ConnectionSet {
    entries: Vec<(ConnectionKey, ConnectionData)>,
}

/// The connections by key.
pub open spec fn set_view(s: Seq<(ConnectionKey, ConnectionData)>) -> Map<ConnectionKey, ConnectionView> {
    kv_view(s).map_values(|d: ConnectionData| data_view(d))
}

impl ConnectionSet {
    pub closed spec fn view(&self) -> Map<ConnectionKey, ConnectionView> {
        set_view(self.entries@)
    }

    pub closed spec fn wf(&self) -> bool {
        distinct_keys(self.entries@)
    }

    /// The statistics of the connection `key` can be read whatever its counters hold, as
    /// before their first reading.
    pub closed spec fn reads_always(&self, key: ConnectionKey) -> bool {
        kv_view(self.entries@).contains_key(key) && kv_view(self.entries@)[key].stats_tracker.reads_always()
    }

    /// The connection whose information is given for the peer at `addr`: the incoming one if
    /// there is one, else the outgoing one.
    pub open spec fn peer_key(&self, addr: PeerAddr) -> ConnectionKey {
        if self.view().contains_key(ConnectionKey { addr, dir: ConnectionDirection::Incoming }) {
            ConnectionKey { addr, dir: ConnectionDirection::Incoming }
        } else {
            ConnectionKey { addr, dir: ConnectionDirection::Outgoing }
        }
    }

    /// The statistics tracker of the connection `key`.
    pub closed spec fn tracker(&self, key: ConnectionKey) -> StatsTracker {
        kv_view(self.entries@)[key].stats_tracker
    }

    pub fn new() -> (r: Self)
        ensures
            r.wf(),
            r.view() == Map::<ConnectionKey, ConnectionView>::empty(),
    {
        let r = ConnectionSet { entries: Vec::new() };
        assert(r.view() =~= Map::<ConnectionKey, ConnectionView>::empty());
        r
    }

    fn find(&self, key: &ConnectionKey) -> (r: Option<usize>)
        ensures
            r matches Some(i) ==> i < self.entries@.len() && self.entries@[i as int].0 == *key,
            r is None ==> !has_key(self.entries@, *key),
    {
        let mut i: usize = 0;
        while i < self.entries.len()
            invariant
                i <= self.entries@.len(),
                forall|j: int| 0 <= j < i ==> self.entries@[j].0 != *key,
            decreases self.entries@.len() - i,
        {
            if self.entries[i].0 == *key {
                return Some(i);
            }
            i = i + 1;
        }
        None
    }

    /// Reserves the connection to the peer at `addr` in the direction of `source`. When it is
    /// free, it is added in the `Known` state with the next id from `counter`, and a permit is
    /// returned; otherwise the source and id of the existing connection are.
    pub fn reserve(&mut self, addr: PeerAddr, source: PeerSource, counter: &AtomicU64) -> (r: ReserveResult)
        requires
            old(self).wf(),
        ensures
            final(self).wf(),
            ({
                let key = ConnectionKey { addr, dir: direction_of(source) };
                match r {
                    ReserveResult::Permit(p) => !old(self).view().contains_key(key) && p.spec_key() == key
                        && final(self).view() == old(self).view().insert(
                        key,
                        (ConnectionView { id: p.spec_id(), state: PeerState::Known, source }),
                    ) && final(self).reads_always(key),
                    ReserveResult::Occupied(src, id) => old(self).view().contains_key(key) && src == old(self).view()[key].source
                        && id == old(self).view()[key].id && final(self).view() == old(self).view(),
                }
            }),
    {
        let key = ConnectionKey { addr, dir: ConnectionDirection::from_source(source) };
        match self.find(&key) {
            Some(i) => {
                proof {
                    lemma_kv_at(self.entries@, i as int);
                }
                let data = &self.entries[i].1;
                ReserveResult::Occupied(data.source, data.id)
            },
            None => {
                let id = ConnectionId::next(counter);
                let data = ConnectionData { id, state: PeerState::Known, source, stats_tracker: StatsTracker::new() };
                proof {
                    lemma_kv_push(self.entries@, key, data);
                }
                let ghost before = self.entries@;
                self.entries.push((key, data));
                proof {
                    assert(self.view() =~= set_view(before).insert(key, data_view(data)));
                    lemma_kv_at(self.entries@, before.len() as int);
                }
                ReserveResult::Permit(ConnectionPermit { key, id })
            },
        }
    }

    /// The permit's connection is being established.
    pub fn mark_as_connecting(&mut self, permit: &ConnectionPermit)
        requires
            old(self).wf(),
        ensures
            final(self).wf(),
            old(self).view().contains_key(permit.spec_key()) ==> final(self).view() == old(self).view().insert(
                permit.spec_key(),
                (ConnectionView {
                    id: old(self).view()[permit.spec_key()].id,
                    state: PeerState::Connecting,
                    source: old(self).view()[permit.spec_key()].source,
                }),
            ),
            !old(self).view().contains_key(permit.spec_key()) ==> final(self).view() == old(self).view(),
            forall|k: ConnectionKey| #[trigger] final(self).reads_always(k) == old(self).reads_always(k),
    {
        self.set_state(permit, PeerState::Connecting);
    }

    /// The permit's connection is doing its handshake.
    pub fn mark_as_handshaking(&mut self, permit: &ConnectionPermit)
        requires
            old(self).wf(),
        ensures
            final(self).wf(),
            old(self).view().contains_key(permit.spec_key()) ==> final(self).view() == old(self).view().insert(
                permit.spec_key(),
                (ConnectionView {
                    id: old(self).view()[permit.spec_key()].id,
                    state: PeerState::Handshaking,
                    source: old(self).view()[permit.spec_key()].source,
                }),
            ),
            !old(self).view().contains_key(permit.spec_key()) ==> final(self).view() == old(self).view(),
            forall|k: ConnectionKey| #[trigger] final(self).reads_always(k) == old(self).reads_always(k),
    {
        self.set_state(permit, PeerState::Handshaking);
    }

    /// The permit's connection is established with the replica of the given runtime id, since
    /// now.
    pub fn mark_as_active(&mut self, permit: &ConnectionPermit, runtime_id: PublicRuntimeId)
        requires
            old(self).wf(),
        ensures
            final(self).wf(),
            old(self).view().contains_key(permit.spec_key()) ==> {
                let c = final(self).view()[permit.spec_key()];
                &&& final(self).view().dom() == old(self).view().dom()
                &&& forall|k: ConnectionKey| #[trigger] old(self).view().contains_key(k) && k != permit.spec_key()
                    ==> final(self).view()[k] == old(self).view()[k]
                &&& c.id == old(self).view()[permit.spec_key()].id
                &&& c.source == old(self).view()[permit.spec_key()].source
                &&& c.state matches PeerState::Active { id, .. } && id == runtime_id
            },
            !old(self).view().contains_key(permit.spec_key()) ==> final(self).view() == old(self).view(),
            forall|k: ConnectionKey| #[trigger] final(self).reads_always(k) == old(self).reads_always(k),
    {
        let since = system_now();
        self.set_state(permit, PeerState::Active { id: runtime_id, since });
        proof {
            if old(self).view().contains_key(permit.spec_key()) {
                assert(self.view().dom() =~= old(self).view().dom());
            }
        }
    }

    /// Sets the state of the permit's connection; returns whether that changed it. Nothing
    /// happens when the connection is not the permit's any more.
    pub fn set_state(&mut self, permit: &ConnectionPermit, state: PeerState) -> (r: bool)
        requires
            old(self).wf(),
        ensures
            final(self).wf(),
            ({
                let key = permit.spec_key();
                if old(self).view().contains_key(key) {
                    &&& r == (old(self).view()[key].state != state)
                    &&& final(self).view() == old(self).view().insert(
                        key,
                        (ConnectionView { id: old(self).view()[key].id, state, source: old(self).view()[key].source }),
                    )
                } else {
                    !r && final(self).view() == old(self).view()
                }
            }),
            forall|k: ConnectionKey| #[trigger] final(self).reads_always(k) == old(self).reads_always(k),
    {
        match self.find(&permit.key) {
            Some(i) => {
                proof {
                    lemma_kv_at(self.entries@, i as int);
                }
                if self.entries[i].1.state.same(&state) {
                    proof {
                        assert(self.view() =~= old(self).view().insert(
                            permit.key,
                            (ConnectionView { id: old(self).view()[permit.key].id, state, source: old(self).view()[permit.key].source }),
                        ));
                    }
                    return false;
                }
                let ghost before = self.entries@;
                let (k, mut data) = self.entries.remove(i);
                data.state = state;
                self.entries.insert(i, (k, data));
                proof {
                    assert(self.entries@ =~= before.update(i as int, (before[i as int].0, data)));
                    lemma_kv_update(before, i as int, data);
                    assert(self.view() =~= old(self).view().insert(
                        permit.key,
                        (ConnectionView { id: old(self).view()[permit.key].id, state, source: old(self).view()[permit.key].source }),
                    ));
                }
                true
            },
            None => false,
        }
    }

    /// Gives the permit back: its connection is removed, unless it was replaced by another
    /// one meanwhile. Returns whether it was removed.
    pub fn release(&mut self, permit: ConnectionPermit) -> (r: bool)
        requires
            old(self).wf(),
        ensures
            final(self).wf(),
            r == (old(self).view().contains_key(permit.spec_key()) && old(self).view()[permit.spec_key()].id
                == permit.spec_id()),
            r ==> final(self).view() == old(self).view().remove(permit.spec_key()),
            !r ==> final(self).view() == old(self).view(),
    {
        match self.find(&permit.key) {
            Some(i) => {
                proof {
                    lemma_kv_at(self.entries@, i as int);
                }
                if self.entries[i].1.id != permit.id {
                    return false;
                }
                let ghost before = self.entries@;
                self.entries.remove(i);
                proof {
                    lemma_kv_remove(before, i as int);
                    assert(self.view() =~= old(self).view().remove(permit.key));
                }
                true
            },
            None => false,
        }
    }

    /// The source of the permit's connection, while it is there.
    pub fn source(&self, permit: &ConnectionPermit) -> (r: Option<PeerSource>)
        requires
            self.wf(),
        ensures
            r == (if self.view().contains_key(permit.spec_key()) {
                Some(self.view()[permit.spec_key()].source)
            } else {
                None
            }),
    {
        match self.find(&permit.key) {
            Some(i) => {
                proof {
                    lemma_kv_at(self.entries@, i as int);
                }
                Some(self.entries[i].1.source)
            },
            None => None,
        }
    }

    /// The byte counters of the permit's connection, while it is there.
    pub fn byte_counters(&self, permit: &ConnectionPermit) -> (r: Option<Arc<ByteCounters>>)
        requires
            self.wf(),
        ensures
            r is Some <==> self.view().contains_key(permit.spec_key()),
            r matches Some(c) ==> c == self.tracker(permit.spec_key()).bytes,
    {
        match self.find(&permit.key) {
            Some(i) => {
                proof {
                    lemma_kv_at(self.entries@, i as int);
                }
                Some(Arc::clone(&self.entries[i].1.stats_tracker.bytes))
            },
            None => None,
        }
    }

    /// Information about the peer at `addr`: its incoming connection if there is one, else its
    /// outgoing one. `None` also where the statistics cannot be read (see
    /// [`StatsTracker::read`]).
    pub fn get_peer_info(&mut self, addr: PeerAddr) -> (r: Option<PeerInfo>)
        requires
            old(self).wf(),
        ensures
            final(self).wf(),
            final(self).view() == old(self).view(),
            ({
                let incoming = ConnectionKey { addr, dir: ConnectionDirection::Incoming };
                let outgoing = ConnectionKey { addr, dir: ConnectionDirection::Outgoing };
                &&& r matches Some(info) ==> info.addr == addr && if old(self).view().contains_key(incoming) {
                    info.source == old(self).view()[incoming].source && info.state == old(self).view()[incoming].state
                } else {
                    old(self).view().contains_key(outgoing) && info.source == old(self).view()[outgoing].source
                        && info.state == old(self).view()[outgoing].state
                }
                &&& !old(self).view().contains_key(incoming) && !old(self).view().contains_key(outgoing) ==> r is None
                // The statistics of the chosen connection are read; only that can fail.
                &&& old(self).view().contains_key(incoming) && old(self).reads_always(incoming) ==> r is Some
                &&& !old(self).view().contains_key(incoming) && old(self).view().contains_key(outgoing)
                    && old(self).reads_always(outgoing) ==> r is Some
                // What was read: the chosen connection's statistics, at some totals and time,
                // its tracker taking that reading; the other trackers are untouched.
                &&& ({
                    let chosen = old(self).peer_key(addr);
                    &&& old(self).view().contains_key(chosen) ==> exists|tx: u64, rx: u64, t: u64|
                        #[trigger] read_as(old(self).tracker(chosen), final(self).tracker(chosen), tx, rx, t)
                            && (r is Some <==> old(self).tracker(chosen).stats_at(tx, rx, t) is Some)
                            && (r matches Some(info) ==> Some(info.stats) == old(self).tracker(chosen).stats_at(
                            tx,
                            rx,
                            t,
                        ))
                    &&& forall|k: ConnectionKey| k != chosen ==> #[trigger] final(self).tracker(k) == old(self).tracker(k)
                })
            }),
    {
        let incoming = ConnectionKey { addr, dir: ConnectionDirection::Incoming };
        let outgoing = ConnectionKey { addr, dir: ConnectionDirection::Outgoing };
        let found = match self.find(&incoming) {
            Some(i) => Some(i),
            None => self.find(&outgoing),
        };
        match found {
            Some(i) => {
                proof {
                    lemma_kv_at(self.entries@, i as int);
                }
                let ghost before = self.entries@;
                let (k, mut data) = self.entries.remove(i);
                let stats = data.stats_tracker.read();
                let source = data.source;
                let state = data.state;
                self.entries.insert(i, (k, data));
                proof {
                    assert(self.entries@ =~= before.update(i as int, (before[i as int].0, data)));
                    lemma_kv_update(before, i as int, data);
                    assert(self.view() =~= old(self).view());
                    let chosen = old(self).peer_key(addr);
                    assert(k == chosen);
                    assert(old(self).tracker(chosen) == before[i as int].1.stats_tracker);
                    assert(self.tracker(chosen) == data.stats_tracker);
                    assert forall|x: ConnectionKey| x != chosen implies #[trigger] self.tracker(x) == old(self).tracker(x) by {
                        assert(kv_view(self.entries@)[x] == kv_view(before)[x]);
                    }
                }
                match stats {
                    Some(stats) => Some(PeerInfo { addr, source, state, stats }),
                    None => None,
                }
            },
            None => None,
        }
    }
}

} // verus!
