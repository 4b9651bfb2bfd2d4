//! Peer exchange: peers that share a repository with us learn each other's addresses from us.
//!
//! The timers and channels are the caller's; here is the shared state: which peers share which
//! repository, the addresses of each peer, whether exchange is enabled, and which addresses a
//! peer is sent.

use crate::ip::{ip_global, is_global};
use crate::peer_addr::PeerAddr;
use crate::peer_source::{direction_of, ConnectionDirection, PeerSource};
use vstd::prelude::*;

verus! {

/// Least seconds between two sends of contacts to a peer.
pub const SEND_INTERVAL_MIN_SECS: u64 = 60;

/// Most seconds (exclusive) between two sends of contacts to a peer.
pub const SEND_INTERVAL_MAX_SECS: u64 = 120;

/// Seconds of a round of the seen-peers machinery of peer exchange.
pub const ROUND_DURATION_SECS: u64 = 600;

/// A repository taking part in peer exchange.
pub struct RepoState {
    /// Whether peer exchange is enabled for the repository.
    pub enabled: bool,
    /// The peers sharing the repository whose contacts are being collected, each once.
    pub peers: Vec<usize>,
}

/// A peer taking part in peer exchange.
pub struct PeerState {
    /// The addresses of the peer, each once.
    pub addrs: Vec<PeerAddr>,
}

/// Why no contacts were collected.
#[derive(Clone, Copy, PartialEq, Eq, Debug, Structural)]
pub enum CollectError {
    /// All the connections to the peer have been closed or the repository has been unlinked.
    Closed,
    /// Peer exchange is disabled for the repository.
    Disabled,
}

/// The state shared by the handles of peer exchange.
pub struct PexState {
    repos: Vec<Option<RepoState>>,
    peers: Vec<Option<PeerState>>,
    send_enabled: bool,
    recv_enabled: bool,
}

/// Whether the addresses of a peer are all global, so that only global addresses are sent to
/// it: two peers are taken to be on the same LAN when we are connected to both on at least one
/// local address.
pub open spec fn all_global(addrs: Seq<PeerAddr>) -> bool {
    forall|i: int| 0 <= i < addrs.len() ==> ip_global(#[trigger] addrs[i].spec_ip())
}

/// Only global contacts are sent to a peer exactly when every address we know it by is global:
/// one address that is not global (a local one) makes it a peer of our LAN, to which the
/// contacts are sent whatever their addresses, even if its other addresses are global.
pub proof fn lemma_lan_peer_gets_every_contact(addrs: Seq<PeerAddr>, j: int)
    ensures
        0 <= j < addrs.len() && !ip_global(addrs[j].spec_ip()) ==> !all_global(addrs),
        (forall|i: int| 0 <= i < addrs.len() ==> ip_global(#[trigger] addrs[i].spec_ip())) ==> all_global(addrs),
        all_global(Seq::<PeerAddr>::empty()),
{
}

impl PexState {
    pub closed spec fn repo(&self, id: usize) -> Option<RepoState> {
        if id < self.repos@.len() {
            self.repos@[id as int]
        } else {
            None
        }
    }

    pub closed spec fn peer(&self, id: usize) -> Option<PeerState> {
        if id < self.peers@.len() {
            self.peers@[id as int]
        } else {
            None
        }
    }

    pub closed spec fn spec_send_enabled(&self) -> bool {
        self.send_enabled
    }

    pub closed spec fn spec_recv_enabled(&self) -> bool {
        self.recv_enabled
    }

    /// The peers of each repository, and the addresses of each peer, are distinct.
    pub closed spec fn wf(&self) -> bool {
        &&& forall|i: int| 0 <= i < self.repos@.len() && #[trigger] self.repos@[i] is Some ==> self.repos@[i]->Some_0.peers@.no_duplicates()
        &&& forall|i: int| 0 <= i < self.peers@.len() && #[trigger] self.peers@[i] is Some ==> self.peers@[i]->Some_0.addrs@.no_duplicates()
    }

    /// Sending and receiving enabled; no repository and no peer yet.
    pub fn new() -> (r: Self)
        ensures
            r.wf(),
            r.spec_send_enabled(),
            r.spec_recv_enabled(),
            forall|id: usize| r.repo(id) is None && r.peer(id) is None,
    {
        PexState { repos: Vec::new(), peers: Vec::new(), send_enabled: true, recv_enabled: true }
    }

    /// Sets whether contacts are sent to peers; returns whether that changed it.
    pub fn set_send_enabled(&mut self, enabled: bool) -> (r: bool)
        requires
            old(self).wf(),
        ensures
            final(self).wf(),
            r == (old(self).spec_send_enabled() != enabled),
            final(self).spec_send_enabled() == enabled,
            final(self).spec_recv_enabled() == old(self).spec_recv_enabled(),
            forall|id: usize| final(self).repo(id) == old(self).repo(id) && final(self).peer(id) == old(self).peer(id),
    {
        if self.send_enabled != enabled {
            self.send_enabled = enabled;
            true
        } else {
            false
        }
    }

    pub fn is_send_enabled(&self) -> (r: bool)
        ensures
            r == self.spec_send_enabled(),
    {
        self.send_enabled
    }

    /// Sets whether contacts are received from peers; returns whether that changed it.
    pub fn set_recv_enabled(&mut self, enabled: bool) -> (r: bool)
        requires
            old(self).wf(),
        ensures
            final(self).wf(),
            r == (old(self).spec_recv_enabled() != enabled),
            final(self).spec_recv_enabled() == enabled,
            final(self).spec_send_enabled() == old(self).spec_send_enabled(),
            forall|id: usize| final(self).repo(id) == old(self).repo(id) && final(self).peer(id) == old(self).peer(id),
    {
        if self.recv_enabled != enabled {
            self.recv_enabled = enabled;
            true
        } else {
            false
        }
    }

    pub fn is_recv_enabled(&self) -> (r: bool)
        ensures
            r == self.spec_recv_enabled(),
    {
        self.recv_enabled
    }

    /// Adds a peer, with no address yet; returns its id (the first free one).
    pub fn new_peer(&mut self) -> (r: usize)
        requires
            old(self).wf(),
        ensures
            final(self).wf(),
            old(self).peer(r) is None,
            final(self).peer(r) matches Some(p) && p.addrs@.len() == 0,
            forall|id: usize| id != r ==> final(self).peer(id) == old(self).peer(id),
            forall|id: usize| final(self).repo(id) == old(self).repo(id),
            final(self).spec_send_enabled() == old(self).spec_send_enabled(),
            final(self).spec_recv_enabled() == old(self).spec_recv_enabled(),
    {
        let mut i: usize = 0;
        while i < self.peers.len()
            invariant
                i <= self.peers@.len(),
                self.peers@ == old(self).peers@,
                self.repos@ == old(self).repos@,
                self.send_enabled == old(self).send_enabled,
                self.recv_enabled == old(self).recv_enabled,
                self.wf(),
            decreases self.peers@.len() - i,
        {
            if self.peers[i].is_none() {
                self.peers.set(i, Some(PeerState { addrs: Vec::new() }));
                return i;
            }
            i = i + 1;
        }
        let id = self.peers.len();
        self.peers.push(Some(PeerState { addrs: Vec::new() }));
        id
    }

    /// Adds a repository, with peer exchange disabled for it; returns its id (the first free
    /// one).
    pub fn new_repository(&mut self) -> (r: usize)
        requires
            old(self).wf(),
        ensures
            final(self).wf(),
            old(self).repo(r) is None,
            final(self).repo(r) matches Some(p) && !p.enabled && p.peers@.len() == 0,
            forall|id: usize| id != r ==> final(self).repo(id) == old(self).repo(id),
            forall|id: usize| final(self).peer(id) == old(self).peer(id),
            final(self).spec_send_enabled() == old(self).spec_send_enabled(),
            final(self).spec_recv_enabled() == old(self).spec_recv_enabled(),
    {
        let mut i: usize = 0;
        while i < self.repos.len()
            invariant
                i <= self.repos@.len(),
                self.peers@ == old(self).peers@,
                self.repos@ == old(self).repos@,
                self.send_enabled == old(self).send_enabled,
                self.recv_enabled == old(self).recv_enabled,
                self.wf(),
            decreases self.repos@.len() - i,
        {
            if self.repos[i].is_none() {
                self.repos.set(i, Some(RepoState { enabled: false, peers: Vec::new() }));
                return i;
            }
            i = i + 1;
        }
        let id = self.repos.len();
        self.repos.push(Some(RepoState { enabled: false, peers: Vec::new() }));
        id
    }

    /// Removes the peer (its handle was dropped).
    pub fn remove_peer(&mut self, id: usize)
        requires
            old(self).wf(),
        ensures
            final(self).wf(),
            final(self).peer(id) is None,
            forall|k: usize| k != id ==> final(self).peer(k) == old(self).peer(k),
            forall|k: usize| final(self).repo(k) == old(self).repo(k),
            final(self).spec_send_enabled() == old(self).spec_send_enabled(),
            final(self).spec_recv_enabled() == old(self).spec_recv_enabled(),
    {
        if id < self.peers.len() {
            self.peers.set(id, None);
        }
    }

    /// Removes the repository (its handle was dropped).
    pub fn remove_repository(&mut self, id: usize)
        requires
            old(self).wf(),
        ensures
            final(self).wf(),
            final(self).repo(id) is None,
            forall|k: usize| k != id ==> final(self).repo(k) == old(self).repo(k),
            forall|k: usize| final(self).peer(k) == old(self).peer(k),
            final(self).spec_send_enabled() == old(self).spec_send_enabled(),
            final(self).spec_recv_enabled() == old(self).spec_recv_enabled(),
    {
        if id < self.repos.len() {
            self.repos.set(id, None);
        }
    }

    /// Whether peer exchange is enabled for the repository.
    pub fn is_repo_enabled(&self, id: usize) -> (r: bool)
        requires
            self.repo(id) is Some,
        ensures
            r == self.repo(id)->Some_0.enabled,
    {
        self.repos[id].as_ref().unwrap().enabled
    }

    /// Enables or disables peer exchange for the repository.
    pub fn set_repo_enabled(&mut self, id: usize, enabled: bool)
        requires
            old(self).wf(),
            old(self).repo(id) is Some,
        ensures
            final(self).wf(),
            final(self).repo(id) matches Some(r) && r.enabled == enabled && r.peers@ == old(self).repo(id)->Some_0.peers@,
            forall|k: usize| k != id ==> final(self).repo(k) == old(self).repo(k),
            forall|k: usize| final(self).peer(k) == old(self).peer(k),
            final(self).spec_send_enabled() == old(self).spec_send_enabled(),
            final(self).spec_recv_enabled() == old(self).spec_recv_enabled(),
    {
        let mut slot: Option<RepoState> = None;
        std::mem::swap(&mut slot, &mut self.repos[id]);
        let mut repo = slot.unwrap();
        repo.enabled = enabled;
        self.repos.set(id, Some(repo));
    }

    /// Whether contacts are received for the repository: receiving is enabled, and so is peer
    /// exchange for the repository (which exists).
    pub fn is_recv_enabled_for(&self, repo_id: usize) -> (r: bool)
        ensures
            r == (self.spec_recv_enabled() && self.repo(repo_id) is Some && self.repo(repo_id)->Some_0.enabled),
    {
        self.recv_enabled && repo_enabled(&self.repos, repo_id)
    }

    /// Whether contacts are sent for the repository.
    pub fn is_send_enabled_for(&self, repo_id: usize) -> (r: bool)
        ensures
            r == (self.spec_send_enabled() && self.repo(repo_id) is Some && self.repo(repo_id)->Some_0.enabled),
    {
        self.send_enabled && repo_enabled(&self.repos, repo_id)
    }

    /// Notes a new connection to the peer at `addr`, found through `source`. Incoming TCP
    /// addresses cannot be connected to (their port is not the listener's), so they are not
    /// exchanged. Returns whether the address was added (it was not there yet).
    pub fn handle_connection(&mut self, peer_id: usize, addr: PeerAddr, source: PeerSource) -> (r: bool)
        requires
            old(self).wf(),
            old(self).peer(peer_id) is Some,
        ensures
            final(self).wf(),
            r == (!(addr is Tcp && direction_of(source) == ConnectionDirection::Incoming)
                && !old(self).peer(peer_id)->Some_0.addrs@.contains(addr)),
            final(self).peer(peer_id) matches Some(p) && p.addrs@ == if r {
                old(self).peer(peer_id)->Some_0.addrs@.push(addr)
            } else {
                old(self).peer(peer_id)->Some_0.addrs@
            },
            forall|k: usize| k != peer_id ==> final(self).peer(k) == old(self).peer(k),
            forall|k: usize| final(self).repo(k) == old(self).repo(k),
            final(self).spec_send_enabled() == old(self).spec_send_enabled(),
            final(self).spec_recv_enabled() == old(self).spec_recv_enabled(),
    {
        if addr.is_tcp() && ConnectionDirection::from_source(source) == ConnectionDirection::Incoming {
            return false;
        }
        let mut slot: Option<PeerState> = None;
        std::mem::swap(&mut slot, &mut self.peers[peer_id]);
        let mut peer = slot.unwrap();
        let ghost before = peer.addrs@;
        let present = contains_addr(&peer.addrs, &addr);
        if !present {
            peer.addrs.push(addr);
            proof {
                assert forall|a: int, b: int| 0 <= a < b < peer.addrs@.len() implies peer.addrs@[a] != peer.addrs@[b] by {
                    if b == before.len() {
                        assert(before.contains(peer.addrs@[a]));
                    }
                }
            }
        }
        self.peers.set(peer_id, Some(peer));
        !present
    }

    /// Notes that the connection to the peer at `addr` was closed. Returns whether the address
    /// was removed.
    pub fn handle_disconnection(&mut self, peer_id: usize, addr: PeerAddr) -> (r: bool)
        requires
            old(self).wf(),
        ensures
            final(self).wf(),
            r == (old(self).peer(peer_id) is Some && old(self).peer(peer_id)->Some_0.addrs@.contains(addr)),
            old(self).peer(peer_id) is None ==> final(self).peer(peer_id) is None,
            old(self).peer(peer_id) matches Some(p) ==> (final(self).peer(peer_id) matches Some(q) && forall|a: PeerAddr|
                #[trigger] q.addrs@.contains(a) <==> p.addrs@.contains(a) && a != addr),
            forall|k: usize| k != peer_id ==> final(self).peer(k) == old(self).peer(k),
            forall|k: usize| final(self).repo(k) == old(self).repo(k),
            final(self).spec_send_enabled() == old(self).spec_send_enabled(),
            final(self).spec_recv_enabled() == old(self).spec_recv_enabled(),
    {
        if peer_id >= self.peers.len() || self.peers[peer_id].is_none() {
            return false;
        }
        let mut slot: Option<PeerState> = None;
        std::mem::swap(&mut slot, &mut self.peers[peer_id]);
        let peer = slot.unwrap();
        let present = contains_addr(&peer.addrs, &addr);
        let addrs = without_addr(&peer.addrs, &addr);
        self.peers.set(peer_id, Some(PeerState { addrs }));
        present
    }

    /// Starts collecting the contacts of other peers for the peer, on the repository's link.
    /// Returns `false` when the repository is gone or a collector for the link exists already.
    pub fn enable_collector(&mut self, repo_id: usize, peer_id: usize) -> (r: bool)
        requires
            old(self).wf(),
        ensures
            final(self).wf(),
            r == (old(self).repo(repo_id) is Some && !old(self).repo(repo_id)->Some_0.peers@.contains(peer_id)),
            r ==> (final(self).repo(repo_id) matches Some(p) && p.enabled == old(self).repo(repo_id)->Some_0.enabled
                && p.peers@ == old(self).repo(repo_id)->Some_0.peers@.push(peer_id)),
            !r ==> final(self).repo(repo_id) == old(self).repo(repo_id),
            forall|k: usize| k != repo_id ==> final(self).repo(k) == old(self).repo(k),
            forall|k: usize| final(self).peer(k) == old(self).peer(k),
            final(self).spec_send_enabled() == old(self).spec_send_enabled(),
            final(self).spec_recv_enabled() == old(self).spec_recv_enabled(),
    {
        if repo_id >= self.repos.len() || self.repos[repo_id].is_none() {
            return false;
        }
        let mut slot: Option<RepoState> = None;
        std::mem::swap(&mut slot, &mut self.repos[repo_id]);
        let mut repo = slot.unwrap();
        let ghost before = repo.peers@;
        let present = contains_id(&repo.peers, peer_id);
        if !present {
            repo.peers.push(peer_id);
            proof {
                assert forall|a: int, b: int| 0 <= a < b < repo.peers@.len() implies repo.peers@[a] != repo.peers@[b] by {
                    if b == before.len() {
                        assert(before.contains(repo.peers@[a]));
                    }
                }
            }
        }
        self.repos.set(repo_id, Some(repo));
        !present
    }

    /// Stops collecting contacts for the peer on the repository's link.
    pub fn disable_collector(&mut self, repo_id: usize, peer_id: usize)
        requires
            old(self).wf(),
        ensures
            final(self).wf(),
            old(self).repo(repo_id) is None ==> final(self).repo(repo_id) is None,
            old(self).repo(repo_id) matches Some(p) ==> (final(self).repo(repo_id) matches Some(q) && q.enabled == p.enabled
                && forall|k: usize| #[trigger] q.peers@.contains(k) <==> p.peers@.contains(k) && k != peer_id),
            forall|k: usize| k != repo_id ==> final(self).repo(k) == old(self).repo(k),
            forall|k: usize| final(self).peer(k) == old(self).peer(k),
            final(self).spec_send_enabled() == old(self).spec_send_enabled(),
            final(self).spec_recv_enabled() == old(self).spec_recv_enabled(),
    {
        if repo_id >= self.repos.len() || self.repos[repo_id].is_none() {
            return;
        }
        let mut slot: Option<RepoState> = None;
        std::mem::swap(&mut slot, &mut self.repos[repo_id]);
        let repo = slot.unwrap();
        let peers = without_id(&repo.peers, peer_id);
        self.repos.set(repo_id, Some(RepoState { enabled: repo.enabled, peers }));
    }

    /// The contacts to send to the peer on the repository's link: the addresses of the other
    /// peers collected for the repository; only their global addresses when all of the peer's
    /// own addresses are global. Fails when the repository or the peer is gone, or exchange is
    /// disabled.
    pub fn collect(&self, repo_id: usize, peer_id: usize) -> (r: Result<Vec<PeerAddr>, CollectError>)
        requires
            self.wf(),
        ensures
            r == Err::<Vec<PeerAddr>, CollectError>(CollectError::Closed) <==> self.repo(repo_id) is None || self.peer(peer_id) is None,
            r == Err::<Vec<PeerAddr>, CollectError>(CollectError::Disabled) <==> self.repo(repo_id) is Some && self.peer(peer_id) is Some
                && (!self.spec_send_enabled() || !self.repo(repo_id)->Some_0.enabled),
            r matches Ok(addrs) ==> addrs@.no_duplicates() && forall|a: PeerAddr| #[trigger] addrs@.contains(a) <==> (exists|q: usize|
                #![trigger self.peer(q)]
                q != peer_id && self.repo(repo_id)->Some_0.peers@.contains(q) && self.peer(q) is Some && self.peer(q)->Some_0.addrs@.contains(a))
                && (!all_global(self.peer(peer_id)->Some_0.addrs@) || ip_global(a.spec_ip())),
    {
        if repo_id >= self.repos.len() || self.repos[repo_id].is_none() || peer_id >= self.peers.len()
            || self.peers[peer_id].is_none() {
            return Err(CollectError::Closed);
        }
        let repo = self.repos[repo_id].as_ref().unwrap();
        let peer = self.peers[peer_id].as_ref().unwrap();
        if !self.send_enabled || !repo.enabled {
            return Err(CollectError::Disabled);
        }
        let only_global = all_addrs_global(&peer.addrs);
        let mut out: Vec<PeerAddr> = Vec::new();
        let mut i: usize = 0;
        while i < repo.peers.len()
            invariant
                i <= repo.peers@.len(),
                self.wf(),
                self.repo(repo_id) == Some(*repo),
                self.peer(peer_id) == Some(*peer),
                only_global == all_global(peer.addrs@),
                out@.no_duplicates(),
                forall|a: PeerAddr| #[trigger] out@.contains(a) <==> (exists|j: int| #![trigger repo.peers@[j]]
                    0 <= j < i && repo.peers@[j] != peer_id && self.peer(repo.peers@[j]) is Some
                    && self.peer(repo.peers@[j])->Some_0.addrs@.contains(a)) && (!only_global || ip_global(a.spec_ip())),
            decreases repo.peers@.len() - i,
        {
            let q = repo.peers[i];
            if q != peer_id && q < self.peers.len() {
                match &self.peers[q] {
                    Some(other) => {
                        let mut k: usize = 0;
                        let ghost before = out@;
                        while k < other.addrs.len()
                            invariant
                                k <= other.addrs@.len(),
                                i < repo.peers@.len(),
                                q == repo.peers@[i as int],
                                q != peer_id,
                                self.peer(q) == Some(*other),
                                self.wf(),
                                self.repo(repo_id) == Some(*repo),
                                self.peer(peer_id) == Some(*peer),
                                only_global == all_global(peer.addrs@),
                                out@.no_duplicates(),
                                forall|a: PeerAddr| #[trigger] out@.contains(a) <==> ((exists|j: int| #![trigger repo.peers@[j]]
                                    0 <= j < i && repo.peers@[j] != peer_id && self.peer(repo.peers@[j]) is Some
                                    && self.peer(repo.peers@[j])->Some_0.addrs@.contains(a)) || other.addrs@.take(k as int).contains(a))
                                    && (!only_global || ip_global(a.spec_ip())),
                            decreases other.addrs@.len() - k,
                        {
                            let a = other.addrs[k];
                            let keep = !only_global || is_global(&a.ip());
                            let ghost prev = out@;
                            if keep && !contains_addr(&out, &a) {
                                out.push(a);
                                proof {
                                    assert forall|x: int, y: int| 0 <= x < y < out@.len() implies out@[x] != out@[y] by {
                                        if y == prev.len() {
                                            assert(prev.contains(out@[x]));
                                        }
                                    }
                                }
                            }
                            proof {
                                assert(other.addrs@.take(k + 1) =~= other.addrs@.take(k as int).push(a));
                                assert forall|b: PeerAddr| #[trigger] out@.contains(b) <==> ((exists|j: int| #![trigger repo.peers@[j]]
                                    0 <= j < i && repo.peers@[j] != peer_id && self.peer(repo.peers@[j]) is Some
                                    && self.peer(repo.peers@[j])->Some_0.addrs@.contains(b)) || other.addrs@.take(k + 1).contains(b))
                                    && (!only_global || ip_global(b.spec_ip())) by {
                                    lemma_push_contains(other.addrs@.take(k as int), a, b);
                                    if out@ != prev {
                                        lemma_push_contains(prev, a, b);
                                    }
                                }
                            }
                            k = k + 1;
                        }
                        proof {
                            assert(other.addrs@.take(other.addrs@.len() as int) =~= other.addrs@);
                            assert forall|b: PeerAddr| #[trigger] out@.contains(b) <==> (exists|j: int| #![trigger repo.peers@[j]]
                                0 <= j < i + 1 && repo.peers@[j] != peer_id && self.peer(repo.peers@[j]) is Some
                                && self.peer(repo.peers@[j])->Some_0.addrs@.contains(b)) && (!only_global || ip_global(b.spec_ip())) by {
                                if other.addrs@.contains(b) {
                                    assert(repo.peers@[i as int] == q);
                                }
                                if exists|j: int| #![trigger repo.peers@[j]] 0 <= j < i + 1 && repo.peers@[j] != peer_id && self.peer(repo.peers@[j]) is Some
                                    && self.peer(repo.peers@[j])->Some_0.addrs@.contains(b) {
                                    let j = choose|j: int| #![trigger repo.peers@[j]] 0 <= j < i + 1 && repo.peers@[j] != peer_id && self.peer(repo.peers@[j]) is Some
                                        && self.peer(repo.peers@[j])->Some_0.addrs@.contains(b);
                                    if j == i {
                                        assert(other.addrs@.contains(b));
                                    }
                                }
                            }
                        }
                    },
                    None => {
                        proof {
                            lemma_skip_peer(self, repo, peer_id, i as int, out@, only_global);
                        }
                    },
                }
            } else {
                proof {
                    lemma_skip_peer(self, repo, peer_id, i as int, out@, only_global);
                }
            }
            i = i + 1;
        }
        proof {
            assert forall|a: PeerAddr| #[trigger] out@.contains(a) <==> (exists|q: usize|
                #![trigger self.peer(q)]
                q != peer_id && self.repo(repo_id)->Some_0.peers@.contains(q) && self.peer(q) is Some && self.peer(q)->Some_0.addrs@.contains(a))
                && (!all_global(self.peer(peer_id)->Some_0.addrs@) || ip_global(a.spec_ip())) by {
                if exists|q: usize| #![trigger self.peer(q)] q != peer_id && self.repo(repo_id)->Some_0.peers@.contains(q) && self.peer(q) is Some
                    && self.peer(q)->Some_0.addrs@.contains(a) {
                    let q = choose|q: usize| #![trigger self.peer(q)] q != peer_id && self.repo(repo_id)->Some_0.peers@.contains(q) && self.peer(q) is Some
                        && self.peer(q)->Some_0.addrs@.contains(a);
                    let j = choose|j: int| 0 <= j < repo.peers@.len() && repo.peers@[j] == q;
                    assert(repo.peers@[j] == q);
                }
                if exists|j: int| #![trigger repo.peers@[j]] 0 <= j < i && repo.peers@[j] != peer_id && self.peer(repo.peers@[j]) is Some
                    && self.peer(repo.peers@[j])->Some_0.addrs@.contains(a) {
                    let j = choose|j: int| #![trigger repo.peers@[j]] 0 <= j < i && repo.peers@[j] != peer_id && self.peer(repo.peers@[j]) is Some
                        && self.peer(repo.peers@[j])->Some_0.addrs@.contains(a);
                    assert(repo.peers@.contains(repo.peers@[j]));
                    assert(self.peer(repo.peers@[j]) is Some);
                }
            }
        }
        Ok(out)
    }
}

proof fn lemma_push_contains<A>(s: Seq<A>, x: A, y: A)
    ensures
        s.push(x).contains(y) <==> (s.contains(y) || y == x),
{
    if s.contains(y) {
        let t = choose|t: int| 0 <= t < s.len() && s[t] == y;
        assert(s.push(x)[t] == y);
    }
    if y == x {
        assert(s.push(x)[s.len() as int] == y);
    }
    if s.push(x).contains(y) {
        let t = choose|t: int| 0 <= t < s.push(x).len() && s.push(x)[t] == y;
        if t < s.len() {
            assert(s[t] == y);
        }
    }
}

proof fn lemma_skip_peer(s: &PexState, repo: &RepoState, peer_id: usize, i: int, out: Seq<PeerAddr>, only_global: bool)
    requires
        0 <= i < repo.peers@.len(),
        repo.peers@[i] == peer_id || s.peer(repo.peers@[i]) is None,
        forall|a: PeerAddr| #[trigger] out.contains(a) <==> (exists|j: int| #![trigger repo.peers@[j]]
            0 <= j < i && repo.peers@[j] != peer_id && s.peer(repo.peers@[j]) is Some
            && s.peer(repo.peers@[j])->Some_0.addrs@.contains(a)) && (!only_global || ip_global(a.spec_ip())),
    ensures
        forall|a: PeerAddr| #[trigger] out.contains(a) <==> (exists|j: int| #![trigger repo.peers@[j]]
            0 <= j < i + 1 && repo.peers@[j] != peer_id && s.peer(repo.peers@[j]) is Some
            && s.peer(repo.peers@[j])->Some_0.addrs@.contains(a)) && (!only_global || ip_global(a.spec_ip())),
{
    assert forall|a: PeerAddr| #[trigger] out.contains(a) <==> (exists|j: int| #![trigger repo.peers@[j]]
        0 <= j < i + 1 && repo.peers@[j] != peer_id && s.peer(repo.peers@[j]) is Some
        && s.peer(repo.peers@[j])->Some_0.addrs@.contains(a)) && (!only_global || ip_global(a.spec_ip())) by {
        if exists|j: int| #![trigger repo.peers@[j]] 0 <= j < i + 1 && repo.peers@[j] != peer_id && s.peer(repo.peers@[j]) is Some
            && s.peer(repo.peers@[j])->Some_0.addrs@.contains(a) {
            let j = choose|j: int| #![trigger repo.peers@[j]] 0 <= j < i + 1 && repo.peers@[j] != peer_id && s.peer(repo.peers@[j]) is Some
                && s.peer(repo.peers@[j])->Some_0.addrs@.contains(a);
            assert(j != i);
        }
    }
}

fn repo_enabled(repos: &Vec<Option<RepoState>>, id: usize) -> (r: bool)
    ensures
        r == (id < repos@.len() && repos@[id as int] is Some && repos@[id as int]->Some_0.enabled),
{
    if id < repos.len() {
        match &repos[id] {
            Some(p) => p.enabled,
            None => false,
        }
    } else {
        false
    }
}

fn all_addrs_global(addrs: &Vec<PeerAddr>) -> (r: bool)
    ensures
        r == all_global(addrs@),
{
    let mut i: usize = 0;
    while i < addrs.len()
        invariant
            i <= addrs@.len(),
            forall|j: int| 0 <= j < i ==> ip_global(#[trigger] addrs@[j].spec_ip()),
        decreases addrs@.len() - i,
    {
        if !is_global(&addrs[i].ip()) {
            assert(!ip_global(addrs@[i as int].spec_ip()));
            return false;
        }
        i = i + 1;
    }
    true
}

fn contains_addr(v: &Vec<PeerAddr>, a: &PeerAddr) -> (r: bool)
    ensures
        r == v@.contains(*a),
{
    let mut i: usize = 0;
    while i < v.len()
        invariant
            i <= v@.len(),
            forall|j: int| 0 <= j < i ==> v@[j] != *a,
        decreases v@.len() - i,
    {
        if v[i] == *a {
            return true;
        }
        i = i + 1;
    }
    false
}

fn contains_id(v: &Vec<usize>, a: usize) -> (r: bool)
    ensures
        r == v@.contains(a),
{
    let mut i: usize = 0;
    while i < v.len()
        invariant
            i <= v@.len(),
            forall|j: int| 0 <= j < i ==> v@[j] != a,
        decreases v@.len() - i,
    {
        if v[i] == a {
            return true;
        }
        i = i + 1;
    }
    false
}

fn without_addr(v: &Vec<PeerAddr>, a: &PeerAddr) -> (r: Vec<PeerAddr>)
    requires
        v@.no_duplicates(),
    ensures
        r@.no_duplicates(),
        forall|x: PeerAddr| #[trigger] r@.contains(x) <==> v@.contains(x) && x != *a,
{
    let mut r: Vec<PeerAddr> = Vec::new();
    let mut i: usize = 0;
    while i < v.len()
        invariant
            i <= v@.len(),
            v@.no_duplicates(),
            r@.no_duplicates(),
            forall|x: PeerAddr| #[trigger] r@.contains(x) <==> v@.take(i as int).contains(x) && x != *a,
        decreases v@.len() - i,
    {
        let ghost prev = r@;
        let x = v[i];
        if x != *a {
            proof {
                if prev.contains(x) {
                    let t = choose|t: int| 0 <= t < v@.take(i as int).len() && #[trigger] v@.take(i as int)[t] == x;
                    assert(v@[t] == v@[i as int]);
                }
            }
            r.push(x);
            proof {
                assert forall|p: int, q: int| 0 <= p < q < r@.len() implies r@[p] != r@[q] by {
                    if q == prev.len() {
                        assert(prev.contains(r@[p]));
                    }
                }
            }
        }
        proof {
            assert(v@.take(i + 1) =~= v@.take(i as int).push(x));
            assert forall|y: PeerAddr| #[trigger] r@.contains(y) <==> v@.take(i + 1).contains(y) && y != *a by {
                lemma_push_contains(v@.take(i as int), x, y);
                if x != *a {
                    lemma_push_contains(prev, x, y);
                }
            }
        }
        i = i + 1;
    }
    assert(v@.take(v@.len() as int) =~= v@);
    r
}

fn without_id(v: &Vec<usize>, a: usize) -> (r: Vec<usize>)
    requires
        v@.no_duplicates(),
    ensures
        r@.no_duplicates(),
        forall|x: usize| #[trigger] r@.contains(x) <==> v@.contains(x) && x != a,
{
    let mut r: Vec<usize> = Vec::new();
    let mut i: usize = 0;
    while i < v.len()
        invariant
            i <= v@.len(),
            v@.no_duplicates(),
            r@.no_duplicates(),
            forall|x: usize| #[trigger] r@.contains(x) <==> v@.take(i as int).contains(x) && x != a,
        decreases v@.len() - i,
    {
        let ghost prev = r@;
        let x = v[i];
        if x != a {
            proof {
                if prev.contains(x) {
                    let t = choose|t: int| 0 <= t < v@.take(i as int).len() && #[trigger] v@.take(i as int)[t] == x;
                    assert(v@[t] == v@[i as int]);
                }
            }
            r.push(x);
            proof {
                assert forall|p: int, q: int| 0 <= p < q < r@.len() implies r@[p] != r@[q] by {
                    if q == prev.len() {
                        assert(prev.contains(r@[p]));
                    }
                }
            }
        }
        proof {
            assert(v@.take(i + 1) =~= v@.take(i as int).push(x));
            assert forall|y: usize| #[trigger] r@.contains(y) <==> v@.take(i + 1).contains(y) && y != a by {
                lemma_push_contains(v@.take(i as int), x, y);
                if x != a {
                    lemma_push_contains(prev, x, y);
                }
            }
        }
        i = i + 1;
    }
    assert(v@.take(v@.len() as int) =~= v@);
    r
}

} // verus!
