//! Peer discovery over the BitTorrent DHT: the decisions of the lookup rounds and of the
//! contacts store. The DHT itself runs in the caller.

use crate::ip::SocketAddr;
use crate::peer_addr::PeerAddr;
use crate::random::random_in_range;
use crate::seen_peers::{after_new_round, SeenEntry, SeenPeersInner};
use vstd::prelude::*;

verus! {

/// Least seconds before a repository is announced again. The actual delay is uniformly random
/// between this and the maximum: after 15 minutes of inactivity a DHT node becomes
/// questionable, so the delay stays well below that, but too frequent updates may get us
/// blacklisted.
pub const MIN_DHT_ANNOUNCE_DELAY_SECS: u64 = 180;

/// Most seconds (exclusive) before a repository is announced again.
pub const MAX_DHT_ANNOUNCE_DELAY_SECS: u64 = 360;

/// Seconds to let the DHT bootstrap before its contacts are first read.
pub const CONTACTS_FIRST_READ_DELAY_SECS: u64 = 10;

/// Seconds between two reads of the DHT's contacts.
pub const CONTACTS_READ_INTERVAL_SECS: u64 = 60;

/// Seconds before the next lookup round.
pub fn announce_delay_secs() -> (r: u64)
    ensures
        MIN_DHT_ANNOUNCE_DELAY_SECS <= r < MAX_DHT_ANNOUNCE_DELAY_SECS,
{
    random_in_range(MIN_DHT_ANNOUNCE_DELAY_SECS, MAX_DHT_ANNOUNCE_DELAY_SECS)
}

/// Whether the lookup also announces us: so when at least one of its requests wants it.
pub fn should_announce(announce: &[bool]) -> (r: bool)
    ensures
        r == exists|i: int| 0 <= i < announce@.len() && announce@[i],
{
    let mut i: usize = 0;
    while i < announce.len()
        invariant
            i <= announce@.len(),
            forall|j: int| 0 <= j < i ==> !announce@[j],
        decreases announce@.len() - i,
    {
        if announce[i] {
            return true;
        }
        i = i + 1;
    }
    false
}

/// The contacts to store for one address family: the good and the questionable ones of that
/// family, each once.
pub fn contacts_of_family(good: &[SocketAddr], questionable: &[SocketAddr], v4: bool) -> (r: Vec<SocketAddr>)
    ensures
        r@.no_duplicates(),
        forall|a: SocketAddr| #[trigger] r@.contains(a) <==> (good@.contains(a) || questionable@.contains(a)) && (a is V4) == v4,
{
    let mut r: Vec<SocketAddr> = Vec::new();
    add_family(&mut r, good, v4);
    add_family(&mut r, questionable, v4);
    r
}

fn add_family(r: &mut Vec<SocketAddr>, from: &[SocketAddr], v4: bool)
    requires
        old(r)@.no_duplicates(),
    ensures
        final(r)@.no_duplicates(),
        forall|a: SocketAddr| #[trigger] final(r)@.contains(a) <==> old(r)@.contains(a) || (from@.contains(a) && (a is V4) == v4),
{
    let mut i: usize = 0;
    while i < from.len()
        invariant
            i <= from@.len(),
            r@.no_duplicates(),
            forall|a: SocketAddr| #[trigger] r@.contains(a) <==> old(r)@.contains(a) || (from@.take(i as int).contains(a) && (a is V4) == v4),
        decreases from@.len() - i,
    {
        let a = from[i];
        let is_v4 = match a {
            SocketAddr::V4(..) => true,
            SocketAddr::V6(..) => false,
        };
        let ghost prev = r@;
        if is_v4 == v4 && !contains_socket(r, &a) {
            r.push(a);
            proof {
                assert forall|x: int, y: int| 0 <= x < y < r@.len() implies r@[x] != r@[y] by {
                    if y == prev.len() {
                        assert(prev.contains(r@[x]));
                    }
                }
            }
        }
        proof {
            assert(from@.take(i + 1) =~= from@.take(i as int).push(a));
            assert forall|b: SocketAddr| #[trigger] r@.contains(b) <==> old(r)@.contains(b) || (from@.take(i + 1).contains(b) && (b is V4) == v4) by {
                lemma_push_has(from@.take(i as int), a, b);
                if r@ != prev {
                    lemma_push_has(prev, a, b);
                }
            }
        }
        i = i + 1;
    }
    assert(from@.take(from@.len() as int) =~= from@);
}

proof fn lemma_push_has<A>(s: Seq<A>, x: A, y: A)
    ensures
        s.push(x).contains(y) <==> (s.contains(y) || y == x),
{
    if s.contains(y) {
        let t = choose|t: int| 0 <= t < s.len() && s[t] == y;
        assert(s.push(x)[t] == y);
    }
    if y == x {
        assert(s.push(x)[s.len() as int] == y);
    }
    if s.push(x).contains(y) {
        let t = choose|t: int| 0 <= t < s.push(x).len() && s.push(x)[t] == y;
        if t < s.len() {
            assert(s[t] == y);
        }
    }
}

fn contains_socket(v: &Vec<SocketAddr>, a: &SocketAddr) -> (r: bool)
    ensures
        r == v@.contains(*a),
{
    let mut i: usize = 0;
    while i < v.len()
        invariant
            i <= v@.len(),
            forall|j: int| 0 <= j < i ==> v@[j] != *a,
        decreases v@.len() - i,
    {
        if v[i] == *a {
            return true;
        }
        i = i + 1;
    }
    false
}

/// The peers a lookup found, across its rounds.
pub struct LookupPeers {
    pub seen: SeenPeersInner,
}

impl LookupPeers {
    pub fn new() -> (r: Self)
        ensures
            r.seen.wf(),
            r.seen.current() == 0,
            r.seen.view() == Map::<PeerAddr, SeenEntry>::empty(),
    {
        LookupPeers { seen: SeenPeersInner::new() }
    }

    /// Notes a peer found at `addr` (DHT peers are QUIC peers). Returns whether it is to be
    /// reported to the lookup's requests: so when it was not seen in a recent round.
    pub fn peer_found(&mut self, addr: SocketAddr) -> (r: bool)
        requires
            old(self).seen.wf(),
            old(self).seen.view().contains_key(PeerAddr::Quic(addr)) ==> old(self).seen.view()[PeerAddr::Quic(addr)].rc
                < usize::MAX,
        ensures
            final(self).seen.wf(),
            r == !(old(self).seen.view().contains_key(PeerAddr::Quic(addr)) && exists|x: u64|
                old(self).seen.view()[PeerAddr::Quic(addr)].rounds.contains(x)),
            final(self).seen.view().contains_key(PeerAddr::Quic(addr)),
            final(self).seen.current() == old(self).seen.current(),
    {
        self.seen.insert(PeerAddr::Quic(addr))
    }
}


/// Where a lookup is in its rounds.
#[derive(Clone, Copy, PartialEq, Eq, Debug, Structural)]
pub enum LookupPhase {
    /// Waiting for the first request of the lookup.
    AwaitingRequest,
    /// A search of the DHTs is running.
    Searching,
    /// Waiting between two searches.
    Sleeping,
}

/// What happened to a lookup.
#[derive(Clone, Copy, PartialEq, Eq, Debug)]
pub enum LookupEvent {
    /// A request of the lookup was made.
    RequestMade,
    /// The search found a peer at this address.
    PeerFound(SocketAddr),
    /// The search ended.
    SearchEnded,
    /// The wait between two searches passed.
    DelayPassed,
}

/// What a lookup does next.
#[derive(Clone, Copy, PartialEq, Eq, Debug)]
pub enum LookupAction {
    /// Search the DHTs for the repository, announcing us as well when `announce`.
    Search { announce: bool },
    /// Tell each request of the lookup that the peer at this address was found.
    ReportPeer(PeerAddr),
    /// Tell each request that the round ended, then wait this many seconds (or until a request
    /// is made) before the next search.
    EndRound { delay_secs: u64 },
    /// Nothing to do.
    Nothing,
}

/// The decisions of one lookup: a round searches the DHTs and reports the peers not seen
/// recently; between rounds it waits a random delay, cut short by a new request.
pub struct LookupMachine {
    pub phase: LookupPhase,
    /// A request was made during the current search.
    pub woken: bool,
    pub peers: LookupPeers,
}

impl LookupMachine {
    pub fn new() -> (r: Self)
        ensures
            r.phase == LookupPhase::AwaitingRequest,
            !r.woken,
            r.peers.seen.wf(),
            r.peers.seen.current() == 0,
            r.peers.seen.view() == Map::<PeerAddr, SeenEntry>::empty(),
    {
        LookupMachine { phase: LookupPhase::AwaitingRequest, woken: false, peers: LookupPeers::new() }
    }

    /// Advances the lookup by one event; `announce` tells, for each request of the lookup,
    /// whether it wants us announced.
    ///
    /// - The first request, or the end of the wait between searches, starts a round: the seen
    ///   peers move to a new round and the DHTs are searched, announcing us when some request
    ///   wants it.
    /// - A peer found by the search is reported when it was not seen in a recent round.
    /// - The end of the search ends the round with a random wait of at least
    ///   `MIN_DHT_ANNOUNCE_DELAY_SECS` and less than `MAX_DHT_ANNOUNCE_DELAY_SECS` seconds, or
    ///   none where a request was made during the search.
    /// - A request made while waiting between searches starts the next round at once.
    pub fn step(&mut self, event: LookupEvent, announce: &[bool]) -> (r: LookupAction)
        requires
            old(self).peers.seen.wf(),
            old(self).peers.seen.current() < u64::MAX,
            old(self).phase == LookupPhase::Searching ==> (event matches LookupEvent::PeerFound(a) ==> (
            old(self).peers.seen.view().contains_key(PeerAddr::Quic(a)) ==> old(
                self,
            ).peers.seen.view()[PeerAddr::Quic(a)].rc < usize::MAX)),
        ensures
            final(self).peers.seen.wf(),
            // A round starts.
            (old(self).phase == LookupPhase::AwaitingRequest && event == LookupEvent::RequestMade)
                || (old(self).phase == LookupPhase::Sleeping && (event == LookupEvent::RequestMade || event
                == LookupEvent::DelayPassed)) ==> {
                &&& r == (LookupAction::Search {
                    announce: exists|i: int| 0 <= i < announce@.len() && announce@[i],
                })
                &&& final(self).phase == LookupPhase::Searching
                &&& !final(self).woken
                &&& final(self).peers.seen.current() == old(self).peers.seen.current() + 1
                &&& final(self).peers.seen.view() == after_new_round(
                    old(self).peers.seen.view(),
                    final(self).peers.seen.current(),
                )
            },
            // A peer is found.
            old(self).phase == LookupPhase::Searching ==> (event matches LookupEvent::PeerFound(a) ==> {
                let addr = PeerAddr::Quic(a);
                let v = old(self).peers.seen.view();
                &&& r == if !(v.contains_key(addr) && exists|x: u64| v[addr].rounds.contains(x)) {
                    LookupAction::ReportPeer(addr)
                } else {
                    LookupAction::Nothing
                }
                &&& final(self).phase == LookupPhase::Searching
                &&& final(self).woken == old(self).woken
                &&& final(self).peers.seen.view().contains_key(addr)
                &&& final(self).peers.seen.current() == old(self).peers.seen.current()
            }),
            // The search ends.
            old(self).phase == LookupPhase::Searching && event == LookupEvent::SearchEnded ==> {
                &&& r matches LookupAction::EndRound { delay_secs } && if old(self).woken {
                    delay_secs == 0
                } else {
                    MIN_DHT_ANNOUNCE_DELAY_SECS <= delay_secs < MAX_DHT_ANNOUNCE_DELAY_SECS
                }
                &&& final(self).phase == LookupPhase::Sleeping
                &&& !final(self).woken
                &&& final(self).peers.seen == old(self).peers.seen
            },
            // A request made during a search shortens the wait after it.
            old(self).phase == LookupPhase::Searching && event == LookupEvent::RequestMade ==> r
                == LookupAction::Nothing && final(self).phase == LookupPhase::Searching && final(self).woken
                && final(self).peers.seen == old(self).peers.seen,
            // Anything else changes nothing.
            !(old(self).phase == LookupPhase::Searching) && !(event == LookupEvent::RequestMade) && !(
            old(self).phase == LookupPhase::Sleeping && event == LookupEvent::DelayPassed) ==> r
                == LookupAction::Nothing && final(self).phase == old(self).phase && final(self).woken == old(
                self,
            ).woken && final(self).peers.seen == old(self).peers.seen,
    {
        match (self.phase, event) {
            (LookupPhase::AwaitingRequest, LookupEvent::RequestMade)
            | (LookupPhase::Sleeping, LookupEvent::RequestMade)
            | (LookupPhase::Sleeping, LookupEvent::DelayPassed) => {
                self.peers.seen.start_new_round();
                self.phase = LookupPhase::Searching;
                self.woken = false;
                LookupAction::Search { announce: should_announce(announce) }
            },
            (LookupPhase::Searching, LookupEvent::PeerFound(a)) => {
                if self.peers.peer_found(a) {
                    LookupAction::ReportPeer(PeerAddr::Quic(a))
                } else {
                    LookupAction::Nothing
                }
            },
            (LookupPhase::Searching, LookupEvent::SearchEnded) => {
                let delay_secs = if self.woken {
                    0
                } else {
                    announce_delay_secs()
                };
                self.phase = LookupPhase::Sleeping;
                self.woken = false;
                LookupAction::EndRound { delay_secs }
            },
            (LookupPhase::Searching, LookupEvent::RequestMade) => {
                self.woken = true;
                LookupAction::Nothing
            },
            _ => LookupAction::Nothing,
        }
    }
}

} // verus!
