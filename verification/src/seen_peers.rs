//! Peers found by the discovery mechanisms (local discovery, DHT, peer exchange, ...).
//!
//! When connecting to a found peer fails, the networking code keeps retrying for as long as the
//! discovery mechanism still sees the peer: a peer stays available while it was seen in one of
//! the last `REMOVE_AFTER_ROUND_COUNT + 1` discovery rounds. Each handle to a peer holds a
//! reference; a peer's entry goes away once no handle refers to it and it was not seen
//! recently.

use crate::peer_addr::PeerAddr;
use vstd::prelude::*;

verus! {

/// When a peer has not been seen after this many rounds, it is removed.
pub const REMOVE_AFTER_ROUND_COUNT: u64 = 2;

/// What is known of a seen peer: how many handles refer to it and the recent rounds in which
/// it was seen.
pub struct SeenEntry {
    pub rc: nat,
    pub rounds: Set<u64>,
}

/// The set of rounds in a sequence.
pub open spec fn round_set(s: Seq<u64>) -> Set<u64> {
    Set::new(|r: u64| s.contains(r))
}

/// Whether round `r` is still recent when `current` is the current round.
pub open spec fn recent(r: u64, current: u64) -> bool {
    r + REMOVE_AFTER_ROUND_COUNT >= current
}

/// One peer's entry.
pub struct PeerEntry {
    pub addr: PeerAddr,
    pub rc: usize,
    pub rounds: Vec<u64>,
}

pub open spec fn entry_view(e: PeerEntry) -> SeenEntry {
    SeenEntry { rc: e.rc as nat, rounds: round_set(e.rounds@) }
}

/// Whether some entry has the address.
pub open spec fn has_addr(s: Seq<PeerEntry>, a: PeerAddr) -> bool {
    exists|i: int| 0 <= i < s.len() && s[i].addr == a
}

/// The entries by address.
pub open spec fn entries_view(s: Seq<PeerEntry>) -> Map<PeerAddr, SeenEntry> {
    Map::new(
        |a: PeerAddr| has_addr(s, a),
        |a: PeerAddr| entry_view(s[choose|i: int| 0 <= i < s.len() && s[i].addr == a]),
    )
}

/// The addresses of the entries are distinct.
pub open spec fn distinct_addrs(s: Seq<PeerEntry>) -> bool {
    forall|i: int, j: int| 0 <= i < j < s.len() ==> s[i].addr != s[j].addr
}

proof fn lemma_entry_at(s: Seq<PeerEntry>, i: int)
    requires
        distinct_addrs(s),
        0 <= i < s.len(),
    ensures
        entries_view(s).contains_key(s[i].addr),
        entries_view(s)[s[i].addr] == entry_view(s[i]),
{
    let a = s[i].addr;
    assert(has_addr(s, a));
    let k = choose|k: int| 0 <= k < s.len() && s[k].addr == a;
    assert(k == i);
}

proof fn lemma_view_update(s: Seq<PeerEntry>, i: int, e: PeerEntry)
    requires
        distinct_addrs(s),
        0 <= i < s.len(),
        e.addr == s[i].addr,
    ensures
        distinct_addrs(s.update(i, e)),
        entries_view(s.update(i, e)) == entries_view(s).insert(e.addr, entry_view(e)),
{
    let t = s.update(i, e);
    assert forall|x: int, y: int| 0 <= x < y < t.len() implies t[x].addr != t[y].addr by {
        assert(s[x].addr != s[y].addr);
    }
    let v = entries_view(s).insert(e.addr, entry_view(e));
    assert forall|a: PeerAddr| #[trigger] entries_view(t).contains_key(a) <==> v.contains_key(a) by {
        if has_addr(s, a) {
            let k = choose|k: int| 0 <= k < s.len() && s[k].addr == a;
            assert(t[k].addr == a);
        }
        if has_addr(t, a) {
            let k = choose|k: int| 0 <= k < t.len() && t[k].addr == a;
            assert(s[k].addr == a);
        }
    }
    assert forall|a: PeerAddr| #[trigger] entries_view(t).contains_key(a) implies entries_view(t)[a] == v[a] by {
        let k = choose|k: int| 0 <= k < t.len() && t[k].addr == a;
        lemma_entry_at(t, k);
        if k != i {
            lemma_entry_at(s, k);
        }
    }
    assert(entries_view(t) =~= v);
}

proof fn lemma_view_push(s: Seq<PeerEntry>, e: PeerEntry)
    requires
        distinct_addrs(s),
        !has_addr(s, e.addr),
    ensures
        distinct_addrs(s.push(e)),
        entries_view(s.push(e)) == entries_view(s).insert(e.addr, entry_view(e)),
{
    let t = s.push(e);
    assert forall|x: int, y: int| 0 <= x < y < t.len() implies t[x].addr != t[y].addr by {
        if y == s.len() {
            assert(s[x].addr == t[x].addr);
        } else {
            assert(s[x].addr != s[y].addr);
        }
    }
    let v = entries_view(s).insert(e.addr, entry_view(e));
    assert forall|a: PeerAddr| #[trigger] entries_view(t).contains_key(a) <==> v.contains_key(a) by {
        if has_addr(s, a) {
            let k = choose|k: int| 0 <= k < s.len() && s[k].addr == a;
            assert(t[k].addr == a);
        }
        if a == e.addr {
            assert(t[s.len() as int].addr == a);
        }
        if has_addr(t, a) {
            let k = choose|k: int| 0 <= k < t.len() && t[k].addr == a;
            if k < s.len() {
                assert(s[k].addr == a);
            }
        }
    }
    assert forall|a: PeerAddr| #[trigger] entries_view(t).contains_key(a) implies entries_view(t)[a] == v[a] by {
        let k = choose|k: int| 0 <= k < t.len() && t[k].addr == a;
        lemma_entry_at(t, k);
        if k < s.len() {
            lemma_entry_at(s, k);
        }
    }
    assert(entries_view(t) =~= v);
}

proof fn lemma_view_remove(s: Seq<PeerEntry>, i: int)
    requires
        distinct_addrs(s),
        0 <= i < s.len(),
    ensures
        distinct_addrs(s.remove(i)),
        entries_view(s.remove(i)) == entries_view(s).remove(s[i].addr),
{
    let t = s.remove(i);
    let gone = s[i].addr;
    assert forall|x: int, y: int| 0 <= x < y < t.len() implies t[x].addr != t[y].addr by {
        let x0 = if x < i { x } else { x + 1 };
        let y0 = if y < i { y } else { y + 1 };
        assert(t[x] == s[x0] && t[y] == s[y0]);
    }
    let v = entries_view(s).remove(gone);
    assert forall|a: PeerAddr| #[trigger] entries_view(t).contains_key(a) <==> v.contains_key(a) by {
        if has_addr(t, a) {
            let k = choose|k: int| 0 <= k < t.len() && t[k].addr == a;
            let k0 = if k < i { k } else { k + 1 };
            assert(s[k0].addr == a);
            assert(k0 != i);
        }
        if has_addr(s, a) && a != gone {
            let k = choose|k: int| 0 <= k < s.len() && s[k].addr == a;
            assert(k != i);
            if k < i {
                assert(t[k].addr == a);
            } else {
                assert(t[k - 1].addr == a);
            }
        }
    }
    assert forall|a: PeerAddr| #[trigger] entries_view(t).contains_key(a) implies entries_view(t)[a] == v[a] by {
        let k = choose|k: int| 0 <= k < t.len() && t[k].addr == a;
        lemma_entry_at(t, k);
        let k0 = if k < i { k } else { k + 1 };
        assert(t[k] == s[k0]);
        lemma_entry_at(s, k0);
    }
    assert(entries_view(t) =~= v);
}

/// The entries after a new round `current` started: old rounds are forgotten, and peers that no
/// handle refers to and that were not seen recently go away.
pub open spec fn after_new_round(v: Map<PeerAddr, SeenEntry>, current: u64) -> Map<PeerAddr, SeenEntry> {
    Map::new(
        |a: PeerAddr| v.contains_key(a) && (v[a].rc > 0 || exists|r: u64| v[a].rounds.contains(r) && recent(r, current)),
        |a: PeerAddr| SeenEntry { rc: v[a].rc, rounds: v[a].rounds.filter(|r: u64| recent(r, current)) },
    )
}

/// The state shared by all handles of the seen peers.
pub struct SeenPeersInner {
    current_round_id: u64,
    peers: Vec<PeerEntry>,
}

impl SeenPeersInner {
    pub closed spec fn current(&self) -> u64 {
        self.current_round_id
    }

    pub closed spec fn view(&self) -> Map<PeerAddr, SeenEntry> {
        entries_view(self.peers@)
    }

    /// Addresses are distinct, each entry's rounds are distinct and recent, and each entry is
    /// referred to by a handle or was seen recently.
    pub closed spec fn wf(&self) -> bool {
        &&& distinct_addrs(self.peers@)
        &&& forall|i: int|
            0 <= i < self.peers@.len() ==> {
                let e = #[trigger] self.peers@[i];
                &&& e.rounds@.no_duplicates()
                &&& forall|j: int| 0 <= j < e.rounds@.len() ==> e.rounds@[j] <= self.current_round_id && recent(
                    #[trigger] e.rounds@[j],
                    self.current_round_id,
                )
                &&& e.rc > 0 || e.rounds@.len() > 0
            }
    }

    pub fn new() -> (r: Self)
        ensures
            r.wf(),
            r.current() == 0,
            r.view() == Map::<PeerAddr, SeenEntry>::empty(),
    {
        let r = SeenPeersInner { current_round_id: 0, peers: Vec::new() };
        assert(r.view() =~= Map::<PeerAddr, SeenEntry>::empty());
        r
    }

    fn find(&self, addr: &PeerAddr) -> (r: Option<usize>)
        requires
            self.wf(),
        ensures
            r matches Some(i) ==> i < self.peers@.len() && self.peers@[i as int].addr == *addr,
            r is None ==> !has_addr(self.peers@, *addr),
    {
        let mut i: usize = 0;
        while i < self.peers.len()
            invariant
                i <= self.peers@.len(),
                forall|j: int| 0 <= j < i ==> self.peers@[j].addr != *addr,
            decreases self.peers@.len() - i,
        {
            if self.peers[i].addr == *addr {
                return Some(i);
            }
            i = i + 1;
        }
        None
    }

    /// Starts a new discovery round: rounds older than `REMOVE_AFTER_ROUND_COUNT` rounds before
    /// it are forgotten, and so are the peers that no handle refers to and that were not seen
    /// since.
    pub fn start_new_round(&mut self)
        requires
            old(self).wf(),
            old(self).current() < u64::MAX,
        ensures
            final(self).wf(),
            final(self).current() == old(self).current() + 1,
            final(self).view() == after_new_round(old(self).view(), final(self).current()),
    {
        let current = self.current_round_id + 1;
        let ghost old_peers = self.peers@;
        let ghost old_view = self.view();
        let mut kept: Vec<PeerEntry> = Vec::new();
        let mut i: usize = 0;
        let mut peers: Vec<PeerEntry> = Vec::new();
        std::mem::swap(&mut peers, &mut self.peers);
        assert(peers@ == old_peers);
        while i < peers.len()
            invariant
                i <= peers@.len(),
                peers@ == old_peers,
                distinct_addrs(old_peers),
                old_view == entries_view(old_peers),
                current == old(self).current_round_id + 1,
                forall|k: int|
                    0 <= k < old_peers.len() ==> {
                        let e = #[trigger] old_peers[k];
                        &&& e.rounds@.no_duplicates()
                        &&& e.rc > 0 || e.rounds@.len() > 0
                        &&& forall|j: int| 0 <= j < e.rounds@.len() ==> e.rounds@[j] < current
                    },
                distinct_addrs(kept@),
                forall|k: int| 0 <= k < kept@.len() ==> {
                    let e = #[trigger] kept@[k];
                    &&& e.rounds@.no_duplicates()
                    &&& forall|j: int| 0 <= j < e.rounds@.len() ==> e.rounds@[j] <= current && recent(
                        #[trigger] e.rounds@[j],
                        current,
                    )
                    &&& e.rc > 0 || e.rounds@.len() > 0
                },
                forall|a: PeerAddr| #[trigger] has_addr(kept@, a) ==> exists|k: int| 0 <= k < i && old_peers[k].addr == a,
                entries_view(kept@) == after_new_round(
                    entries_view(old_peers.take(i as int)),
                    current,
                ),
            decreases peers@.len() - i,
        {
            let e = &peers[i];
            let rounds = prune_rounds(&e.rounds, current);
            let ghost prev = old_peers.take(i as int);
            proof {
                assert(old_peers.take(i + 1) =~= prev.push(old_peers[i as int]));
                assert(distinct_addrs(prev)) by {
                    assert forall|x: int, y: int| 0 <= x < y < prev.len() implies prev[x].addr != prev[y].addr by {
                        assert(old_peers[x].addr != old_peers[y].addr);
                    }
                }
                assert(!has_addr(prev, e.addr)) by {
                    if has_addr(prev, e.addr) {
                        let k = choose|k: int| 0 <= k < prev.len() && prev[k].addr == e.addr;
                        assert(old_peers[k].addr != old_peers[i as int].addr);
                    }
                }
                lemma_view_push(prev, old_peers[i as int]);
                lemma_after_new_round_insert(entries_view(prev), e.addr, entry_view(*e), current);
            }
            if e.rc > 0 || rounds.len() > 0 {
                let ne = PeerEntry { addr: e.addr, rc: e.rc, rounds };
                proof {
                    assert(!has_addr(kept@, ne.addr)) by {
                        if has_addr(kept@, ne.addr) {
                            let k = choose|k: int| 0 <= k < i && old_peers[k].addr == ne.addr;
                            assert(old_peers[k].addr != old_peers[i as int].addr);
                        }
                    }
                    lemma_view_push(kept@, ne);
                    lemma_recent_rounds(entry_view(*e).rounds, round_set(ne.rounds@), current);
                    if e.rc == 0 {
                        let j = 0int;
                        assert(round_set(ne.rounds@).contains(ne.rounds@[j]));
                    }
                }
                let ghost kept_before = kept@;
                kept.push(ne);
                proof {
                    assert forall|a: PeerAddr| #[trigger] has_addr(kept@, a) implies exists|k: int|
                        0 <= k < i + 1 && old_peers[k].addr == a by {
                        let k = choose|k: int| 0 <= k < kept@.len() && kept@[k].addr == a;
                        if k < kept_before.len() {
                            assert(kept_before[k].addr == a);
                            assert(has_addr(kept_before, a));
                        } else {
                            assert(old_peers[i as int].addr == a);
                        }
                    }
                }
            } else {
                proof {
                    assert(rounds@.len() == 0);
                    assert forall|r: u64| !(entry_view(*e).rounds.contains(r) && recent(r, current)) by {
                        if entry_view(*e).rounds.contains(r) && recent(r, current) {
                            assert(round_set(rounds@).contains(r));
                        }
                    }
                }
            }
            i = i + 1;
        }
        proof {
            assert(old_peers.take(old_peers.len() as int) =~= old_peers);
        }
        self.current_round_id = current;
        self.peers = kept;
    }

    /// Notes that the peer was seen in the current round. Returns whether a new handle to it was
    /// made: that is so exactly when it was not seen in any recent round, in which case the
    /// handle adds a reference to it.
    pub fn insert(&mut self, addr: PeerAddr) -> (r: bool)
        requires
            old(self).wf(),
            old(self).view().contains_key(addr) ==> old(self).view()[addr].rc < usize::MAX,
        ensures
            final(self).wf(),
            final(self).current() == old(self).current(),
            r == !(old(self).view().contains_key(addr) && exists|x: u64| old(self).view()[addr].rounds.contains(x)),
            final(self).view().contains_key(addr),
            final(self).view()[addr].rounds == (if old(self).view().contains_key(addr) {
                old(self).view()[addr].rounds
            } else {
                Set::empty()
            }).insert(old(self).current()),
            final(self).view()[addr].rc == (if old(self).view().contains_key(addr) {
                old(self).view()[addr].rc
            } else {
                0
            }) + if r { 1nat } else { 0nat },
            forall|a: PeerAddr| a != addr ==> (#[trigger] final(self).view().contains_key(a) == old(self).view().contains_key(a)
                && (old(self).view().contains_key(a) ==> final(self).view()[a] == old(self).view()[a])),
    {
        let current = self.current_round_id;
        match self.find(&addr) {
            Some(i) => {
                proof {
                    lemma_entry_at(self.peers@, i as int);
                }
                let ghost before = self.peers@;
                let mut e = self.peers.remove(i);
                let was_empty = e.rounds.len() == 0;
                let seen_now = contains_round(&e.rounds, current);
                if seen_now {
                    proof {
                        assert(round_set(e.rounds@).contains(current));
                        assert(old(self).view()[addr].rounds.contains(current));
                    }
                    self.peers.insert(i, e);
                    proof {
                        assert(self.peers@ =~= before);
                    }
                    return false;
                }
                let ghost old_rounds = e.rounds@;
                e.rounds.push(current);
                if was_empty {
                    e.rc = e.rc + 1;
                }
                proof {
                    assert(round_set(e.rounds@) =~= round_set(old_rounds).insert(current)) by {
                        assert forall|x: u64| round_set(e.rounds@).contains(x) <==> round_set(old_rounds).insert(current).contains(x) by {
                            if e.rounds@.contains(x) {
                                let j = choose|j: int| 0 <= j < e.rounds@.len() && e.rounds@[j] == x;
                                if j < old_rounds.len() {
                                    assert(old_rounds[j] == x);
                                }
                            }
                            if old_rounds.contains(x) {
                                let j = choose|j: int| 0 <= j < old_rounds.len() && old_rounds[j] == x;
                                assert(e.rounds@[j] == x);
                            }
                            if x == current {
                                assert(e.rounds@[old_rounds.len() as int] == x);
                            }
                        }
                    }
                    assert(old(self).view()[addr].rounds == round_set(old_rounds));
                    if !was_empty {
                        assert(round_set(old_rounds).contains(old_rounds[0]));
                        assert(old(self).view()[addr].rounds.contains(old_rounds[0]));
                    } else {
                        assert forall|x: u64| !old(self).view()[addr].rounds.contains(x) by {}
                    }
                }
                self.peers.insert(i, e);
                proof {
                    assert(self.peers@ =~= before.update(i as int, e));
                    lemma_view_update(before, i as int, e);
                }
                was_empty
            },
            None => {
                let mut rounds: Vec<u64> = Vec::new();
                rounds.push(current);
                let e = PeerEntry { addr, rc: 1, rounds };
                proof {
                    lemma_view_push(self.peers@, e);
                    assert(e.rounds@ =~= seq![current]);
                    assert forall|x: u64| round_set(e.rounds@).contains(x) <==> Set::<u64>::empty().insert(current).contains(x) by {
                        if x == current {
                            assert(e.rounds@[0] == x);
                        }
                    }
                    assert(round_set(e.rounds@) =~= Set::<u64>::empty().insert(current));
                }
                self.peers.push(e);
                assert(!old(self).view().contains_key(addr));
                true
            },
        }
    }
}

impl SeenPeersInner {
    /// Forgets the peer.
    pub fn remove(&mut self, addr: &PeerAddr)
        requires
            old(self).wf(),
        ensures
            final(self).wf(),
            final(self).current() == old(self).current(),
            final(self).view() == old(self).view().remove(*addr),
    {
        match self.find(addr) {
            Some(i) => {
                let ghost before = self.peers@;
                self.peers.remove(i);
                proof {
                    lemma_view_remove(before, i as int);
                    assert forall|k: int| 0 <= k < self.peers@.len() implies #[trigger] self.peers@[k] == before[if k < i { k } else { k + 1 }] by {}
                }
            },
            None => {
                assert(self.view() =~= old(self).view().remove(*addr));
            },
        }
    }

    /// The address of the peer while it was seen in a recent round, else `None`.
    pub fn seen_addr(&self, addr: &PeerAddr) -> (r: Option<PeerAddr>)
        requires
            self.wf(),
        ensures
            r is Some <==> self.view().contains_key(*addr) && exists|x: u64| self.view()[*addr].rounds.contains(x),
            r matches Some(a) ==> a == *addr,
    {
        match self.find(addr) {
            Some(i) => {
                proof {
                    lemma_entry_at(self.peers@, i as int);
                }
                if self.peers[i].rounds.len() == 0 {
                    proof {
                        assert forall|x: u64| !self.view()[*addr].rounds.contains(x) by {}
                    }
                    None
                } else {
                    proof {
                        let e = self.peers@[i as int];
                        assert(round_set(e.rounds@).contains(e.rounds@[0]));
                        assert(self.view()[*addr].rounds.contains(e.rounds@[0]));
                    }
                    Some(*addr)
                }
            },
            None => None,
        }
    }

    /// Takes one more reference to the peer (a handle to it was cloned).
    pub fn acquire(&mut self, addr: &PeerAddr)
        requires
            old(self).wf(),
            old(self).view().contains_key(*addr),
            old(self).view()[*addr].rc < usize::MAX,
        ensures
            final(self).wf(),
            final(self).current() == old(self).current(),
            final(self).view() == old(self).view().insert(
                *addr,
                (SeenEntry { rc: old(self).view()[*addr].rc + 1, rounds: old(self).view()[*addr].rounds }),
            ),
    {
        let i = self.find(addr).unwrap();
        proof {
            lemma_entry_at(self.peers@, i as int);
        }
        let ghost before = self.peers@;
        let mut e = self.peers.remove(i);
        e.rc = e.rc + 1;
        self.peers.insert(i, e);
        proof {
            assert(self.peers@ =~= before.update(i as int, e));
            lemma_view_update(before, i as int, e);
        }
    }

    /// Drops one reference to the peer (a handle to it was dropped). The peer is forgotten when
    /// no reference is left; nothing happens if it was removed already.
    pub fn release(&mut self, addr: &PeerAddr)
        requires
            old(self).wf(),
            old(self).view().contains_key(*addr) ==> old(self).view()[*addr].rc > 0,
        ensures
            final(self).wf(),
            final(self).current() == old(self).current(),
            !old(self).view().contains_key(*addr) ==> final(self).view() == old(self).view(),
            old(self).view().contains_key(*addr) && old(self).view()[*addr].rc == 1 ==> final(self).view()
                == old(self).view().remove(*addr),
            old(self).view().contains_key(*addr) && old(self).view()[*addr].rc > 1 ==> final(self).view()
                == old(self).view().insert(
                *addr,
                (SeenEntry { rc: (old(self).view()[*addr].rc - 1) as nat, rounds: old(self).view()[*addr].rounds }),
            ),
    {
        match self.find(addr) {
            Some(i) => {
                proof {
                    lemma_entry_at(self.peers@, i as int);
                }
                let ghost before = self.peers@;
                let mut e = self.peers.remove(i);
                e.rc = e.rc - 1;
                if e.rc == 0 {
                    proof {
                        lemma_view_remove(before, i as int);
                        assert forall|k: int| 0 <= k < self.peers@.len() implies #[trigger] self.peers@[k] == before[if k < i { k } else { k + 1 }] by {}
                    }
                } else {
                    self.peers.insert(i, e);
                    proof {
                        assert(self.peers@ =~= before.update(i as int, e));
                        lemma_view_update(before, i as int, e);
                    }
                }
            },
            None => {},
        }
    }

    /// Handles to all the peers seen in a recent round; each takes a reference to its peer.
    pub fn collect(&mut self) -> (r: Vec<PeerAddr>)
        requires
            old(self).wf(),
            forall|a: PeerAddr| #[trigger] old(self).view().contains_key(a) ==> old(self).view()[a].rc < usize::MAX,
        ensures
            final(self).wf(),
            final(self).current() == old(self).current(),
            r@.no_duplicates(),
            forall|a: PeerAddr| #[trigger] r@.contains(a) <==> old(self).view().contains_key(a) && exists|x: u64|
                old(self).view()[a].rounds.contains(x),
            final(self).view().dom() == old(self).view().dom(),
            forall|a: PeerAddr| #[trigger] old(self).view().contains_key(a) ==> final(self).view()[a] == (SeenEntry {
                rc: old(self).view()[a].rc + if r@.contains(a) { 1nat } else { 0nat },
                rounds: old(self).view()[a].rounds,
            }),
    {
        let ghost old_peers = self.peers@;
        let mut r: Vec<PeerAddr> = Vec::new();
        let mut i: usize = 0;
        while i < self.peers.len()
            invariant
                i <= self.peers@.len(),
                self.peers@.len() == old_peers.len(),
                self.current_round_id == old(self).current_round_id,
                old_peers == old(self).peers@,
                old(self).wf(),
                forall|a: PeerAddr| #[trigger] old(self).view().contains_key(a) ==> old(self).view()[a].rc < usize::MAX,
                forall|k: int| 0 <= k < old_peers.len() ==> (#[trigger] self.peers@[k]).addr == old_peers[k].addr
                    && self.peers@[k].rounds == old_peers[k].rounds && self.peers@[k].rc == old_peers[k].rc + (if k < i
                    && old_peers[k].rounds@.len() > 0 { 1int } else { 0int }),
                r@.no_duplicates(),
                forall|a: PeerAddr| #[trigger] r@.contains(a) <==> exists|k: int| 0 <= k < i && old_peers[k].addr == a
                    && old_peers[k].rounds@.len() > 0,
            decreases self.peers@.len() - i,
        {
            proof {
                lemma_entry_at(old_peers, i as int);
                assert(old(self).view().contains_key(old_peers[i as int].addr));
                assert(self.peers@[i as int].rc == old_peers[i as int].rc);
            }
            if self.peers[i].rounds.len() > 0 {
                let ghost before = self.peers@;
                let mut e = self.peers.remove(i);
                e.rc = e.rc + 1;
                let a = e.addr;
                self.peers.insert(i, e);
                proof {
                    assert(self.peers@ =~= before.update(i as int, e));
                    assert(!r@.contains(a)) by {
                        if r@.contains(a) {
                            let k = choose|k: int| 0 <= k < i && old_peers[k].addr == a && old_peers[k].rounds@.len() > 0;
                            assert(old_peers[k].addr != old_peers[i as int].addr);
                        }
                    }
                }
                let ghost r_before = r@;
                r.push(a);
                proof {
                    assert forall|x: int, y: int| 0 <= x < y < r@.len() implies r@[x] != r@[y] by {
                        if y == r_before.len() {
                            assert(r_before.contains(r@[x]));
                        }
                    }
                    assert forall|b: PeerAddr| #[trigger] r@.contains(b) <==> exists|k: int| 0 <= k < i + 1 && old_peers[k].addr == b
                        && old_peers[k].rounds@.len() > 0 by {
                        if r@.contains(b) && b != a {
                            let j = choose|j: int| 0 <= j < r@.len() && r@[j] == b;
                            assert(r_before[j] == b);
                            assert(r_before.contains(b));
                        }
                        if b == a {
                            assert(r@[r_before.len() as int] == b);
                        }
                        if (exists|k: int| 0 <= k < i + 1 && old_peers[k].addr == b && old_peers[k].rounds@.len() > 0) && b != a {
                            let k = choose|k: int| 0 <= k < i + 1 && old_peers[k].addr == b && old_peers[k].rounds@.len() > 0;
                            assert(k != i);
                            assert(r_before.contains(b));
                            let j = choose|j: int| 0 <= j < r_before.len() && r_before[j] == b;
                            assert(r@[j] == b);
                        }
                    }
                }
            } else {
                proof {
                    assert forall|b: PeerAddr| #[trigger] r@.contains(b) <==> exists|k: int| 0 <= k < i + 1 && old_peers[k].addr == b
                        && old_peers[k].rounds@.len() > 0 by {
                        if exists|k: int| 0 <= k < i + 1 && old_peers[k].addr == b && old_peers[k].rounds@.len() > 0 {
                            let k = choose|k: int| 0 <= k < i + 1 && old_peers[k].addr == b && old_peers[k].rounds@.len() > 0;
                            assert(k != i);
                        }
                    }
                }
            }
            i = i + 1;
        }
        proof {
            assert(distinct_addrs(self.peers@)) by {
                assert forall|x: int, y: int| 0 <= x < y < self.peers@.len() implies self.peers@[x].addr != self.peers@[y].addr by {
                    assert(old_peers[x].addr != old_peers[y].addr);
                }
            }
            assert forall|k: int| 0 <= k < self.peers@.len() implies #[trigger] entries_view(self.peers@)[self.peers@[k].addr] == entry_view(self.peers@[k]) by {
                lemma_entry_at(self.peers@, k);
            }
            assert forall|a: PeerAddr| #[trigger] r@.contains(a) <==> old(self).view().contains_key(a) && exists|x: u64|
                old(self).view()[a].rounds.contains(x) by {
                if r@.contains(a) {
                    let k = choose|k: int| 0 <= k < i && old_peers[k].addr == a && old_peers[k].rounds@.len() > 0;
                    lemma_entry_at(old_peers, k);
                    assert(round_set(old_peers[k].rounds@).contains(old_peers[k].rounds@[0]));
                    assert(old(self).view()[a].rounds.contains(old_peers[k].rounds@[0]));
                }
                if old(self).view().contains_key(a) && exists|x: u64| old(self).view()[a].rounds.contains(x) {
                    assert(has_addr(old_peers, a));
                    let k = choose|k: int| 0 <= k < old_peers.len() && old_peers[k].addr == a;
                    lemma_entry_at(old_peers, k);
                    let x = choose|x: u64| old(self).view()[a].rounds.contains(x);
                    assert(old_peers[k].rounds@.contains(x));
                    assert(old_peers[k].rounds@.len() > 0);
                    assert(k < i);
                    assert(r@.contains(a));
                }
            }
            assert(self.view().dom() =~= old(self).view().dom()) by {
                assert forall|a: PeerAddr| self.view().dom().contains(a) <==> old(self).view().dom().contains(a) by {
                    if has_addr(self.peers@, a) {
                        let k = choose|k: int| 0 <= k < self.peers@.len() && self.peers@[k].addr == a;
                        assert(old_peers[k].addr == a);
                    }
                    if has_addr(old_peers, a) {
                        let k = choose|k: int| 0 <= k < old_peers.len() && old_peers[k].addr == a;
                        assert(self.peers@[k].addr == a);
                    }
                }
            }
            assert forall|a: PeerAddr| #[trigger] old(self).view().contains_key(a) implies self.view()[a] == SeenEntry {
                rc: old(self).view()[a].rc + if r@.contains(a) { 1nat } else { 0nat },
                rounds: old(self).view()[a].rounds,
            } by {
                let k = choose|k: int| 0 <= k < old_peers.len() && old_peers[k].addr == a;
                lemma_entry_at(old_peers, k);
                lemma_entry_at(self.peers@, k);
                if old_peers[k].rounds@.len() > 0 {
                    assert(r@.contains(a));
                } else {
                    if r@.contains(a) {
                        let j = choose|j: int| 0 <= j < old_peers.len() && old_peers[j].addr == a && old_peers[j].rounds@.len() > 0;
                        assert(j == k);
                    }
                }
            }
        }
        r
    }
}

/// The rounds of `v` that are recent in round `current`.
fn prune_rounds(v: &Vec<u64>, current: u64) -> (r: Vec<u64>)
    requires
        v@.no_duplicates(),
        forall|j: int| 0 <= j < v@.len() ==> v@[j] < current,
    ensures
        r@.no_duplicates(),
        round_set(r@) == round_set(v@).filter(|x: u64| recent(x, current)),
        forall|j: int| 0 <= j < r@.len() ==> r@[j] <= current && recent(#[trigger] r@[j], current),
{
    let mut r: Vec<u64> = Vec::new();
    let mut i: usize = 0;
    while i < v.len()
        invariant
            i <= v@.len(),
            v@.no_duplicates(),
            forall|j: int| 0 <= j < v@.len() ==> v@[j] < current,
            r@.no_duplicates(),
            forall|j: int| 0 <= j < r@.len() ==> r@[j] <= current && recent(#[trigger] r@[j], current),
            forall|x: u64| r@.contains(x) <==> (exists|j: int| 0 <= j < i && v@[j] == x) && recent(x, current),
        decreases v@.len() - i,
    {
        let x = v[i];
        if current <= REMOVE_AFTER_ROUND_COUNT || x >= current - REMOVE_AFTER_ROUND_COUNT {
            proof {
                assert(!r@.contains(x)) by {
                    if r@.contains(x) {
                        let j = choose|j: int| 0 <= j < i && v@[j] == x;
                        assert(v@[j] == v@[i as int]);
                    }
                }
            }
            let ghost before = r@;
            r.push(x);
            proof {
                assert forall|a: int, b: int| 0 <= a < b < r@.len() implies r@[a] != r@[b] by {
                    if b == before.len() {
                        assert(before.contains(r@[a]));
                    }
                }
                assert forall|y: u64| r@.contains(y) <==> (exists|j: int| 0 <= j < i + 1 && v@[j] == y) && recent(y, current) by {
                    if r@.contains(y) && y != x {
                        let j = choose|j: int| 0 <= j < r@.len() && r@[j] == y;
                        assert(before[j] == y);
                        assert(before.contains(y));
                    }
                    if y == x {
                        assert(r@[before.len() as int] == y);
                    }
                    if (exists|j: int| 0 <= j < i + 1 && v@[j] == y) && recent(y, current) && y != x {
                        let j = choose|j: int| 0 <= j < i + 1 && v@[j] == y;
                        assert(j != i);
                        assert(before.contains(y));
                        let k = choose|k: int| 0 <= k < before.len() && before[k] == y;
                        assert(r@[k] == y);
                    }
                }
            }
        } else {
            proof {
                assert forall|y: u64| r@.contains(y) <==> (exists|j: int| 0 <= j < i + 1 && v@[j] == y) && recent(y, current) by {
                    if (exists|j: int| 0 <= j < i + 1 && v@[j] == y) && recent(y, current) {
                        let j = choose|j: int| 0 <= j < i + 1 && v@[j] == y;
                        assert(j != i);
                    }
                }
            }
        }
        i = i + 1;
    }
    proof {
        assert(round_set(r@) =~= round_set(v@).filter(|x: u64| recent(x, current))) by {
            assert forall|x: u64| round_set(r@).contains(x) <==> round_set(v@).filter(|x: u64| recent(x, current)).contains(x) by {
                if v@.contains(x) {
                    let j = choose|j: int| 0 <= j < v@.len() && v@[j] == x;
                    assert(exists|j: int| 0 <= j < i && v@[j] == x);
                }
            }
        }
    }
    r
}

/// Whether `round` is one of the rounds of `v`.
fn contains_round(v: &Vec<u64>, round: u64) -> (r: bool)
    ensures
        r == v@.contains(round),
{
    let mut i: usize = 0;
    while i < v.len()
        invariant
            i <= v@.len(),
            forall|j: int| 0 <= j < i ==> v@[j] != round,
        decreases v@.len() - i,
    {
        if v[i] == round {
            return true;
        }
        i = i + 1;
    }
    false
}

proof fn lemma_recent_rounds(old_rounds: Set<u64>, new_rounds: Set<u64>, current: u64)
    requires
        new_rounds == old_rounds.filter(|x: u64| recent(x, current)),
    ensures
        new_rounds == old_rounds.filter(|x: u64| recent(x, current)),
{
}

proof fn lemma_after_new_round_insert(v: Map<PeerAddr, SeenEntry>, a: PeerAddr, e: SeenEntry, current: u64)
    requires
        !v.contains_key(a),
    ensures
        after_new_round(v.insert(a, e), current) == if e.rc > 0 || exists|r: u64| e.rounds.contains(r) && recent(r, current) {
            after_new_round(v, current).insert(a, SeenEntry { rc: e.rc, rounds: e.rounds.filter(|r: u64| recent(r, current)) })
        } else {
            after_new_round(v, current)
        },
{
    let w = v.insert(a, e);
    let keep = e.rc > 0 || exists|r: u64| e.rounds.contains(r) && recent(r, current);
    let rhs = if keep {
        after_new_round(v, current).insert(a, SeenEntry { rc: e.rc, rounds: e.rounds.filter(|r: u64| recent(r, current)) })
    } else {
        after_new_round(v, current)
    };
    assert(after_new_round(w, current) =~= rhs);
}

/// A peer last seen in round `r` stays seen while the current round is at most
/// `r + REMOVE_AFTER_ROUND_COUNT`, and is no longer seen after that; while a handle refers to
/// it, its entry stays.
pub proof fn lemma_seen_window(v: Map<PeerAddr, SeenEntry>, a: PeerAddr, r: u64, current: u64)
    requires
        v.contains_key(a),
        v[a].rounds == set![r],
        v[a].rc > 0,
    ensures
        after_new_round(v, current).contains_key(a),
        (exists|x: u64| after_new_round(v, current)[a].rounds.contains(x)) <==> r + REMOVE_AFTER_ROUND_COUNT >= current,
{
    let rounds = after_new_round(v, current)[a].rounds;
    if r + REMOVE_AFTER_ROUND_COUNT >= current {
        assert(rounds.contains(r));
    }
}

/// A peer noted twice in the same round gets a handle the first time only.
pub proof fn lemma_insert_twice(v: Map<PeerAddr, SeenEntry>, a: PeerAddr, current: u64)
    requires
        v.contains_key(a),
        v[a].rounds.contains(current),
    ensures
        v.contains_key(a) && exists|x: u64| v[a].rounds.contains(x),
{
}

} // verus!
