//! Bookkeeping shared by the mDNS discoveries: instance names and the peers they announce.

use crate::ip::SocketAddr;
use crate::peer_addr::PeerAddr;
use crate::seen_peers::{SeenEntry, SeenPeersInner};
use crate::random::random_bytes16;
use vstd::prelude::*;

verus! {

/// Lowercase hexadecimal digit of a value below 16.
pub open spec fn hex_digit(v: u8) -> char {
    if v < 10 {
        ((v + 48) as u8) as char
    } else {
        ((v + 87) as u8) as char
    }
}

/// Lowercase hexadecimal text of the bytes, two digits per byte.
pub open spec fn hex_text(bytes: Seq<u8>) -> Seq<char>
    decreases bytes.len(),
{
    if bytes.len() == 0 {
        Seq::empty()
    } else {
        seq![hex_digit(bytes[0] / 16), hex_digit(bytes[0] % 16)] + hex_text(bytes.skip(1))
    }
}

/// `hex::encode`: the bytes as lowercase hexadecimal text, two digits per byte.
#[verifier::external_body]
fn hex_encode(bytes: &[u8; 16]) -> (r: String)
    ensures
        r@ == hex_text(bytes@),
{
    hex::encode(bytes)
}

/// A random name for this replica's mDNS service instance: sixteen random bytes in hexadecimal.
/// (RFC 6763 asks for short descriptive names, but the suggested device types do not fit.)
pub fn generate_instance_name() -> (r: String)
    ensures
        exists|bytes: Seq<u8>| bytes.len() == 16 && r@ == hex_text(bytes),
{
    let bytes = random_bytes16();
    hex_encode(&bytes)
}

/// Maps instance names to the addresses they announce, and back. One instance may announce
/// several addresses, and one address may be announced by several instances.
pub struct Table {
    pairs: Vec<(String, PeerAddr)>,
}

/// Whether the pair of a name and an address is in the sequence.
pub open spec fn has_pair(s: Seq<(String, PeerAddr)>, name: Seq<char>, addr: PeerAddr) -> bool {
    exists|i: int| 0 <= i < s.len() && s[i].0@ == name && s[i].1 == addr
}

impl Table {
    /// The (name, address) pairs.
    pub closed spec fn view(&self) -> Set<(Seq<char>, PeerAddr)> {
        Set::new(|p: (Seq<char>, PeerAddr)| has_pair(self.pairs@, p.0, p.1))
    }

    pub fn new() -> (r: Self)
        ensures
            r.view() == Set::<(Seq<char>, PeerAddr)>::empty(),
    {
        let r = Table { pairs: Vec::new() };
        assert(r.view() =~= Set::<(Seq<char>, PeerAddr)>::empty());
        r
    }

    /// Notes that the instance `name` announces `addr`.
    pub fn insert(&mut self, name: String, addr: PeerAddr)
        ensures
            final(self).view() == old(self).view().insert((name@, addr)),
    {
        let mut i: usize = 0;
        while i < self.pairs.len()
            invariant
                i <= self.pairs@.len(),
                self.pairs@ == old(self).pairs@,
                forall|j: int| 0 <= j < i ==> !(self.pairs@[j].0@ == name@ && self.pairs@[j].1 == addr),
            decreases self.pairs@.len() - i,
        {
            if self.pairs[i].0 == name && self.pairs[i].1 == addr {
                assert(self.view() =~= old(self).view().insert((name@, addr))) by {
                    assert(has_pair(self.pairs@, name@, addr));
                }
                return;
            }
            i = i + 1;
        }
        let ghost before = self.pairs@;
        let ghost n = name@;
        self.pairs.push((name, addr));
        proof {
            assert forall|p: (Seq<char>, PeerAddr)| self.view().contains(p) <==> old(self).view().insert((n, addr)).contains(p) by {
                if has_pair(self.pairs@, p.0, p.1) {
                    let j = choose|j: int| 0 <= j < self.pairs@.len() && self.pairs@[j].0@ == p.0 && self.pairs@[j].1 == p.1;
                    if j < before.len() {
                        assert(before[j] == self.pairs@[j]);
                        assert(has_pair(before, p.0, p.1));
                    }
                }
                if has_pair(before, p.0, p.1) {
                    let j = choose|j: int| 0 <= j < before.len() && before[j].0@ == p.0 && before[j].1 == p.1;
                    assert(self.pairs@[j] == before[j]);
                }
                if p == (n, addr) {
                    assert(self.pairs@[before.len() as int].0@ == n);
                }
            }
            assert(self.view() =~= old(self).view().insert((n, addr)));
        }
    }

    /// Forgets the instance `name`. Returns the addresses that it announced and that no other
    /// instance announces, each once.
    pub fn remove(&mut self, name: String) -> (r: Vec<PeerAddr>)
        ensures
            final(self).view() == old(self).view().filter(|p: (Seq<char>, PeerAddr)| p.0 != name@),
            r@.no_duplicates(),
            forall|a: PeerAddr| #[trigger] r@.contains(a) <==> old(self).view().contains((name@, a)) && !exists|n: Seq<char>|
                final(self).view().contains((n, a)),
    {
        let ghost old_pairs = self.pairs@;
        let mut kept: Vec<(String, PeerAddr)> = Vec::new();
        let mut removed: Vec<PeerAddr> = Vec::new();
        let mut i: usize = 0;
        let mut pairs: Vec<(String, PeerAddr)> = Vec::new();
        std::mem::swap(&mut pairs, &mut self.pairs);
        while i < pairs.len()
            invariant
                i <= pairs@.len(),
                pairs@ == old_pairs,
                forall|n: Seq<char>, a: PeerAddr| #[trigger] has_pair(kept@, n, a) <==> n != name@ && exists|j: int|
                    0 <= j < i && old_pairs[j].0@ == n && old_pairs[j].1 == a,
                forall|a: PeerAddr| #[trigger] removed@.contains(a) <==> exists|j: int| 0 <= j < i && old_pairs[j].0@ == name@
                    && old_pairs[j].1 == a,
            decreases pairs@.len() - i,
        {
            let ghost kept_before = kept@;
            let ghost removed_before = removed@;
            let n = pairs[i].0.clone();
            let a = pairs[i].1;
            let is_name = n == name;
            if is_name {
                removed.push(a);
            } else {
                kept.push((n, a));
            }
            proof {
                assert forall|n: Seq<char>, b: PeerAddr| #[trigger] has_pair(kept@, n, b) <==> n != name@ && exists|j: int|
                    0 <= j < i + 1 && old_pairs[j].0@ == n && old_pairs[j].1 == b by {
                    if has_pair(kept@, n, b) {
                        let k = choose|k: int| 0 <= k < kept@.len() && kept@[k].0@ == n && kept@[k].1 == b;
                        if k < kept_before.len() {
                            assert(kept_before[k] == kept@[k]);
                            assert(has_pair(kept_before, n, b));
                        } else {
                            assert(old_pairs[i as int].0@ == n);
                        }
                    }
                    if n != name@ && exists|j: int| 0 <= j < i + 1 && old_pairs[j].0@ == n && old_pairs[j].1 == b {
                        let j = choose|j: int| 0 <= j < i + 1 && old_pairs[j].0@ == n && old_pairs[j].1 == b;
                        if j < i {
                            assert(has_pair(kept_before, n, b));
                            let k = choose|k: int| 0 <= k < kept_before.len() && kept_before[k].0@ == n && kept_before[k].1 == b;
                            assert(kept@[k] == kept_before[k]);
                        } else {
                            assert(kept@[kept_before.len() as int].0@ == n);
                        }
                    }
                }
                assert forall|b: PeerAddr| #[trigger] removed@.contains(b) <==> exists|j: int| 0 <= j < i + 1 && old_pairs[j].0@
                    == name@ && old_pairs[j].1 == b by {
                    if removed@.contains(b) {
                        let k = choose|k: int| 0 <= k < removed@.len() && removed@[k] == b;
                        if k < removed_before.len() {
                            assert(removed_before[k] == b);
                            assert(removed_before.contains(b));
                        }
                    }
                    if exists|j: int| 0 <= j < i + 1 && old_pairs[j].0@ == name@ && old_pairs[j].1 == b {
                        let j = choose|j: int| 0 <= j < i + 1 && old_pairs[j].0@ == name@ && old_pairs[j].1 == b;
                        if j < i {
                            assert(removed_before.contains(b));
                            let k = choose|k: int| 0 <= k < removed_before.len() && removed_before[k] == b;
                            assert(removed@[k] == b);
                        } else {
                            assert(removed@[removed_before.len() as int] == b);
                        }
                    }
                }
            }
            i = i + 1;
        }
        self.pairs = kept;
        proof {
            assert forall|p: (Seq<char>, PeerAddr)| self.view().contains(p) <==> old(self).view().filter(
                |q: (Seq<char>, PeerAddr)| q.0 != name@,
            ).contains(p) by {
                if has_pair(old_pairs, p.0, p.1) {
                    let j = choose|j: int| 0 <= j < old_pairs.len() && old_pairs[j].0@ == p.0 && old_pairs[j].1 == p.1;
                    assert(exists|j: int| 0 <= j < i && old_pairs[j].0@ == p.0 && old_pairs[j].1 == p.1);
                }
                if has_pair(self.pairs@, p.0, p.1) {
                    let j = choose|j: int| 0 <= j < i && old_pairs[j].0@ == p.0 && old_pairs[j].1 == p.1;
                    assert(has_pair(old_pairs, p.0, p.1));
                }
            }
            assert(self.view() =~= old(self).view().filter(|q: (Seq<char>, PeerAddr)| q.0 != name@));
        }
        let r = self.unreferenced(&removed);
        proof {
            assert forall|a: PeerAddr| #[trigger] removed@.contains(a) <==> old(self).view().contains((name@, a)) by {
                if old(self).view().contains((name@, a)) {
                    let j = choose|j: int| 0 <= j < old_pairs.len() && old_pairs[j].0@ == name@ && old_pairs[j].1 == a;
                    assert(exists|j: int| 0 <= j < i && old_pairs[j].0@ == name@ && old_pairs[j].1 == a);
                }
                if removed@.contains(a) {
                    assert(has_pair(old_pairs, name@, a));
                }
            }
        }
        r
    }

    /// The addresses of `addrs` that no instance announces, each once.
    fn unreferenced(&self, addrs: &Vec<PeerAddr>) -> (r: Vec<PeerAddr>)
        ensures
            r@.no_duplicates(),
            forall|a: PeerAddr| #[trigger] r@.contains(a) <==> addrs@.contains(a) && !exists|n: Seq<char>| self.view().contains((n, a)),
    {
        let mut r: Vec<PeerAddr> = Vec::new();
        let mut i: usize = 0;
        while i < addrs.len()
            invariant
                i <= addrs@.len(),
                r@.no_duplicates(),
                forall|a: PeerAddr| #[trigger] r@.contains(a) <==> (exists|j: int| 0 <= j < i && addrs@[j] == a) && !exists|n: Seq<char>|
                    self.view().contains((n, a)),
            decreases addrs@.len() - i,
        {
            let a = addrs[i];
            let referenced = self.announces(a);
            let mut present = false;
            let mut k: usize = 0;
            while k < r.len()
                invariant
                    k <= r@.len(),
                    present == exists|j: int| 0 <= j < k && r@[j] == a,
                decreases r@.len() - k,
            {
                if r[k] == a {
                    present = true;
                }
                k = k + 1;
            }
            let ghost before = r@;
            if !referenced && !present {
                r.push(a);
                proof {
                    assert forall|x: int, y: int| 0 <= x < y < r@.len() implies r@[x] != r@[y] by {
                        if y == before.len() {
                            assert(before[x] == r@[x]);
                        }
                    }
                }
            }
            proof {
                assert forall|b: PeerAddr| #[trigger] r@.contains(b) <==> (exists|j: int| 0 <= j < i + 1 && addrs@[j] == b) && !exists|n: Seq<char>|
                    self.view().contains((n, b)) by {
                    if r@.contains(b) {
                        let k2 = choose|k2: int| 0 <= k2 < r@.len() && r@[k2] == b;
                        if k2 < before.len() {
                            assert(before[k2] == b);
                            assert(before.contains(b));
                        }
                    }
                    if (exists|j: int| 0 <= j < i + 1 && addrs@[j] == b) && !exists|n: Seq<char>| self.view().contains((n, b)) {
                        let j = choose|j: int| 0 <= j < i + 1 && addrs@[j] == b;
                        if j < i {
                            assert(before.contains(b));
                            let k2 = choose|k2: int| 0 <= k2 < before.len() && before[k2] == b;
                            assert(r@[k2] == b);
                        } else if present {
                            let k2 = choose|k2: int| 0 <= k2 < before.len() && before[k2] == a;
                            assert(r@[k2] == b);
                        } else {
                            assert(r@[before.len() as int] == b);
                        }
                    }
                }
            }
            i = i + 1;
        }
        r
    }

    /// Whether some instance announces the address.
    fn announces(&self, addr: PeerAddr) -> (r: bool)
        ensures
            r == exists|n: Seq<char>| self.view().contains((n, addr)),
    {
        let mut i: usize = 0;
        while i < self.pairs.len()
            invariant
                i <= self.pairs@.len(),
                forall|j: int| 0 <= j < i ==> self.pairs@[j].1 != addr,
            decreases self.pairs@.len() - i,
        {
            if self.pairs[i].1 == addr {
                proof {
                    assert(self.view().contains((self.pairs@[i as int].0@, addr)));
                }
                return true;
            }
            i = i + 1;
        }
        proof {
            assert forall|n: Seq<char>| !self.view().contains((n, addr)) by {
                if has_pair(self.pairs@, n, addr) {
                    let j = choose|j: int| 0 <= j < self.pairs@.len() && self.pairs@[j].0@ == n && self.pairs@[j].1 == addr;
                    assert(self.pairs@[j].1 != addr);
                }
            }
        }
        false
    }
}

/// The protocol name `tcp` of an mDNS service type.
pub open spec fn tcp_name() -> Seq<u8> {
    seq![116u8, 99u8, 112u8]
}

/// The protocol name `udp` of an mDNS service type.
pub open spec fn udp_name() -> Seq<u8> {
    seq![117u8, 100u8, 112u8]
}

/// Whether the bytes are `word`.
fn same_bytes(s: &[u8], word: &[u8]) -> (r: bool)
    ensures
        r == (s@ == word@),
{
    if s.len() != word.len() {
        return false;
    }
    let mut i: usize = 0;
    while i < s.len()
        invariant
            i <= s@.len(),
            s@.len() == word@.len(),
            forall|j: int| 0 <= j < i ==> s@[j] == word@[j],
        decreases s@.len() - i,
    {
        if s[i] != word[i] {
            return false;
        }
        i = i + 1;
    }
    assert(s@ =~= word@);
    true
}

/// The peer address that a discovered service announces at `addr`, given the protocol name of
/// its service type: TCP for `tcp`, QUIC for `udp`; none for another protocol.
pub fn service_peer_addr(addr: SocketAddr, protocol: &[u8]) -> (r: Option<PeerAddr>)
    ensures
        r == if protocol@ == tcp_name() {
            Some(PeerAddr::Tcp(addr))
        } else if protocol@ == udp_name() {
            Some(PeerAddr::Quic(addr))
        } else {
            None
        },
{
    let tcp: [u8; 3] = [116u8, 99u8, 112u8];
    let udp: [u8; 3] = [117u8, 100u8, 112u8];
    assert(tcp@ =~= tcp_name());
    assert(udp@ =~= udp_name());
    if same_bytes(protocol, tcp.as_slice()) {
        Some(PeerAddr::Tcp(addr))
    } else if same_bytes(protocol, udp.as_slice()) {
        Some(PeerAddr::Quic(addr))
    } else {
        None
    }
}

/// The peers announced over mDNS: the instances' addresses, and the peers seen among them.
pub struct SeenMdnsPeers {
    pub seen_peers: SeenPeersInner,
    pub table: Table,
}

impl SeenMdnsPeers {
    pub fn new() -> (r: Self)
        ensures
            r.seen_peers.wf(),
            r.seen_peers.view() == Map::<PeerAddr, SeenEntry>::empty(),
            r.table.view() == Set::<(Seq<char>, PeerAddr)>::empty(),
    {
        SeenMdnsPeers { seen_peers: SeenPeersInner::new(), table: Table::new() }
    }

    /// Notes that the instance `name` announces `addr`, and that the peer at `addr` was seen.
    /// Returns whether a new handle to the peer was made (see [`SeenPeersInner::insert`]).
    pub fn insert(&mut self, name: String, addr: PeerAddr) -> (r: bool)
        requires
            old(self).seen_peers.wf(),
            old(self).seen_peers.view().contains_key(addr) ==> old(self).seen_peers.view()[addr].rc < usize::MAX,
        ensures
            final(self).seen_peers.wf(),
            final(self).table.view() == old(self).table.view().insert((name@, addr)),
            r == !(old(self).seen_peers.view().contains_key(addr) && exists|x: u64|
                old(self).seen_peers.view()[addr].rounds.contains(x)),
            final(self).seen_peers.view().contains_key(addr),
    {
        self.table.insert(name, addr);
        self.seen_peers.insert(addr)
    }

    /// A service was discovered: unless it is this replica's own instance (`own_name`), notes
    /// it as [`SeenMdnsPeers::insert`] does. Returns whether a new handle to the peer was made.
    pub fn on_added(&mut self, own_name: &String, name: String, addr: PeerAddr) -> (r: bool)
        requires
            old(self).seen_peers.wf(),
            old(self).seen_peers.view().contains_key(addr) ==> old(self).seen_peers.view()[addr].rc < usize::MAX,
        ensures
            final(self).seen_peers.wf(),
            name@ == own_name@ ==> !r && final(self).seen_peers.view() == old(self).seen_peers.view()
                && final(self).table.view() == old(self).table.view(),
            name@ != own_name@ ==> {
                &&& final(self).table.view() == old(self).table.view().insert((name@, addr))
                &&& r == !(old(self).seen_peers.view().contains_key(addr) && exists|x: u64|
                    old(self).seen_peers.view()[addr].rounds.contains(x))
                &&& final(self).seen_peers.view().contains_key(addr)
            },
    {
        if name == *own_name {
            return false;
        }
        self.insert(name, addr)
    }

    /// Forgets the instance `name`, and the peers that no other instance announces.
    pub fn remove(&mut self, name: String)
        requires
            old(self).seen_peers.wf(),
        ensures
            final(self).seen_peers.wf(),
            final(self).table.view() == old(self).table.view().filter(|p: (Seq<char>, PeerAddr)| p.0 != name@),
            forall|a: PeerAddr| #[trigger] final(self).seen_peers.view().contains_key(a) ==> old(self).seen_peers.view().contains_key(a),
            forall|a: PeerAddr| old(self).table.view().contains((name@, a)) && !(exists|n: Seq<char>|
                final(self).table.view().contains((n, a))) ==> !#[trigger] final(self).seen_peers.view().contains_key(a),
            // Only those peers are forgotten: the others keep their entries.
            forall|a: PeerAddr|
                #[trigger] old(self).seen_peers.view().contains_key(a) && !(old(self).table.view().contains((name@, a))
                    && !(exists|n: Seq<char>| final(self).table.view().contains((n, a))))
                    ==> final(self).seen_peers.view().contains_key(a)
                    && final(self).seen_peers.view()[a] == old(self).seen_peers.view()[a],
            final(self).seen_peers.current() == old(self).seen_peers.current(),
    {
        let ghost nm = name@;
        let gone = self.table.remove(name);
        let ghost t = self.table.view();
        let mut i: usize = 0;
        while i < gone.len()
            invariant
                i <= gone@.len(),
                self.table.view() == t,
                t == old(self).table.view().filter(|p: (Seq<char>, PeerAddr)| p.0 != nm),
                forall|a: PeerAddr| #[trigger] gone@.contains(a) <==> old(self).table.view().contains((nm, a)) && !exists|n: Seq<char>|
                    t.contains((n, a)),
                self.seen_peers.wf(),
                forall|a: PeerAddr| #[trigger] self.seen_peers.view().contains_key(a) ==> old(self).seen_peers.view().contains_key(a),
                forall|j: int| 0 <= j < i ==> !self.seen_peers.view().contains_key(#[trigger] gone@[j]),
                forall|a: PeerAddr|
                    #[trigger] old(self).seen_peers.view().contains_key(a) && !gone@.contains(a) ==> self.seen_peers.view().contains_key(a)
                        && self.seen_peers.view()[a] == old(self).seen_peers.view()[a],
                self.seen_peers.current() == old(self).seen_peers.current(),
            decreases gone@.len() - i,
        {
            self.seen_peers.remove(&gone[i]);
            i = i + 1;
        }
        proof {
            assert forall|a: PeerAddr| gone@.contains(a) implies !#[trigger] self.seen_peers.view().contains_key(a) by {
                let j = choose|j: int| 0 <= j < gone@.len() && gone@[j] == a;
            }
        }
    }
}

} // verus!
