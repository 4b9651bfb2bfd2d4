use ouisync_network::ip::{Ipv4Addr, SocketAddr};
use ouisync_network::peer_addr::PeerAddr;
use ouisync_network::seen_peers::{SeenPeersInner, REMOVE_AFTER_ROUND_COUNT};

fn localhost_quic(port: u16) -> PeerAddr {
    PeerAddr::Quic(SocketAddr::V4(Ipv4Addr::new(127, 0, 0, 1), port))
}

#[test]
fn sanity_checks() {
    let mut seen_peers = SeenPeersInner::new();
    let peer_addr = localhost_quic(1234);

    // A handle is made the first time the peer is seen.
    assert!(seen_peers.insert(peer_addr));
    assert!(!seen_peers.insert(peer_addr));

    // Dropping the handle forgets the peer.
    seen_peers.release(&peer_addr);

    assert!(seen_peers.insert(peer_addr));

    for _ in 0..(REMOVE_AFTER_ROUND_COUNT + 1) {
        assert!(seen_peers.seen_addr(&peer_addr).is_some());
        seen_peers.start_new_round();
    }

    assert!(seen_peers.seen_addr(&peer_addr).is_none());

    assert!(seen_peers.insert(peer_addr));

    seen_peers.start_new_round();
    // Inserted, but it's not new, so no handle is made.
    assert!(!seen_peers.insert(peer_addr));

    seen_peers.start_new_round();
    assert!(seen_peers.seen_addr(&peer_addr).is_some());

    seen_peers.start_new_round();
    assert!(seen_peers.seen_addr(&peer_addr).is_some());

    seen_peers.start_new_round();
    assert!(seen_peers.seen_addr(&peer_addr).is_none());

    assert!(seen_peers.insert(peer_addr));
}

#[test]
fn collect_hands_out_recently_seen_peers() {
    let mut seen_peers = SeenPeersInner::new();
    let a = localhost_quic(1);
    let b = localhost_quic(2);
    assert!(seen_peers.insert(a));
    assert!(seen_peers.insert(b));
    for _ in 0..(REMOVE_AFTER_ROUND_COUNT + 1) {
        seen_peers.start_new_round();
    }
    // Not seen recently any more, so a new handle is made.
    assert!(seen_peers.insert(b));
    let collected = seen_peers.collect();
    assert_eq!(collected, vec![b]);
}

#[test]
fn remove_forgets_peer() {
    let mut seen_peers = SeenPeersInner::new();
    let a = localhost_quic(7);
    assert!(seen_peers.insert(a));
    seen_peers.remove(&a);
    assert!(seen_peers.seen_addr(&a).is_none());
    // Releasing a removed peer changes nothing.
    seen_peers.release(&a);
    assert!(seen_peers.insert(a));
}

#[test]
fn acquire_keeps_peer_alive() {
    let mut seen_peers = SeenPeersInner::new();
    let a = localhost_quic(9);
    assert!(seen_peers.insert(a));
    seen_peers.acquire(&a);
    seen_peers.release(&a);
    // One reference is left, so the peer is still known and seen.
    assert!(seen_peers.seen_addr(&a).is_some());
    assert!(!seen_peers.insert(a));
}
