use ouisync_network::ip::{Ipv4Addr, SocketAddr};
use ouisync_network::local_discovery::mdns_common::{generate_instance_name, service_peer_addr, SeenMdnsPeers, Table};
use ouisync_network::peer_addr::PeerAddr;
use std::collections::HashSet;

fn quic(a: u8, b: u8, c: u8, d: u8, port: u16) -> PeerAddr {
    PeerAddr::Quic(SocketAddr::V4(Ipv4Addr::new(a, b, c, d), port))
}

fn set(v: Vec<PeerAddr>) -> HashSet<PeerAddr> {
    v.into_iter().collect()
}

fn table_scenarios() {
    {
        let mut table = Table::new();

        let foo_name = "foo".to_owned();
        let foo_addr = quic(192, 168, 1, 2, 1000);

        table.insert(foo_name.clone(), foo_addr);

        assert_eq!(set(table.remove(foo_name)), [foo_addr].into());
    }
    {
        let mut table = Table::new();

        let foo_name = "foo".to_owned();
        let foo_addr1 = quic(192, 168, 1, 2, 1000);
        let foo_addr2 = quic(192, 168, 1, 3, 1000);

        table.insert(foo_name.clone(), foo_addr1);
        table.insert(foo_name.clone(), foo_addr2);

        assert_eq!(set(table.remove(foo_name)), [foo_addr1, foo_addr2].into());
    }
    {
        let mut table = Table::new();

        let foo_name = "foo".to_owned();
        let bar_name = "bar".to_owned();
        let addr = quic(192, 168, 1, 2, 1000);

        table.insert(foo_name.clone(), addr);
        table.insert(bar_name.clone(), addr);

        assert_eq!(set(table.remove(foo_name)), [].into());
        assert_eq!(set(table.remove(bar_name)), [addr].into());
    }
}

#[test]
fn mdns_common_table_test() {
    table_scenarios();
}

#[test]
fn mdns_direct_table_test() {
    table_scenarios();
}

#[test]
fn table_remove_unknown_name_is_empty() {
    let mut table = Table::new();
    table.insert("foo".to_owned(), quic(10, 0, 0, 1, 1));
    assert!(table.remove("bar".to_owned()).is_empty());
    assert_eq!(table.remove("foo".to_owned()).len(), 1);
}

#[test]
fn instance_name_is_32_hex_digits() {
    let name = generate_instance_name();
    assert_eq!(name.len(), 32);
    assert!(name.chars().all(|c| c.is_ascii_hexdigit() && !c.is_ascii_uppercase()));
}

#[test]
fn seen_mdns_peers_forget_unannounced() {
    let mut peers = SeenMdnsPeers::new();
    let addr = quic(192, 168, 1, 2, 1000);
    assert!(peers.insert("a".to_owned(), addr));
    assert!(!peers.insert("b".to_owned(), addr));
    peers.remove("a".to_owned());
    assert!(peers.seen_peers.seen_addr(&addr).is_some());
    peers.remove("b".to_owned());
    assert!(peers.seen_peers.seen_addr(&addr).is_none());
}

#[test]
fn service_protocols_map_to_peer_addresses() {
    let addr = SocketAddr::V4(Ipv4Addr::new(192, 168, 1, 2), 1000);
    assert_eq!(service_peer_addr(addr, b"tcp"), Some(PeerAddr::Tcp(addr)));
    assert_eq!(service_peer_addr(addr, b"udp"), Some(PeerAddr::Quic(addr)));
    assert_eq!(service_peer_addr(addr, b"sctp"), None);
    assert_eq!(service_peer_addr(addr, b"TCP"), None);
}

#[test]
fn own_instance_is_ignored() {
    let mut peers = SeenMdnsPeers::new();
    let own = "me".to_owned();
    let addr = quic(192, 168, 1, 2, 1000);
    assert!(!peers.on_added(&own, "me".to_owned(), addr));
    assert!(peers.seen_peers.collect().is_empty());
    assert!(peers.on_added(&own, "other".to_owned(), addr));
}
