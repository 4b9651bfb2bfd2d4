use ouisync_network::addr_filter::AddrFilter;
use ouisync_network::client::{next_root_node_cookie, PreparedResponse, ResponseBatch, TrackerSignal, WritableResponse};
use ouisync_network::connection::{ConnectionSet, ReserveResult};
use ouisync_network::crypto::Role;
use ouisync_network::debug_payload::{DebugRequest, DebugResponsePayload};
use ouisync_network::dht::{announce_delay_secs, contacts_of_family, should_announce, LookupAction, LookupEvent, LookupMachine, LookupPhase};
use ouisync_network::gateway::{needs_rebind, ok_to_connect, ConnectAction, ConnectAttempts, ConnectEvent, Connectivity, StackAddresses};
use ouisync_network::ip::{Ipv4Addr, Ipv6Addr, SocketAddr};
use ouisync_network::keep_alive::{is_keep_alive, keep_alive_message};
use ouisync_network::local_discovery::poor_man::{beacon, beacon_delay_secs, handle_message, DiscoveryMessage, Mode, VersionedMessage};
use ouisync_network::message::{BlockId, MessageKey, PublicKey, Request};
use ouisync_network::message_broker::{may_create_link, topic_id_order};
use ouisync_network::message_io::Message;
use ouisync_network::options::NetworkOptions;
use ouisync_network::peer_addr::{PeerAddr, PeerPort};
use ouisync_network::peer_exchange::{CollectError, PexState};
use ouisync_network::peer_source::PeerSource;
use ouisync_network::peer_state::PeerState;
use ouisync_network::pending::{IndexKey, PendingIndexRequests};
use ouisync_network::repository_stats::{DurationRanges, RepositoryStats};
use ouisync_network::repository_stats::Values;
use ouisync_network::request::{stats_request_added, stats_request_removed, PendingRequest};
use ouisync_network::request_limiter::RequestLimiter;
use ouisync_network::runtime_id::{to_sign, PublicRuntimeId};
use ouisync_network::socket::{is_same_family, retry_addr};
use std::sync::atomic::AtomicU64;
use std::time::Duration;

fn v4(a: u8, b: u8, c: u8, d: u8, port: u16) -> SocketAddr {
    SocketAddr::V4(Ipv4Addr::new(a, b, c, d), port)
}

#[test]
fn addr_filter_rejects_weird_addresses() {
    let filter = AddrFilter::default();
    assert!(filter.apply(&v4(8, 8, 8, 8, 1234)));
    assert!(!filter.apply(&v4(8, 8, 8, 8, 0)));
    assert!(!filter.apply(&v4(8, 8, 8, 8, 1)));
    assert!(!filter.apply(&v4(0, 1, 2, 3, 1234)));
    assert!(!filter.apply(&v4(198, 18, 0, 1, 1234)));
    assert!(filter.allow_benchmarking_v4().apply(&v4(198, 18, 0, 1, 1234)));
    assert!(!filter.apply(&v4(255, 255, 255, 255, 1234)));
    assert!(!filter.apply(&v4(192, 0, 2, 1, 1234)));
    assert!(!filter.apply(&SocketAddr::V6(Ipv6Addr::new(0xff02, 0, 0, 0, 0, 0, 0, 1), 1234)));
    assert!(!filter.apply(&SocketAddr::V6(Ipv6Addr::new(0x2001, 0xdb8, 0, 0, 0, 0, 0, 1), 1234)));
}

#[test]
fn dht_peers_must_be_global() {
    assert!(ok_to_connect(&v4(192, 168, 1, 2, 1234), PeerSource::LocalDiscovery));
    assert!(!ok_to_connect(&v4(192, 168, 1, 2, 1234), PeerSource::Dht));
    assert!(ok_to_connect(&v4(8, 8, 8, 8, 1234), PeerSource::Dht));
}

#[test]
fn rebind_decisions() {
    let any = Some(v4(0, 0, 0, 0, 0));
    let specific = Some(v4(192, 168, 1, 2, 5000));
    assert!(!needs_rebind(&specific, &specific));
    assert!(!needs_rebind(&any, &any));
    assert!(needs_rebind(&specific, &any));
    assert!(needs_rebind(&None, &any));
    assert!(needs_rebind(&any, &None));
    assert!(!needs_rebind(&None, &None));
}

#[test]
fn connectivity_from_addresses() {
    let none = StackAddresses { quic_v4: None, quic_v6: None, tcp_v4: None, tcp_v6: None };
    assert_eq!(Connectivity::infer(&none), Connectivity::Disabled);
    assert!(Connectivity::Full.is_less_restrictive_than(Connectivity::LocalOnly));
    assert!(!Connectivity::Disabled.is_less_restrictive_than(Connectivity::Disabled));
}

#[test]
fn connect_attempts() {
    let (mut attempts, action) = ConnectAttempts::start(&v4(8, 8, 8, 8, 1234), PeerSource::Dht);
    assert_eq!(action, ConnectAction::AwaitConnectivity);
    assert_eq!(
        attempts.step(ConnectEvent::Allowed(Connectivity::LocalOnly)),
        ConnectAction::Connect { reset_backoff: true, start_hole_punching: true }
    );
    // The first wait is the 200 ms interval, randomised by half either way.
    match attempts.step(ConnectEvent::Failed { locally_closed: false }) {
        ConnectAction::Backoff { delay_millis } => assert!((100..=300).contains(&delay_millis)),
        other => panic!("expected a backoff, got {other:?}"),
    }
    assert_eq!(
        attempts.step(ConnectEvent::Allowed(Connectivity::LocalOnly)),
        ConnectAction::Connect { reset_backoff: false, start_hole_punching: false }
    );
    assert_eq!(
        attempts.step(ConnectEvent::Allowed(Connectivity::Full)),
        ConnectAction::Connect { reset_backoff: true, start_hole_punching: false }
    );
    assert_eq!(attempts.step(ConnectEvent::Connected { still_allowed: false }), ConnectAction::AwaitConnectivity);
    assert_eq!(attempts.step(ConnectEvent::Connected { still_allowed: true }), ConnectAction::Done);
    assert_eq!(attempts.step(ConnectEvent::Failed { locally_closed: true }), ConnectAction::GiveUp);
    assert_eq!(attempts.step(ConnectEvent::Unseen), ConnectAction::GiveUp);
    let (_, action) = ConnectAttempts::start(&v4(8, 8, 8, 8, 0), PeerSource::UserProvided);
    assert_eq!(action, ConnectAction::GiveUp);
}

#[test]
fn roles_are_opposite() {
    let a = [1u8; 32];
    let mut b = [1u8; 32];
    b[31] = 2;
    assert_eq!(Role::determine(&a, &b), Role::Responder);
    assert_eq!(Role::determine(&b, &a), Role::Initiator);
}

#[test]
fn challenge_to_sign() {
    let challenge = [7u8; 32];
    let out = to_sign(&challenge);
    assert_eq!(&out[..10], b"runtime-id");
    assert_eq!(&out[10..], &challenge);
    let id = PublicRuntimeId::from_bytes([3; 32]);
    assert_eq!(id.as_public_key(), &PublicKey([3; 32]));
}

#[test]
fn topic_order_is_symmetric() {
    let a = PublicRuntimeId::from_bytes([1; 32]);
    let b = PublicRuntimeId::from_bytes([2; 32]);
    assert_eq!(topic_id_order(&a, &b), (b, a));
    assert_eq!(topic_id_order(&b, &a), (b, a));
}

#[test]
fn request_limiter_limits() {
    let mut limiter = RequestLimiter::new();
    let mut requests = Vec::new();
    for i in 0..32u8 {
        let request = Request::Block(BlockId([i; 32]), DebugRequest::start());
        requests.push(request);
        assert!(limiter.vacant_entry().unwrap().insert(request));
    }
    assert!(limiter.vacant_entry().is_none());
    assert!(limiter.remove(&requests[3]));
    assert!(!limiter.remove(&requests[3]));
    let entry = limiter.vacant_entry().unwrap();
    assert!(!entry.insert(requests[4]));
    assert!(limiter.oldest().is_some());
}

#[test]
fn request_limiter_expires_the_oldest() {
    let mut limiter = RequestLimiter::new();
    let first = Request::Block(BlockId([1; 32]), DebugRequest::start());
    let second = Request::Block(BlockId([2; 32]), DebugRequest::start());
    assert!(limiter.vacant_entry().unwrap().insert(first));
    assert!(limiter.vacant_entry().unwrap().insert(second));
    let (oldest, sent) = limiter.oldest().unwrap();
    assert!(oldest == first || oldest == second);
    assert_eq!(limiter.next_expiry(), Some(sent + 10_000));
    // Nothing has expired before ten seconds have passed.
    assert_eq!(limiter.expire(sent + 9_999), None);
    assert_eq!(limiter.expire(sent + 10_000), Some(oldest));
    assert!(!limiter.remove(&oldest));
}

#[test]
fn duration_ranges() {
    let mut ranges = DurationRanges::new();
    ranges.note_duration(Duration::from_millis(199));
    ranges.note_duration(Duration::from_millis(200));
    ranges.note_duration(Duration::from_millis(999));
    ranges.note_duration(Duration::from_secs(3));
    ranges.note_duration(Duration::from_secs(40));
    assert_eq!(ranges.below_200ms, 1);
    assert_eq!(ranges.from_200ms_to_500ms, 1);
    assert_eq!(ranges.from_500ms_to_1s, 1);
    assert_eq!(ranges.from_1s_to_3s, 0);
    assert_eq!(ranges.from_3s_to_10s, 1);
    assert_eq!(ranges.more_than_30s, 1);
    let mut stats = RepositoryStats::new();
    stats.write().index_requests_inflight = 5;
    stats.write().note_db_acquire_duration(Duration::from_millis(10));
    assert_eq!(stats.read().index_requests_inflight, 5);
    assert_eq!(stats.read().db_acquire_durations.below_200ms, 1);
}

#[test]
fn pending_request_message() {
    let request = PendingRequest::RootNode(PublicKey([5; 32])).to_message(42);
    match request {
        Request::RootNode { writer_id, cookie, .. } => {
            assert_eq!(writer_id, PublicKey([5; 32]));
            assert_eq!(cookie, 42);
        }
        _ => panic!("wrong request"),
    }
    assert!(DebugResponsePayload::unsolicited().request.is_none());
}

#[test]
fn discovery_messages() {
    let me = [1u8; 16];
    let them = [2u8; 16];
    let from = v4(192, 168, 1, 9, 5555);
    let msg = beacon(them, PeerPort::Quic(4000));
    let outcome = handle_message(&msg, &me, PeerPort::Tcp(3000), from).unwrap();
    assert_eq!(outcome.peer, PeerAddr::Quic(v4(192, 168, 1, 9, 4000)));
    assert_eq!(outcome.reply, Some(DiscoveryMessage::Reply { id: me, port: PeerPort::Tcp(3000) }));
    let reply = VersionedMessage { message: DiscoveryMessage::Reply { id: them, port: PeerPort::Tcp(1) }, ..msg };
    assert_eq!(handle_message(&reply, &me, PeerPort::Tcp(3000), from).unwrap().reply, None);
    assert!(handle_message(&beacon(me, PeerPort::Quic(1)), &me, PeerPort::Tcp(3000), from).is_none());
    let old = VersionedMessage { version: 1, ..msg };
    assert!(handle_message(&old, &me, PeerPort::Tcp(3000), from).is_none());
    assert_eq!(beacon_delay_secs(Mode::ObserveOnly), 8);
    let d = beacon_delay_secs(Mode::ObserveAndSignal);
    assert!((2..8).contains(&d));
}

#[test]
fn peer_exchange_collects_other_peers() {
    let mut pex = PexState::new();
    let repo = pex.new_repository();
    let p1 = pex.new_peer();
    let p2 = pex.new_peer();
    let global = PeerAddr::Quic(v4(8, 8, 8, 8, 1000));
    let local = PeerAddr::Quic(v4(192, 168, 1, 5, 1000));
    assert!(pex.handle_connection(p1, global, PeerSource::Dht));
    assert!(!pex.handle_connection(p1, global, PeerSource::Dht));
    assert!(pex.handle_connection(p2, local, PeerSource::LocalDiscovery));
    assert!(pex.handle_connection(p2, global, PeerSource::UserProvided));
    // Incoming TCP addresses are not exchanged.
    assert!(!pex.handle_connection(p2, PeerAddr::Tcp(v4(9, 9, 9, 9, 1)), PeerSource::Listener));
    assert!(pex.enable_collector(repo, p1));
    assert!(!pex.enable_collector(repo, p1));
    assert!(pex.enable_collector(repo, p2));
    assert_eq!(pex.collect(repo, p1), Err(CollectError::Disabled));
    pex.set_repo_enabled(repo, true);
    // p1 is reached on a global address only: it gets only global addresses.
    assert_eq!(pex.collect(repo, p1), Ok(vec![global]));
    let mut for_p2 = pex.collect(repo, p2).unwrap();
    for_p2.sort();
    assert_eq!(for_p2, vec![global]);
    assert!(pex.set_send_enabled(false));
    assert_eq!(pex.collect(repo, p1), Err(CollectError::Disabled));
    pex.remove_peer(p2);
    assert_eq!(pex.collect(repo, p2), Err(CollectError::Closed));
    assert!(pex.is_recv_enabled_for(repo));
    assert!(pex.handle_disconnection(p1, global));
}

#[test]
fn connection_set_permits() {
    let counter = AtomicU64::new(10);
    let mut set = ConnectionSet::new();
    let addr = PeerAddr::Quic(v4(8, 8, 8, 8, 1000));
    let permit = match set.reserve(addr, PeerSource::Dht, &counter) {
        ReserveResult::Permit(p) => p,
        ReserveResult::Occupied(..) => panic!("should be free"),
    };
    assert_eq!(permit.addr(), addr);
    match set.reserve(addr, PeerSource::UserProvided, &counter) {
        ReserveResult::Occupied(source, id) => {
            assert_eq!(source, PeerSource::Dht);
            assert_eq!(id, permit.id());
        }
        ReserveResult::Permit(_) => panic!("should be taken"),
    }
    // The incoming direction is a separate connection.
    assert!(matches!(set.reserve(addr, PeerSource::Listener, &counter), ReserveResult::Permit(_)));
    assert!(set.set_state(&permit, PeerState::Connecting));
    assert!(!set.set_state(&permit, PeerState::Connecting));
    assert_eq!(set.source(&permit), Some(PeerSource::Dht));
    let info = set.get_peer_info(addr).unwrap();
    assert_eq!(info.source, PeerSource::Listener);
    assert!(set.release(permit));
}

#[test]
fn response_batching() {
    let mut batch: ResponseBatch<u32, ()> = ResponseBatch::new();
    let block = BlockId([9; 32]);
    let other = BlockId([8; 32]);
    assert_eq!(batch.add(PreparedResponse::BlockOffer(block, ())), None);
    assert_eq!(
        batch.add(PreparedResponse::LeafNodes(1, ouisync_network::message::Hash([0; 32]), vec![block], ())),
        None
    );
    assert_eq!(batch.add(PreparedResponse::BlockOffer(block, ())), None);
    assert_eq!(batch.add(PreparedResponse::BlockOffer(other, ())), None);
    assert_eq!(
        batch.add(PreparedResponse::BlockError(other, ())),
        Some(TrackerSignal::Failure(MessageKey::Block(other)))
    );
    assert_eq!(batch.add(PreparedResponse::Choke), Some(TrackerSignal::Choke));
    assert!(!batch.is_full());
    let (writable, readable) = batch.take();
    assert_eq!(writable.len(), 2);
    assert!(matches!(writable[0], WritableResponse::LeafNodes(1, ())));
    assert!(matches!(writable[1], WritableResponse::BlockOffer(b, ()) if b == block));
    assert_eq!(readable, vec![(block, ()), (other, ())]);
    let counter = AtomicU64::new(u64::MAX);
    assert_eq!(next_root_node_cookie(&counter), u64::MAX);
    assert_eq!(next_root_node_cookie(&counter), 1);
}

#[test]
fn dht_decisions() {
    assert!(should_announce(&[false, true]));
    assert!(!should_announce(&[]));
    let good = [v4(1, 1, 1, 1, 1), SocketAddr::V6(Ipv6Addr::new(0x2001, 0, 0, 0, 0, 0, 0, 1), 2)];
    let questionable = [v4(1, 1, 1, 1, 1), v4(2, 2, 2, 2, 2)];
    assert_eq!(contacts_of_family(&good, &questionable, true), vec![v4(1, 1, 1, 1, 1), v4(2, 2, 2, 2, 2)]);
    assert_eq!(contacts_of_family(&good, &questionable, false).len(), 1);
    let d = announce_delay_secs();
    assert!((180..360).contains(&d));
}

#[test]
fn options_and_sockets() {
    let options = NetworkOptions::new();
    assert_eq!(options.listen_quic_addr_v4(), Some(v4(0, 0, 0, 0, 0)));
    assert!(options.listen_tcp_addr_v4().is_none());
    assert!(options.listen_quic_addr_v6().is_some());
    assert_eq!(retry_addr(v4(1, 2, 3, 4, 80)), Some(v4(1, 2, 3, 4, 0)));
    assert_eq!(retry_addr(v4(1, 2, 3, 4, 0)), None);
    assert!(is_same_family(&v4(1, 1, 1, 1, 1), &v4(2, 2, 2, 2, 2)));
}

#[test]
fn keep_alive_messages() {
    assert!(is_keep_alive(&keep_alive_message()));
    assert!(!is_keep_alive(&Message { id: [0; 32], content: vec![1] }));
    assert!(!is_keep_alive(&Message { id: [1; 32], content: vec![] }));
}

#[test]
fn inflight_request_counts() {
    let mut stats = Values::new();
    let block = Request::Block(BlockId([1; 32]), DebugRequest::start());
    let index = Request::RootNode { writer_id: PublicKey([2; 32]), cookie: 3, debug: DebugRequest::start() };
    stats_request_added(&mut stats, &block);
    stats_request_added(&mut stats, &index);
    stats_request_added(&mut stats, &index);
    assert_eq!(stats.block_requests_inflight, 1);
    assert_eq!(stats.index_requests_inflight, 2);
    stats_request_removed(&mut stats, &index);
    stats_request_removed(&mut stats, &block);
    assert_eq!(stats.block_requests_inflight, 0);
    assert_eq!(stats.index_requests_inflight, 1);
    assert_eq!(stats.request_timeouts, 0);
}

#[test]
fn connection_becomes_active() {
    let counter = AtomicU64::new(0);
    let mut set = ConnectionSet::new();
    let addr = PeerAddr::Tcp(v4(9, 9, 9, 9, 2000));
    let permit = match set.reserve(addr, PeerSource::Dht, &counter) {
        ReserveResult::Permit(p) => p,
        ReserveResult::Occupied(..) => panic!("should be free"),
    };
    set.mark_as_connecting(&permit);
    assert_eq!(set.get_peer_info(addr).unwrap().state, PeerState::Connecting);
    set.mark_as_handshaking(&permit);
    assert_eq!(set.get_peer_info(addr).unwrap().state, PeerState::Handshaking);
    let id = PublicRuntimeId::from_bytes([4; 32]);
    set.mark_as_active(&permit, id);
    match set.get_peer_info(addr).unwrap().state {
        PeerState::Active { id: active, .. } => assert_eq!(active, id),
        other => panic!("not active: {:?}", other),
    }
}

#[test]
fn a_live_link_is_kept() {
    assert!(may_create_link(None));
    assert!(may_create_link(Some(true)));
    assert!(!may_create_link(Some(false)));
}

#[test]
fn dht_lookup_rounds() {
    let mut lookup = LookupMachine::new();
    let peer = v4(1, 2, 3, 4, 5);
    // Nothing happens before the first request.
    assert_eq!(lookup.step(LookupEvent::DelayPassed, &[]), LookupAction::Nothing);
    assert_eq!(lookup.step(LookupEvent::RequestMade, &[false, true]), LookupAction::Search { announce: true });
    assert_eq!(lookup.step(LookupEvent::PeerFound(peer), &[false, true]), LookupAction::ReportPeer(PeerAddr::Quic(peer)));
    // Seen in this round already: not reported again.
    assert_eq!(lookup.step(LookupEvent::PeerFound(peer), &[false, true]), LookupAction::Nothing);
    match lookup.step(LookupEvent::SearchEnded, &[false, true]) {
        LookupAction::EndRound { delay_secs } => assert!((180..360).contains(&delay_secs)),
        other => panic!("unexpected {:?}", other),
    }
    assert_eq!(lookup.phase, LookupPhase::Sleeping);
    assert_eq!(lookup.step(LookupEvent::DelayPassed, &[false]), LookupAction::Search { announce: false });
    // Seen in a recent round: still not reported.
    assert_eq!(lookup.step(LookupEvent::PeerFound(peer), &[false]), LookupAction::Nothing);
    // A request made during the search cuts the wait after it short.
    assert_eq!(lookup.step(LookupEvent::RequestMade, &[false]), LookupAction::Nothing);
    assert_eq!(lookup.step(LookupEvent::SearchEnded, &[false]), LookupAction::EndRound { delay_secs: 0 });
    assert_eq!(lookup.step(LookupEvent::RequestMade, &[]), LookupAction::Search { announce: false });
}

#[test]
fn pending_index_requests_are_not_sent_twice() {
    let mut pending = PendingIndexRequests::new();
    let root = IndexKey::RootNode(PublicKey([1; 32]));
    assert!(pending.try_insert_at(root, 100));
    assert!(!pending.try_insert_at(root, 200));
    assert!(pending.try_insert_at(IndexKey::RootNode(PublicKey([2; 32])), 300));
    assert_eq!(pending.remove(&root), Some(100));
    assert_eq!(pending.remove(&root), None);
    assert!(pending.try_insert(root));
    let block = Request::Block(BlockId([3; 32]), DebugRequest::start());
    assert_eq!(pending.insert_request(&block), None);
}
