use ouisync_network::event::{NetworkEvent, ProtocolVersions};
use ouisync_network::protocol::{magic, Version, VersionError};
use ouisync_network::request_tracker::{CandidateRequest, InitialRequestState, PendingRequest, RequestVariant};
use ouisync_network::message::{MultiBlockPresence, Request, BlockId};
use ouisync_network::debug_payload::DebugRequest;

#[test]
fn version_encoding() {
    assert_eq!(Version(0).encode(), vec![1]);
    assert_eq!(Version(42).encode(), vec![0x55]);
    assert_eq!(Version(0x0f0f).encode(), vec![0x3e, 0x3c]);
    for v in [0u64, 1, 127, 128, 300, 1 << 40, u64::MAX] {
        let bytes = Version(v).encode();
        assert_eq!(Version::encoded_len(bytes[0]), bytes.len());
        let mut with_tail = bytes.clone();
        with_tail.extend_from_slice(&[0xde, 0xad]);
        assert_eq!(Version::decode(&with_tail), Ok(Version(v)));
    }
    assert_eq!(Version::decode(&[]), Err(VersionError::InvalidData));
    assert_eq!(Version::encoded_len(0), 9);
    assert_eq!(Version::current(), Version(1));
    assert_eq!(&magic(), b"OUISYNC");
}

#[test]
fn protocol_versions() {
    let mut versions = ProtocolVersions::new();
    assert_eq!(versions.our, Version(1));
    assert_eq!(versions.highest_seen, Version(0));
    assert!(!versions.mismatch());
    versions.observe(Version(1));
    assert!(!versions.mismatch());
    versions.observe(Version(3));
    versions.observe(Version(2));
    assert_eq!(versions.highest_seen, Version(3));
    assert!(versions.mismatch());
}

#[test]
fn network_event_numbers() {
    assert_eq!(NetworkEvent::ProtocolVersionMismatch.to_u8(), 0);
    assert_eq!(NetworkEvent::PeerSetChange.to_u8(), 1);
    assert_eq!(NetworkEvent::try_from_u8(1), Some(NetworkEvent::PeerSetChange));
    assert_eq!(NetworkEvent::try_from_u8(2), None);
}

#[test]
fn request_variant_is_hash_of_checksums() {
    let local = MultiBlockPresence::Full;
    let remote = MultiBlockPresence::Partial([3; 16]);
    let mut data = vec![0xff; 16];
    data.extend_from_slice(&[3; 16]);
    let expected = xxhash_rust::xxh3::xxh3_128(&data);
    assert_eq!(RequestVariant::new(local, remote), RequestVariant(expected));
    assert_ne!(RequestVariant::new(local, remote), RequestVariant::new(remote, local));
    let mut zeros = vec![0; 16];
    zeros.extend_from_slice(&[0; 16]);
    assert_eq!(
        RequestVariant::new(MultiBlockPresence::Absent, MultiBlockPresence::Absent),
        RequestVariant(xxhash_rust::xxh3::xxh3_128(&zeros))
    );
}

#[test]
fn candidate_and_pending_requests() {
    let request = Request::Block(BlockId([2; 32]), DebugRequest::start());
    let candidate = CandidateRequest::new(request);
    assert_eq!(candidate.variant, RequestVariant(0));
    assert_eq!(candidate.state, InitialRequestState::Ready);
    let candidate = candidate.variant(RequestVariant(5)).suspended();
    assert_eq!(candidate.variant, RequestVariant(5));
    assert_eq!(candidate.state, InitialRequestState::Suspended);
    assert_eq!(candidate.payload, request);
    let pending = PendingRequest::new(request).variant(RequestVariant(9));
    assert_eq!(pending.variant, RequestVariant(9));
    assert_eq!(pending.payload, request);
}
