//! Networking logic of a peer-to-peer file synchronisation library: address classification,
//! connection decisions, wire formats and the bookkeeping of peers and requests.

pub mod ip;
pub mod peer_addr;
pub mod peer_source;
pub mod addr_filter;
pub mod gateway;
pub mod clock;
pub mod debug_payload;
pub mod message;
pub mod request_tracker;
pub mod stats;
pub mod repository_stats;
pub mod request_limiter;
pub mod protocol;
pub mod event;
pub mod barrier;
pub mod seen_peers;
pub mod framing;
pub mod object_stream;
pub mod message_io;
pub mod connection;
pub mod crypto;
pub mod runtime_id;
pub mod content_channel;
pub mod channel_info;
pub mod request;
pub mod network_error;
pub mod local_discovery;
pub mod client;
pub mod peer_exchange;
pub mod keyed;
pub mod random;
pub mod dht;
pub mod options;
pub mod socket;
pub mod keep_alive;
pub mod message_broker;
pub mod peer_state;
pub mod peer_info;
pub mod pending;
